//! The laws the library states of itself, proved once and for all inputs.
//!
//! Each proof function here relates the specification-level effects that
//! the executable functions are verified against: what a pass over a
//! command list does to the canvas and to the reply bytes, and how the
//! bytes of a color survive a write followed by a read.

use vstd::arithmetic::div_mod::lemma_fundamental_div_mod_converse;
use vstd::prelude::*;

use crate::execute::{apply_one, apply_seq, hex6_bytes, hex_digit_byte, px_reply, ApplyState};
use crate::framebuffer::{lemma_flat_index, FbView};
use crate::parser::{
    all_dec_digits, all_hex_digits, color_at, hex_char_value, is_command_bytes, is_hex_digit,
    lemma_command_bytes_one_command, lemma_match_at_shape, lemma_match_at_window,
    lemma_match_truncation, lemma_number_at_bound, lemma_number_at_equal, lemma_number_at_shift,
    lemma_px_get_bytes_one_command, lemma_px_set_bytes_one_command, lemma_scan_empty, match_at,
    number_at, px_get_bytes, px_set_bytes, scan, scan_from, zero_seq, Command, ScanResult, B_0,
    B_9, B_LC_A, B_LC_F, B_UC_A, B_UC_F, PARSER_LOOKAHEAD,
};
use crate::execute::dec_bytes;
use crate::session::{feed_outcome, scan_buffer};

verus! {

/// The reply a pixel read gives in state `s`: the echoed coordinates and
/// the stored color where the offset coordinate lies on the canvas,
/// nothing otherwise.
pub open spec fn read_reply(s: ApplyState, x: usize, y: usize) -> Seq<u8> {
    if s.fb.in_bounds(x + s.ox, y + s.oy) {
        px_reply(x as int, y as int, s.fb.pixel(x + s.ox, y + s.oy))
    } else {
        Seq::empty()
    }
}

/// Round-trip: writing an in-bounds pixel and then reading the same
/// coordinate on the same connection echoes exactly the written color,
/// relative to the connection's offset. The stored high byte — alpha, had
/// the client sent one — is not part of the echo (see
/// [`lemma_alpha_never_echoed`]).
pub proof fn lemma_pixel_round_trip(x: usize, y: usize, c: u32, s: ApplyState)
    requires
        s.fb.wf(),
        s.fb.in_bounds(x + s.ox, y + s.oy),
    ensures
        ({
            let s2 = apply_seq(seq![Command::PixelSet { c, x, y }, Command::PixelGet { x, y }], s);
            &&& s2.fb == s.fb.store(x + s.ox, y + s.oy, c)
            &&& s2.out == s.out + px_reply(x as int, y as int, c)
            &&& s2.ox == s.ox && s2.oy == s.oy
        }),
{
    reveal_with_fuel(apply_seq, 4);
    let cmds = seq![Command::PixelSet { c, x, y }, Command::PixelGet { x, y }];
    assert(cmds.skip(1) =~= seq![Command::PixelGet { x, y }]);
    assert(seq![Command::PixelGet { x, y }].skip(1) =~= Seq::<Command>::empty());
    lemma_flat_index(x + s.ox, y + s.oy, s.fb.width as int, s.fb.height as int);
    let s1 = apply_one(cmds[0], s);
    assert(s1.fb.pixel(x + s.ox, y + s.oy) == c);
}

/// The high byte of a stored pixel value never reaches a reply: colors
/// that agree on their low three bytes render identically.
pub proof fn lemma_alpha_never_echoed(c: u32)
    ensures
        hex6_bytes(c) == hex6_bytes((c & 0xffffff) as u32),
{
    let m = (c & 0xffffff) as u32;
    assert(c as int % 256 == m as int % 256 && (c as int / 256) % 256 == (m as int / 256) % 256
        && (c as int / 65536) % 256 == (m as int / 65536) % 256) by (bit_vector)
        requires
            m == (c & 0xffffff) as u32,
    ;
}

/// The lowercase form of a hexadecimal digit byte.
pub open spec fn lower_hex_digit(c: u8) -> u8 {
    if B_UC_A <= c && c <= B_UC_F {
        (c + 32) as u8
    } else {
        c
    }
}

/// Decoding a hexadecimal digit byte and rendering the value again gives
/// the byte back in lowercase.
pub proof fn lemma_hex_digit_round_trip(c: u8)
    requires
        is_hex_digit(c),
    ensures
        hex_digit_byte(hex_char_value(c) as int) == lower_hex_digit(c),
{
}

/// Round-trip of the color bytes themselves: the value decoded from six
/// hexadecimal digit bytes renders back to the same six digits, in
/// lowercase.
pub proof fn lemma_color_round_trip(d: Seq<u8>)
    requires
        d.len() >= 6,
        forall|i: int| 0 <= i < 6 ==> is_hex_digit(#[trigger] d[i]),
    ensures
        hex6_bytes(color_at(d, 0)) == seq![
            lower_hex_digit(d[0]),
            lower_hex_digit(d[1]),
            lower_hex_digit(d[2]),
            lower_hex_digit(d[3]),
            lower_hex_digit(d[4]),
            lower_hex_digit(d[5]),
        ],
{
    let b0 = hex_char_value(d[0]) as int;
    let b1 = hex_char_value(d[1]) as int;
    let b2 = hex_char_value(d[2]) as int;
    let b3 = hex_char_value(d[3]) as int;
    let b4 = hex_char_value(d[4]) as int;
    let b5 = hex_char_value(d[5]) as int;
    let v = color_at(d, 0) as int;
    assert(v == b4 * 0x100000 + b5 * 0x10000 + b2 * 0x1000 + b3 * 0x100 + b0 * 0x10 + b1);
    let q2 = b4 * 16 + b5;
    lemma_fundamental_div_mod_converse(v, 65536, q2, b2 * 0x1000 + b3 * 0x100 + b0 * 16 + b1);
    let q1 = b4 * 0x1000 + b5 * 0x100 + b2 * 16 + b3;
    lemma_fundamental_div_mod_converse(v, 256, q1, b0 * 16 + b1);
    lemma_fundamental_div_mod_converse(q1, 256, b4 * 16 + b5, b2 * 16 + b3);
    lemma_fundamental_div_mod_converse(q2, 256, 0, q2);
    lemma_fundamental_div_mod_converse(b0 * 16 + b1, 16, b0, b1);
    lemma_fundamental_div_mod_converse(b2 * 16 + b3, 16, b2, b3);
    lemma_fundamental_div_mod_converse(b4 * 16 + b5, 16, b4, b5);
    lemma_hex_digit_round_trip(d[0]);
    lemma_hex_digit_round_trip(d[1]);
    lemma_hex_digit_round_trip(d[2]);
    lemma_hex_digit_round_trip(d[3]);
    lemma_hex_digit_round_trip(d[4]);
    lemma_hex_digit_round_trip(d[5]);
    assert(hex6_bytes(color_at(d, 0)) =~= seq![
        lower_hex_digit(d[0]),
        lower_hex_digit(d[1]),
        lower_hex_digit(d[2]),
        lower_hex_digit(d[3]),
        lower_hex_digit(d[4]),
        lower_hex_digit(d[5]),
    ]);
}

/// Idempotence of read: reading a coordinate twice without an intervening
/// write gives the same reply both times and leaves canvas and offsets
/// untouched.
pub proof fn lemma_read_idempotent(x: usize, y: usize, s: ApplyState)
    ensures
        ({
            let g = Command::PixelGet { x, y };
            let s2 = apply_seq(seq![g, g], s);
            &&& s2.fb == s.fb && s2.ox == s.ox && s2.oy == s.oy
            &&& s2.out == s.out + read_reply(s, x, y) + read_reply(s, x, y)
        }),
{
    reveal_with_fuel(apply_seq, 4);
    let g = Command::PixelGet { x, y };
    assert(seq![g, g].skip(1) =~= seq![g]);
    assert(seq![g].skip(1) =~= Seq::<Command>::empty());
    if s.fb.in_bounds(x + s.ox, y + s.oy) {
    } else {
        assert(apply_seq(seq![g, g], s).out =~= s.out + read_reply(s, x, y) + read_reply(s, x, y));
    }
}

/// Fresh canvas: a coordinate never written reads as black.
pub proof fn lemma_fresh_canvas_reads_black(x: usize, y: usize, s: ApplyState)
    requires
        s.fb.wf(),
        forall|i: int| 0 <= i < s.fb.grid.len() ==> s.fb.grid[i] == 0u32,
        s.fb.in_bounds(x + s.ox, y + s.oy),
    ensures
        apply_one(Command::PixelGet { x, y }, s).out == s.out + px_reply(x as int, y as int, 0u32),
{
    lemma_flat_index(x + s.ox, y + s.oy, s.fb.width as int, s.fb.height as int);
}

/// Bounds: a write outside the canvas is silently dropped and a read
/// outside the canvas stays silent — the pass changes nothing at all.
pub proof fn lemma_out_of_bounds_silent(x: usize, y: usize, c: u32, s: ApplyState)
    requires
        !s.fb.in_bounds(x + s.ox, y + s.oy),
    ensures
        apply_one(Command::PixelSet { c, x, y }, s) == s,
        apply_one(Command::PixelGet { x, y }, s) == s,
{
}

/// Offset semantics: after moving the offset, a write and a read of the
/// same relative coordinate touch the absolute pixel behind the offset,
/// while the echo carries the relative coordinate the client sent.
pub proof fn lemma_offset_semantics(
    ox: usize,
    oy: usize,
    x: usize,
    y: usize,
    c: u32,
    s: ApplyState,
)
    requires
        s.fb.wf(),
        s.fb.in_bounds(x + ox, y + oy),
    ensures
        ({
            let s2 = apply_seq(
                seq![
                    Command::Offset { x: ox, y: oy },
                    Command::PixelSet { c, x, y },
                    Command::PixelGet { x, y },
                ],
                s,
            );
            &&& s2.fb == s.fb.store(x + ox, y + oy, c)
            &&& s2.out == s.out + px_reply(x as int, y as int, c)
            &&& s2.ox == ox as int && s2.oy == oy as int
        }),
{
    reveal_with_fuel(apply_seq, 4);
    let co = Command::Offset { x: ox, y: oy };
    let cs = Command::PixelSet { c, x, y };
    let cg = Command::PixelGet { x, y };
    assert(seq![co, cs, cg].skip(1) =~= seq![cs, cg]);
    assert(seq![cs, cg].skip(1) =~= seq![cg]);
    assert(seq![cg].skip(1) =~= Seq::<Command>::empty());
    lemma_flat_index(x + ox, y + oy, s.fb.width as int, s.fb.height as int);
    let s1 = apply_one(cs, apply_one(co, s));
    assert(s1.fb.pixel(x + ox, y + oy) == c);
}

/// The canvas after a series of single-pixel writes, first write first.
pub open spec fn store_all(fb: FbView, ws: Seq<(usize, usize, u32)>) -> FbView
    decreases ws.len(),
{
    if ws.len() == 0 {
        fb
    } else {
        store_all(fb.store(ws[0].0 as int, ws[0].1 as int, ws[0].2), ws.skip(1))
    }
}

/// A series of writes never changes the canvas dimensions.
pub proof fn lemma_store_all_dims(fb: FbView, ws: Seq<(usize, usize, u32)>)
    requires
        fb.wf(),
    ensures
        store_all(fb, ws).wf(),
        store_all(fb, ws).width == fb.width,
        store_all(fb, ws).height == fb.height,
    decreases ws.len(),
{
    if ws.len() > 0 {
        let wx = ws[0].0 as int;
        let wy = ws[0].1 as int;
        let fb1 = fb.store(wx, wy, ws[0].2);
        if fb.in_bounds(wx, wy) {
            lemma_flat_index(wx, wy, fb.width as int, fb.height as int);
        }
        assert(fb1.wf());
        lemma_store_all_dims(fb1, ws.skip(1));
    }
}

/// Writes elsewhere leave an in-bounds pixel untouched.
pub proof fn lemma_store_all_preserves_pixel(
    fb: FbView,
    ws: Seq<(usize, usize, u32)>,
    x: int,
    y: int,
)
    requires
        fb.wf(),
        fb.in_bounds(x, y),
        forall|i: int|
            0 <= i < ws.len() ==> ((#[trigger] ws[i]).0 as int != x || ws[i].1 as int != y),
    ensures
        store_all(fb, ws).pixel(x, y) == fb.pixel(x, y),
    decreases ws.len(),
{
    if ws.len() > 0 {
        let w0 = ws[0];
        let wx = w0.0 as int;
        let wy = w0.1 as int;
        let fb1 = fb.store(wx, wy, w0.2);
        lemma_flat_index(x, y, fb.width as int, fb.height as int);
        if fb.in_bounds(wx, wy) {
            lemma_flat_index(wx, wy, fb.width as int, fb.height as int);
            assert(wy * fb.width + wx != y * fb.width + x) by (nonlinear_arith)
                requires
                    0 <= x < fb.width,
                    0 <= y < fb.height,
                    0 <= wx < fb.width,
                    0 <= wy < fb.height,
                    wx != x || wy != y,
            ;
        }
        assert(fb1.pixel(x, y) == fb.pixel(x, y));
        assert(forall|i: int|
            0 <= i < ws.skip(1).len() ==> ((#[trigger] ws.skip(1)[i]).0 as int != x || ws.skip(
                1,
            )[i].1 as int != y));
        lemma_store_all_preserves_pixel(fb1, ws.skip(1), x, y);
    }
}

/// Disjoint writes read back exactly: after writing any number of
/// pairwise-distinct in-bounds coordinates — in whatever order the
/// writers' passes happened to interleave into — every one of the
/// coordinates holds the value written to it.
pub proof fn lemma_disjoint_writes_read_back(fb: FbView, ws: Seq<(usize, usize, u32)>, k: int)
    requires
        fb.wf(),
        0 <= k < ws.len(),
        forall|i: int|
            0 <= i < ws.len() ==> fb.in_bounds(
                (#[trigger] ws[i]).0 as int,
                ws[i].1 as int,
            ),
        forall|i: int, j: int|
            0 <= i < j < ws.len() ==> ((#[trigger] ws[i]).0 != (#[trigger] ws[j]).0 || ws[i].1
                != ws[j].1),
    ensures
        store_all(fb, ws).pixel(ws[k].0 as int, ws[k].1 as int) == ws[k].2,
    decreases ws.len(),
{
    let w0 = ws[0];
    let fb1 = fb.store(w0.0 as int, w0.1 as int, w0.2);
    lemma_flat_index(w0.0 as int, w0.1 as int, fb.width as int, fb.height as int);
    assert(fb1.wf());
    if k == 0 {
        assert(fb1.pixel(w0.0 as int, w0.1 as int) == w0.2);
        assert(forall|i: int|
            0 <= i < ws.skip(1).len() ==> ((#[trigger] ws.skip(1)[i]).0 as int != w0.0 as int
                || ws.skip(1)[i].1 as int != w0.1 as int));
        lemma_store_all_preserves_pixel(fb1, ws.skip(1), w0.0 as int, w0.1 as int);
    } else {
        assert(forall|i: int|
            0 <= i < ws.skip(1).len() ==> fb1.in_bounds(
                (#[trigger] ws.skip(1)[i]).0 as int,
                ws.skip(1)[i].1 as int,
            ));
        assert(forall|i: int, j: int|
            0 <= i < j < ws.skip(1).len() ==> ((#[trigger] ws.skip(1)[i]).0 != (#[trigger] ws.skip(
                1,
            )[j]).0 || ws.skip(1)[i].1 != ws.skip(1)[j].1));
        assert(ws.skip(1)[k - 1] == ws[k]);
        lemma_disjoint_writes_read_back(fb1, ws.skip(1), k - 1);
    }
}

/// Writes to distinct coordinates commute: the canvas ends the same
/// whichever of the two happens first.
pub proof fn lemma_disjoint_writes_commute(
    fb: FbView,
    x1: int,
    y1: int,
    c1: u32,
    x2: int,
    y2: int,
    c2: u32,
)
    requires
        fb.wf(),
        x1 != x2 || y1 != y2,
    ensures
        fb.store(x1, y1, c1).store(x2, y2, c2) == fb.store(x2, y2, c2).store(x1, y1, c1),
{
    if fb.in_bounds(x1, y1) && fb.in_bounds(x2, y2) {
        lemma_flat_index(x1, y1, fb.width as int, fb.height as int);
        lemma_flat_index(x2, y2, fb.width as int, fb.height as int);
        let i1 = fb.index_of(x1, y1);
        let i2 = fb.index_of(x2, y2);
        assert(y1 * fb.width + x1 != y2 * fb.width + x2) by (nonlinear_arith)
            requires
                0 <= x1 < fb.width,
                0 <= y1 < fb.height,
                0 <= x2 < fb.width,
                0 <= y2 < fb.height,
                x1 != x2 || y1 != y2,
        ;
        assert(fb.grid.update(i1, c1).update(i2, c2) =~= fb.grid.update(i2, c2).update(i1, c1));
    }
}

/// Fragmentation invariance: however one command's bytes are split into
/// two deliveries, the canvas, the replies and the retained state end
/// exactly as they do when the bytes arrive at once. `s` must hold
/// exactly one command — matched at its first byte and consuming every
/// byte — whose interior starts no second command (color bytes that spell
/// a command keyword would start one, and break the invariance).
#[verifier::rlimit(100)]
#[verifier::spinoff_prover]
pub proof fn lemma_fragmentation_invariance(s: Seq<u8>, k: int, ox: int, oy: int, fb: FbView)
    requires
        fb.wf(),
        0 < s.len() <= PARSER_LOOKAHEAD,
        0 <= k <= s.len(),
        ({
            let full = s + zero_seq(PARSER_LOOKAHEAD as nat);
            &&& match_at(full, 0) is Some
            &&& match_at(full, 0).unwrap().next == s.len()
            &&& forall|j: int| 0 < j < s.len() ==> match_at(full, j) is None
        }),
    ensures
        ({
            let o_all = feed_outcome(Seq::<u8>::empty(), s, ox, oy, fb);
            let o1 = feed_outcome(Seq::<u8>::empty(), s.subrange(0, k), ox, oy, fb);
            let o2 = feed_outcome(o1.leftover, s.subrange(k, s.len() as int), o1.ox, o1.oy, o1.fb);
            &&& o1.replies + o2.replies == o_all.replies
            &&& o2.fb == o_all.fb
            &&& o2.ox == o_all.ox && o2.oy == o_all.oy
            &&& o2.leftover == o_all.leftover && o_all.leftover == Seq::<u8>::empty()
        }),
{
    reveal_with_fuel(scan_from, 3);
    reveal_with_fuel(apply_seq, 3);
    let full = s + zero_seq(PARSER_LOOKAHEAD as nat);
    let m = match_at(full, 0).unwrap();
    lemma_match_at_shape(full, 0);
    let pre = s.subrange(0, k);
    let post = s.subrange(k, s.len() as int);

    // The one-delivery pass: the command is matched at the first byte and
    // scanning stops right behind it, at the margin.
    let buf_all = scan_buffer(Seq::<u8>::empty(), s);
    assert(buf_all =~= full);
    assert(scan(full) == (ScanResult { commands: seq![m.command], last: m.last })) by {
        assert(scan_from(full, s.len() as int, m.last) == (ScanResult {
            commands: Seq::<Command>::empty(),
            last: m.last,
        }));
        assert(seq![m.command] + Seq::<Command>::empty() =~= seq![m.command]);
    }
    let o_all = feed_outcome(Seq::<u8>::empty(), s, ox, oy, fb);
    assert(o_all.leftover =~= Seq::<u8>::empty());

    if k == s.len() {
        // The degenerate split: the first delivery is the whole command
        // and the second is empty.
        assert(pre =~= s);
        let o1 = feed_outcome(Seq::<u8>::empty(), pre, ox, oy, fb);
        assert(o1 == o_all);
        let buf2 = scan_buffer(o1.leftover, post);
        assert(buf2 =~= zero_seq(PARSER_LOOKAHEAD as nat));
        let o2 = feed_outcome(o1.leftover, post, o1.ox, o1.oy, o1.fb);
        assert(o2.leftover =~= Seq::<u8>::empty());
        assert(o1.replies + o2.replies =~= o_all.replies);
    } else {
        // The first delivery is a proper prefix: no position of it can
        // match, so it is retained whole and unconsumed.
        let buf1 = scan_buffer(Seq::<u8>::empty(), pre);
        assert(buf1 =~= pre + zero_seq(PARSER_LOOKAHEAD as nat));
        assert(forall|j: int| 0 <= j < k ==> buf1[j] == full[j]);
        assert(forall|j: int| k <= j < buf1.len() ==> buf1[j] == 0);
        assert forall|j: int|
            0 <= j && j + PARSER_LOOKAHEAD < buf1.len() implies match_at(buf1, j) is None by {
            if match_at(buf1, j) is Some {
                lemma_match_truncation(buf1, full, k, j);
                if j == 0 {
                    assert(match_at(full, 0).unwrap().last < k);
                } else {
                    assert(match_at(full, j) is Some);
                }
            }
        }
        lemma_scan_empty(buf1, 0, 0);
        let o1 = feed_outcome(Seq::<u8>::empty(), pre, ox, oy, fb);
        assert(o1.leftover =~= pre);
        assert(o1.replies =~= Seq::<u8>::empty());

        // The second delivery completes the command: the recombined
        // buffer is the one-delivery buffer.
        let buf2 = scan_buffer(o1.leftover, post);
        assert(pre + post =~= s);
        assert(buf2 =~= full);
        let o2 = feed_outcome(o1.leftover, post, o1.ox, o1.oy, o1.fb);
        assert(o2.leftover =~= Seq::<u8>::empty());
        assert(o1.replies + o2.replies =~= o_all.replies);
    }
}

/// Noise tolerance: a delivery in which no position holds a command is
/// absorbed silently — no reply, no canvas change, no offset change, and
/// never an error or a dropped connection.
pub proof fn lemma_noise_silent(lo: Seq<u8>, data: Seq<u8>, ox: int, oy: int, fb: FbView)
    requires
        forall|j: int|
            0 <= j && j + PARSER_LOOKAHEAD < scan_buffer(lo, data).len() ==> match_at(
                scan_buffer(lo, data),
                j,
            ) is None,
    ensures
        ({
            let o = feed_outcome(lo, data, ox, oy, fb);
            &&& o.replies == Seq::<u8>::empty()
            &&& o.fb == fb
            &&& o.ox == ox && o.oy == oy
        }),
{
    lemma_scan_empty(scan_buffer(lo, data), 0, 0);
}

/// Fragmentation invariance, instantiated: the canonical bytes of any of
/// the five commands — keywords bare, coordinates as genuine decimal
/// digits, colors as genuine hexadecimal digits — may be split into two
/// deliveries at any point without changing canvas, replies or retained
/// state.
pub proof fn lemma_fragmentation_of_command(s: Seq<u8>, k: int, ox: int, oy: int, fb: FbView)
    requires
        fb.wf(),
        is_command_bytes(s),
        0 <= k <= s.len(),
    ensures
        ({
            let o_all = feed_outcome(Seq::<u8>::empty(), s, ox, oy, fb);
            let o1 = feed_outcome(Seq::<u8>::empty(), s.subrange(0, k), ox, oy, fb);
            let o2 = feed_outcome(o1.leftover, s.subrange(k, s.len() as int), o1.ox, o1.oy, o1.fb);
            &&& o1.replies + o2.replies == o_all.replies
            &&& o2.fb == o_all.fb
            &&& o2.ox == o_all.ox && o2.oy == o_all.oy
            &&& o2.leftover == o_all.leftover && o_all.leftover == Seq::<u8>::empty()
        }),
{
    lemma_command_bytes_one_command(s);
    lemma_fragmentation_invariance(s, k, ox, oy, fb);
}

/// A digit run that does not start with zero parses to at least one.
proof fn lemma_number_at_positive(d: Seq<u8>, n: int)
    requires
        1 <= n <= d.len(),
        all_dec_digits(d),
        d[0] != B_0,
    ensures
        number_at(d, 0, n) >= 1,
    decreases n,
{
    reveal_with_fuel(number_at, 3);
    if n > 1 {
        lemma_number_at_positive(d, n - 1);
        assert(B_0 <= d[n - 1] && d[n - 1] <= B_9);
        assert(number_at(d, 0, n) == number_at(d, 0, n - 1) * 10 + (d[n - 1] - B_0));
    } else {
        assert(B_0 <= d[0] && d[0] <= B_9);
        assert(number_at(d, 0, 1) == d[0] - B_0);
    }
}

/// Rendering a parsed coordinate gives its digits back, provided they
/// carry no leading zero (one with a leading zero is echoed shortened).
pub proof fn lemma_dec_round_trip(d: Seq<u8>)
    requires
        1 <= d.len() <= 4,
        all_dec_digits(d),
        d.len() > 1 ==> d[0] != B_0,
    ensures
        dec_bytes(number_at(d, 0, d.len() as int)) == d,
    decreases d.len(),
{
    reveal_with_fuel(number_at, 3);
    reveal_with_fuel(dec_bytes, 3);
    let n = d.len() as int;
    let v = number_at(d, 0, n);
    lemma_number_at_bound(d, 0, n);
    if n == 1 {
        assert(v == d[0] - B_0);
        assert(dec_bytes(v) =~= d);
        assert(dec_bytes(number_at(d, 0, d.len() as int)) == d);
    } else {
        let prev = number_at(d, 0, n - 1);
        lemma_number_at_positive(d, n - 1);
        assert(B_0 <= d[n - 1] && d[n - 1] <= B_9);
        assert(v == prev * 10 + (d[n - 1] - B_0));
        lemma_fundamental_div_mod_converse(v, 10, prev, d[n - 1] - B_0);
        assert(v / 10 == prev && v % 10 == d[n - 1] - B_0);
        assert(v >= 10);
        let dt = d.take(n - 1);
        assert(all_dec_digits(dt));
        assert forall|p: int| 0 <= p < n - 1 implies #[trigger] dt[p] == d[p] by {}
        lemma_number_at_equal(dt, d, 0, n - 1);
        assert(number_at(dt, 0, n - 1) == prev);
        lemma_dec_round_trip(dt);
        assert(dec_bytes(prev) == dt);
        assert(dec_bytes(v) == dec_bytes(v / 10) + seq![(B_0 + v % 10) as u8]);
        assert(dec_bytes(v) =~= dt + seq![d[n - 1]]);
        assert(dt + seq![d[n - 1]] =~= d);
        assert(dec_bytes(number_at(d, 0, d.len() as int)) == d);
    }
}

/// The command a canonical pixel write matches, in terms of its own
/// digit and color bytes.
#[verifier::rlimit(100)]
#[verifier::spinoff_prover]
proof fn lemma_write_command_value(xd: Seq<u8>, yd: Seq<u8>, cd: Seq<u8>)
    requires
        1 <= xd.len() <= 4,
        1 <= yd.len() <= 4,
        cd.len() == 6 || cd.len() == 8,
        all_dec_digits(xd),
        all_dec_digits(yd),
        all_hex_digits(cd),
    ensures
        ({
            let s1 = px_set_bytes(xd, yd, cd);
            let full1 = s1 + zero_seq(PARSER_LOOKAHEAD as nat);
            &&& match_at(full1, 0) is Some
            &&& match_at(full1, 0).unwrap().next == s1.len()
            &&& match_at(full1, 0).unwrap().command == (Command::PixelSet {
                c: color_at(cd, 0),
                x: number_at(xd, 0, xd.len() as int) as usize,
                y: number_at(yd, 0, yd.len() as int) as usize,
            })
        }),
{
    let nx = xd.len() as int;
    let ny = yd.len() as int;
    let s1 = px_set_bytes(xd, yd, cd);
    let full1 = s1 + zero_seq(PARSER_LOOKAHEAD as nat);
    lemma_px_set_bytes_one_command(xd, yd, cd);
    assert(forall|p: int| 3 <= p < 3 + nx ==> full1[p] == xd[p - 3]);
    assert(forall|p: int| 4 + nx <= p < 4 + nx + ny ==> full1[p] == yd[p - 4 - nx]);
    assert(forall|p: int| 5 + nx + ny <= p < 11 + nx + ny ==> full1[p] == cd[p - 5 - nx - ny]);
    lemma_number_at_shift(full1, xd, 3, 0, nx);
    lemma_number_at_shift(full1, yd, 4 + nx, 0, ny);
    assert(color_at(full1, 5 + nx + ny) == color_at(cd, 0));
}

/// The command a canonical pixel read matches, in terms of its own digit
/// bytes.
#[verifier::rlimit(100)]
#[verifier::spinoff_prover]
proof fn lemma_read_command_value(xd: Seq<u8>, yd: Seq<u8>)
    requires
        1 <= xd.len() <= 4,
        1 <= yd.len() <= 4,
        all_dec_digits(xd),
        all_dec_digits(yd),
    ensures
        ({
            let s2 = px_get_bytes(xd, yd);
            let full2 = s2 + zero_seq(PARSER_LOOKAHEAD as nat);
            &&& match_at(full2, 0) is Some
            &&& match_at(full2, 0).unwrap().next == s2.len()
            &&& match_at(full2, 0).unwrap().command == (Command::PixelGet {
                x: number_at(xd, 0, xd.len() as int) as usize,
                y: number_at(yd, 0, yd.len() as int) as usize,
            })
        }),
{
    let nx = xd.len() as int;
    let ny = yd.len() as int;
    let s2 = px_get_bytes(xd, yd);
    let full2 = s2 + zero_seq(PARSER_LOOKAHEAD as nat);
    lemma_px_get_bytes_one_command(xd, yd);
    assert(forall|p: int| 3 <= p < 3 + nx ==> full2[p] == xd[p - 3]);
    assert(forall|p: int| 4 + nx <= p < 4 + nx + ny ==> full2[p] == yd[p - 4 - nx]);
    lemma_number_at_shift(full2, xd, 3, 0, nx);
    lemma_number_at_shift(full2, yd, 4 + nx, 0, ny);
}

/// Scanning a pixel write followed by a pixel read of the same
/// coordinate, with the margin behind them, recognizes exactly those two
/// commands and consumes every byte.
#[verifier::rlimit(100)]
#[verifier::spinoff_prover]
proof fn lemma_scan_of_write_then_read(xd: Seq<u8>, yd: Seq<u8>, cd: Seq<u8>)
    requires
        1 <= xd.len() <= 4,
        1 <= yd.len() <= 4,
        cd.len() == 6 || cd.len() == 8,
        all_dec_digits(xd),
        all_dec_digits(yd),
        all_hex_digits(cd),
    ensures
        ({
            let s = px_set_bytes(xd, yd, cd) + px_get_bytes(xd, yd);
            let full = s + zero_seq(PARSER_LOOKAHEAD as nat);
            let x = number_at(xd, 0, xd.len() as int);
            let y = number_at(yd, 0, yd.len() as int);
            &&& scan(full).commands == seq![
                Command::PixelSet { c: color_at(cd, 0), x: x as usize, y: y as usize },
                Command::PixelGet { x: x as usize, y: y as usize },
            ]
            &&& scan(full).last == s.len() - 1
        }),
{
    reveal_with_fuel(scan_from, 4);
    let s1 = px_set_bytes(xd, yd, cd);
    let s2 = px_get_bytes(xd, yd);
    let s = s1 + s2;
    let full = s + zero_seq(PARSER_LOOKAHEAD as nat);
    let full1 = s1 + zero_seq(PARSER_LOOKAHEAD as nat);
    let full2 = s2 + zero_seq(PARSER_LOOKAHEAD as nat);
    lemma_write_command_value(xd, yd, cd);
    lemma_read_command_value(xd, yd);
    let m1 = match_at(full1, 0).unwrap();
    let m2 = match_at(full2, 0).unwrap();

    // The write is matched at the head of the combined buffer: its match
    // rests on its own bytes alone.
    let t = s1 + zero_seq((s2.len() + PARSER_LOOKAHEAD as int) as nat);
    assert forall|p: int| 0 <= p <= PARSER_LOOKAHEAD implies #[trigger] full1[p] == t[p] by {
        if p >= s1.len() {
            assert(full1[p] == 0 && t[p] == 0);
        }
    }
    lemma_match_at_window(full1, t, 0, 0);
    assert(forall|j: int| 0 <= j < s1.len() ==> t[j] == full[j]);
    assert(forall|j: int| s1.len() <= j < t.len() ==> t[j] == 0);
    lemma_match_truncation(t, full, s1.len() as int, 0);
    assert(match_at(full, 0) == Some(m1));

    // The read is matched right behind it.
    assert forall|p: int|
        0 <= p <= PARSER_LOOKAHEAD implies #[trigger] full2[p] == full[p + s1.len()] by {
        if p < s2.len() {
            assert(full2[p] == s2[p]);
            assert(full[p + s1.len()] == s2[p]);
        } else {
            assert(full2[p] == 0);
            assert(full[p + s1.len()] == 0);
        }
    }
    lemma_match_at_window(full2, full, 0, s1.len() as int);

    assert(scan(full).commands =~= seq![m1.command, m2.command]);
    assert(scan(full).last == s.len() - 1);
}

/// Round-trip on the wire: a pixel write and a read of the same
/// coordinate, delivered together on one connection, draw exactly one
/// reply — the coordinates as the client sent them and the color in
/// lowercase, itself a valid write of the same pixel — and the color is
/// stored behind the session offset. Alpha digits, if sent, are neither
/// echoed nor stored beyond the color bits. The coordinates carry no
/// leading zeros (a coordinate with one is echoed shortened).
#[verifier::rlimit(100)]
#[verifier::spinoff_prover]
pub proof fn lemma_round_trip_bytes(
    xd: Seq<u8>,
    yd: Seq<u8>,
    cd: Seq<u8>,
    ox: int,
    oy: int,
    fb: FbView,
)
    requires
        fb.wf(),
        1 <= xd.len() <= 4,
        1 <= yd.len() <= 4,
        cd.len() == 6 || cd.len() == 8,
        all_dec_digits(xd),
        all_dec_digits(yd),
        all_hex_digits(cd),
        xd.len() > 1 ==> xd[0] != B_0,
        yd.len() > 1 ==> yd[0] != B_0,
        fb.in_bounds(
            number_at(xd, 0, xd.len() as int) + ox,
            number_at(yd, 0, yd.len() as int) + oy,
        ),
    ensures
        ({
            let s = px_set_bytes(xd, yd, cd) + px_get_bytes(xd, yd);
            let o = feed_outcome(Seq::<u8>::empty(), s, ox, oy, fb);
            let x = number_at(xd, 0, xd.len() as int);
            let y = number_at(yd, 0, yd.len() as int);
            &&& o.replies == px_set_bytes(
                xd,
                yd,
                seq![
                    lower_hex_digit(cd[0]),
                    lower_hex_digit(cd[1]),
                    lower_hex_digit(cd[2]),
                    lower_hex_digit(cd[3]),
                    lower_hex_digit(cd[4]),
                    lower_hex_digit(cd[5]),
                ],
            )
            &&& o.fb == fb.store(x + ox, y + oy, color_at(cd, 0))
            &&& o.ox == ox && o.oy == oy
            &&& o.leftover == Seq::<u8>::empty()
        }),
{
    let s1 = px_set_bytes(xd, yd, cd);
    let s2 = px_get_bytes(xd, yd);
    let s = s1 + s2;
    let full = s + zero_seq(PARSER_LOOKAHEAD as nat);
    let nx = xd.len() as int;
    let ny = yd.len() as int;
    let x = number_at(xd, 0, nx);
    let y = number_at(yd, 0, ny);
    let c = color_at(cd, 0);
    lemma_number_at_bound(xd, 0, nx);
    lemma_number_at_bound(yd, 0, ny);
    lemma_scan_of_write_then_read(xd, yd, cd);

    let buf = scan_buffer(Seq::<u8>::empty(), s);
    assert(buf =~= full);
    let o = feed_outcome(Seq::<u8>::empty(), s, ox, oy, fb);
    assert(o.leftover =~= Seq::<u8>::empty());

    // Carrying the two commands out is the round trip over the canvas.
    let a0 = ApplyState { ox, oy, fb, out: Seq::empty() };
    lemma_pixel_round_trip(x as usize, y as usize, c, a0);

    // The reply renders the digits back: coordinates unchanged, color in
    // lowercase.
    lemma_dec_round_trip(xd);
    lemma_dec_round_trip(yd);
    lemma_color_round_trip(cd);
    assert(o.replies =~= px_set_bytes(
        xd,
        yd,
        seq![
            lower_hex_digit(cd[0]),
            lower_hex_digit(cd[1]),
            lower_hex_digit(cd[2]),
            lower_hex_digit(cd[3]),
            lower_hex_digit(cd[4]),
            lower_hex_digit(cd[5]),
        ],
    ));
}

} // verus!
