//! Carrying recognized commands out against the canvas.
//!
//! Commands are applied strictly in the order they were recognized. A
//! pixel write stores its color where the coordinate — after adding the
//! session offset — is on the canvas, and is silently dropped otherwise; a
//! pixel read replies with the stored color, echoing the coordinates the
//! client sent (without the offset), and stays silent off the canvas; the
//! size and help commands reply with fixed texts; the offset command only
//! moves the session's draw offset. All replies of one pass are collected
//! into a single byte string in command order.

use vstd::prelude::*;
use vstd::string::StringSliceAdditionalSpecFns;

use crate::framebuffer::{FbView, FrameBuffer};
use crate::parser::{
    scan, Command, ParserState, B_0, B_LC_A, B_NL, B_SP, B_UC_E, B_UC_I, B_UC_P, B_UC_S, B_UC_X,
    B_UC_Z,
};

verus! {

/// The fixed usage text the help command replies with; part of the wire
/// protocol.
pub open spec fn help_reply() -> Seq<u8> {
    "Pixelflut server powered by breakwater https://github.com/sbernauer/breakwater\nAvailable commands:\nHELP: Show this help\nPX x y rrggbb: Color the pixel (x,y) with the given hexadecimal color\nPX x y rrggbbaa: Color the pixel (x,y) with the given hexadecimal color rrggbb (alpha channel is ignored for now)\nPX x y: Get the color value of the pixel (x,y)\nSIZE: Get the size of the drawing surface, e.g. `SIZE 1920 1080`\nOFFSET x y: Apply offset (x,y) to all further pixel draws on this connection\n".spec_bytes()
}

/// The decimal rendering of a non-negative number, most-significant digit
/// first, without leading zeros (a single zero digit for zero).
pub open spec fn dec_bytes(n: int) -> Seq<u8>
    decreases n,
{
    if n <= 9 {
        seq![(B_0 + if n >= 0 { n } else { 0 }) as u8]
    } else {
        dec_bytes(n / 10) + seq![(B_0 + n % 10) as u8]
    }
}

/// The lowercase hexadecimal digit for a value below sixteen.
pub open spec fn hex_digit_byte(v: int) -> u8 {
    if v <= 9 {
        (B_0 + v) as u8
    } else {
        (B_LC_A + (v - 10)) as u8
    }
}

/// The six-digit lowercase hexadecimal rendering of a stored pixel value:
/// the red, green and blue bytes of the value, two digits each, red first.
/// The meaningless high byte of the stored value is not echoed.
pub open spec fn hex6_bytes(v: u32) -> Seq<u8> {
    let r = (v as int) % 256;
    let g = ((v as int) / 256) % 256;
    let b = ((v as int) / 65536) % 256;
    seq![
        hex_digit_byte(r / 16),
        hex_digit_byte(r % 16),
        hex_digit_byte(g / 16),
        hex_digit_byte(g % 16),
        hex_digit_byte(b / 16),
        hex_digit_byte(b % 16),
    ]
}

/// The reply to a pixel read: `PX x y rrggbb` and a newline, with the
/// coordinates as the client sent them.
pub open spec fn px_reply(x: int, y: int, v: u32) -> Seq<u8> {
    seq![B_UC_P, B_UC_X, B_SP] + dec_bytes(x) + seq![B_SP] + dec_bytes(y) + seq![B_SP]
        + hex6_bytes(v) + seq![B_NL]
}

/// The reply to the size command: `SIZE width height` and a newline.
pub open spec fn size_reply(w: int, h: int) -> Seq<u8> {
    seq![B_UC_S, B_UC_I, B_UC_Z, B_UC_E, B_SP] + dec_bytes(w) + seq![B_SP] + dec_bytes(h)
        + seq![B_NL]
}

/// Everything one pass over a command list touches: the session's draw
/// offset, the canvas, and the bytes replied so far.
pub struct ApplyState {
    pub ox: int,
    pub oy: int,
    pub fb: FbView,
    pub out: Seq<u8>,
}

/// The effect of a single command on offset, canvas and reply bytes.
pub open spec fn apply_one(c: Command, s: ApplyState) -> ApplyState {
    match c {
        Command::Help => ApplyState { out: s.out + help_reply(), ..s },
        Command::Size => ApplyState {
            out: s.out + size_reply(s.fb.width as int, s.fb.height as int),
            ..s
        },
        Command::PixelGet { x, y } => {
            if s.fb.in_bounds(x + s.ox, y + s.oy) {
                ApplyState {
                    out: s.out + px_reply(x as int, y as int, s.fb.pixel(x + s.ox, y + s.oy)),
                    ..s
                }
            } else {
                s
            }
        },
        Command::PixelSet { c, x, y } => ApplyState { fb: s.fb.store(x + s.ox, y + s.oy, c), ..s },
        Command::Offset { x, y } => ApplyState { ox: x as int, oy: y as int, ..s },
    }
}

/// The effect of a command list, first command first.
pub open spec fn apply_seq(cmds: Seq<Command>, s: ApplyState) -> ApplyState
    decreases cmds.len(),
{
    if cmds.len() == 0 {
        s
    } else {
        apply_seq(cmds.skip(1), apply_one(cmds[0], s))
    }
}

/// Appends a byte slice to the reply buffer.
fn push_bytes(out: &mut Vec<u8>, bytes: &[u8])
    ensures
        final(out)@ == old(out)@ + bytes@,
{
    let mut i: usize = 0;
    let len = bytes.len();
    while i < len
        invariant
            len == bytes@.len(),
            i <= len,
            out@ == old(out)@ + bytes@.take(i as int),
        decreases len - i,
    {
        out.push(bytes[i]);
        proof {
            assert(old(out)@ + bytes@.take(i + 1) =~= (old(out)@ + bytes@.take(i as int)).push(
                bytes@[i as int],
            ));
        }
        i = i + 1;
    }
    proof {
        assert(bytes@.take(len as int) =~= bytes@);
    }
}

/// Appends the decimal rendering of `n` to the reply buffer.
fn push_decimal(out: &mut Vec<u8>, n: usize)
    ensures
        final(out)@ == old(out)@ + dec_bytes(n as int),
    decreases n,
{
    if n <= 9 {
        out.push(B_0 + n as u8);
        proof {
            assert(old(out)@ + dec_bytes(n as int) =~= old(out)@.push((B_0 + n as int) as u8));
        }
    } else {
        push_decimal(out, n / 10);
        out.push(B_0 + (n % 10) as u8);
        proof {
            assert(old(out)@ + dec_bytes(n as int) =~= (old(out)@ + dec_bytes(n as int / 10)).push(
                (B_0 + n as int % 10) as u8,
            ));
        }
    }
}

/// The lowercase hexadecimal digit of a value below sixteen.
fn hex_digit(v: u8) -> (r: u8)
    requires
        v < 16,
    ensures
        r == hex_digit_byte(v as int),
{
    if v <= 9 {
        B_0 + v
    } else {
        B_LC_A + (v - 10)
    }
}

/// Appends the six-digit color rendering of a stored pixel value.
fn push_hex6(out: &mut Vec<u8>, v: u32)
    ensures
        final(out)@ == old(out)@ + hex6_bytes(v),
{
    let r = (v % 256) as u8;
    let g = ((v / 256) % 256) as u8;
    let b = ((v / 65536) % 256) as u8;
    out.push(hex_digit(r / 16));
    out.push(hex_digit(r % 16));
    out.push(hex_digit(g / 16));
    out.push(hex_digit(g % 16));
    out.push(hex_digit(b / 16));
    out.push(hex_digit(b % 16));
    proof {
        assert(old(out)@ + hex6_bytes(v) =~= out@);
    }
}

/// The exact help text as bytes.
pub fn help_text() -> (r: Vec<u8>)
    ensures
        r@ == help_reply(),
{
    let s: &str =
        "Pixelflut server powered by breakwater https://github.com/sbernauer/breakwater\nAvailable commands:\nHELP: Show this help\nPX x y rrggbb: Color the pixel (x,y) with the given hexadecimal color\nPX x y rrggbbaa: Color the pixel (x,y) with the given hexadecimal color rrggbb (alpha channel is ignored for now)\nPX x y: Get the color value of the pixel (x,y)\nSIZE: Get the size of the drawing surface, e.g. `SIZE 1920 1080`\nOFFSET x y: Apply offset (x,y) to all further pixel draws on this connection\n";
    vstd::slice::slice_to_vec(s.as_bytes())
}

/// Carries a list of recognized commands out in order against the canvas,
/// starting from the offsets in `state`, and collects the replies. The
/// returned state holds the offsets as the last offset command left them;
/// its `last_byte_parsed` is passed through untouched.
pub fn apply_commands(commands: &Vec<Command>, state: ParserState, fb: &mut FrameBuffer) -> (r: (
    ParserState,
    Vec<u8>,
))
    requires
        old(fb)@.wf(),
    ensures
        ({
            let s1 = apply_seq(
                commands@,
                ApplyState {
                    ox: state.connection_x_offset as int,
                    oy: state.connection_y_offset as int,
                    fb: old(fb)@,
                    out: Seq::empty(),
                },
            );
            &&& r.0.connection_x_offset as int == s1.ox
            &&& r.0.connection_y_offset as int == s1.oy
            &&& r.0.last_byte_parsed == state.last_byte_parsed
            &&& final(fb)@ == s1.fb
            &&& final(fb)@.wf()
            &&& r.1@ == s1.out
        }),
{
    let ghost s0 = ApplyState {
        ox: state.connection_x_offset as int,
        oy: state.connection_y_offset as int,
        fb: old(fb)@,
        out: Seq::empty(),
    };
    let mut ox: usize = state.connection_x_offset;
    let mut oy: usize = state.connection_y_offset;
    let mut out: Vec<u8> = Vec::new();
    let mut idx: usize = 0;
    let n = commands.len();
    proof {
        assert(commands@.skip(0) =~= commands@);
    }
    while idx < n
        invariant
            n == commands@.len(),
            idx <= n,
            fb@.wf(),
            apply_seq(commands@, s0) == apply_seq(
                commands@.skip(idx as int),
                ApplyState { ox: ox as int, oy: oy as int, fb: fb@, out: out@ },
            ),
        decreases n - idx,
    {
        let ghost cur = ApplyState { ox: ox as int, oy: oy as int, fb: fb@, out: out@ };
        proof {
            assert(commands@.skip(idx as int).skip(1) =~= commands@.skip(idx as int + 1));
            assert(commands@.skip(idx as int)[0] == commands@[idx as int]);
        }
        let c = commands[idx];
        match c {
            Command::Help => {
                let mut h = help_text();
                out.append(&mut h);
            },
            Command::Size => {
                out.push(B_UC_S);
                out.push(B_UC_I);
                out.push(B_UC_Z);
                out.push(B_UC_E);
                out.push(B_SP);
                push_decimal(&mut out, fb.get_width());
                out.push(B_SP);
                push_decimal(&mut out, fb.get_height());
                out.push(B_NL);
                proof {
                    assert(out@ =~= cur.out + size_reply(fb@.width as int, fb@.height as int));
                }
            },
            Command::PixelGet { x, y } => {
                match (x.checked_add(ox), y.checked_add(oy)) {
                    (Some(ax), Some(ay)) => {
                        match fb.get(ax, ay) {
                            Some(v) => {
                                out.push(B_UC_P);
                                out.push(B_UC_X);
                                out.push(B_SP);
                                push_decimal(&mut out, x);
                                out.push(B_SP);
                                push_decimal(&mut out, y);
                                out.push(B_SP);
                                push_hex6(&mut out, v);
                                out.push(B_NL);
                                proof {
                                    assert(out@ =~= cur.out + px_reply(x as int, y as int, v));
                                }
                            },
                            None => {},
                        }
                    },
                    _ => {
                        // An offset coordinate past the address space lies
                        // past any canvas.
                    },
                }
            },
            Command::PixelSet { c, x, y } => {
                match (x.checked_add(ox), y.checked_add(oy)) {
                    (Some(ax), Some(ay)) => {
                        fb.set(ax, ay, c);
                    },
                    _ => {},
                }
            },
            Command::Offset { x, y } => {
                ox = x;
                oy = y;
            },
        }
        idx = idx + 1;
    }
    proof {
        assert(commands@.skip(n as int) =~= Seq::<Command>::empty());
    }
    let result_state = ParserState {
        connection_x_offset: ox,
        connection_y_offset: oy,
        last_byte_parsed: state.last_byte_parsed,
    };
    (result_state, out)
}

/// Scans a byte buffer and carries every recognized command out against
/// the canvas: pixels are stored and read, replies are collected in
/// command order, and the offsets travel with the returned state, whose
/// `last_byte_parsed` names the final byte of the last fully recognized
/// command (zero where there was none).
pub fn parse_pixelflut_commands(buffer: &[u8], fb: &mut FrameBuffer, parser_state: ParserState) -> (r: (
    ParserState,
    Vec<u8>,
))
    requires
        old(fb)@.wf(),
    ensures
        ({
            let sc = scan(buffer@);
            let s1 = apply_seq(
                sc.commands,
                ApplyState {
                    ox: parser_state.connection_x_offset as int,
                    oy: parser_state.connection_y_offset as int,
                    fb: old(fb)@,
                    out: Seq::empty(),
                },
            );
            &&& r.0.connection_x_offset as int == s1.ox
            &&& r.0.connection_y_offset as int == s1.oy
            &&& r.0.last_byte_parsed as int == sc.last
            &&& final(fb)@ == s1.fb
            &&& final(fb)@.wf()
            &&& r.1@ == s1.out
        }),
{
    let (commands, last) = match crate::parser::parse_command(buffer) {
        Ok(t) => t,
        Err(_) => vstd::pervasive::unreached(),
    };
    let state = ParserState {
        connection_x_offset: parser_state.connection_x_offset,
        connection_y_offset: parser_state.connection_y_offset,
        last_byte_parsed: last,
    };
    apply_commands(&commands, state, fb)
}

} // verus!
