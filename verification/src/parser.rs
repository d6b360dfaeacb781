//! The command scanner.
//!
//! A scan walks a byte buffer position by position. At each position it
//! compares the bytes against the fixed command prefixes (`PX `, `SIZE`,
//! `HELP`, `OFFSET `); where none matches, it advances by one byte and tries
//! again, so stray bytes between commands are tolerated silently and no
//! input is ever an error. Coordinates are one to four decimal digits (a
//! fifth digit byte is not part of the number and is left for the next
//! match attempt); colors are six or eight bytes decoded as case-insensitive
//! hexadecimal, where a non-hex byte counts as zero and the last two bytes
//! of the eight-byte form are an alpha value that is dropped.
//!
//! The scan assumes the caller keeps a lookahead margin of
//! [`PARSER_LOOKAHEAD`] bytes behind any position where a command may start,
//! so a match never probes past the buffer: positions closer than the margin
//! to the end are left for the next scan, once more data has arrived.

use vstd::prelude::*;

verus! {

/// Length in bytes of the longest possible single command,
/// `PX 1234 1234 rrggbbaa` followed by a newline.
pub const PARSER_LOOKAHEAD: usize = 22;

// The ASCII byte values the grammar matches on.
pub const B_NL: u8 = 10; // line feed
pub const B_SP: u8 = 32; // space
pub const B_0: u8 = 48; // '0'
pub const B_9: u8 = 57; // '9'
pub const B_UC_A: u8 = 65; // 'A'
pub const B_UC_E: u8 = 69; // 'E'
pub const B_UC_F: u8 = 70; // 'F'
pub const B_UC_H: u8 = 72; // 'H'
pub const B_UC_I: u8 = 73; // 'I'
pub const B_UC_L: u8 = 76; // 'L'
pub const B_UC_O: u8 = 79; // 'O'
pub const B_UC_P: u8 = 80; // 'P'
pub const B_UC_S: u8 = 83; // 'S'
pub const B_UC_T: u8 = 84; // 'T'
pub const B_UC_X: u8 = 88; // 'X'
pub const B_UC_Z: u8 = 90; // 'Z'
pub const B_LC_A: u8 = 97; // 'a'
pub const B_LC_F: u8 = 102; // 'f'

/// Per-connection scanner state carried between scan passes: the draw
/// offset added to all parsed pixel coordinates until changed, and the
/// position of the final byte of the last fully recognized command of the
/// most recent pass.
#[derive(Clone, Copy, PartialEq, Eq, Structural, Debug)]
pub struct ParserState {
    pub connection_x_offset: usize,
    pub connection_y_offset: usize,
    pub last_byte_parsed: usize,
}

impl Default for ParserState {
    /// A fresh connection: no offset, nothing parsed yet.
    fn default() -> (r: Self)
        ensures
            r == (ParserState {
                connection_x_offset: 0usize,
                connection_y_offset: 0usize,
                last_byte_parsed: 0usize,
            }),
    {
        ParserState { connection_x_offset: 0, connection_y_offset: 0, last_byte_parsed: 0 }
    }
}

/// One recognized command, the transient result of a scan. Pixel
/// coordinates are relative: the session offset is added only when the
/// command is carried out.
#[derive(Clone, Copy, PartialEq, Eq, Structural, Debug)]
pub enum Command {
    Help,
    Size,
    PixelGet { x: usize, y: usize },
    PixelSet { c: u32, x: usize, y: usize },
    Offset { x: usize, y: usize },
}

/// The states a scan moves through for one command: selecting a command by
/// its literal prefix, then reading its coordinate and color bytes.
#[derive(Clone, Copy, PartialEq, Eq, Structural, Debug)]
pub enum CommandParseState {
    PreCheck,
    Bytes,
    Pixel,
    Offset,
}

impl Default for CommandParseState {
    fn default() -> (r: Self)
        ensures
            r == CommandParseState::PreCheck,
    {
        CommandParseState::PreCheck
    }
}

/// The ways a scan could be refused. A scan of a buffer never fails — all
/// malformed input degrades to advancing byte by byte — so these name the
/// refusals a caller may want to report, not outcomes of this library.
#[derive(Clone, Copy, PartialEq, Eq, Structural, Debug)]
pub enum CommandParseError {
    BufTooShort,
    UnknownCommand,
    InvalidCommandEnd,
}

impl CommandParseError {
    /// A human-readable description of the refusal.
    pub fn message(&self) -> (r: &'static str)
        ensures
            self is BufTooShort ==> r@ == "buffer too short"@,
            self is UnknownCommand ==> r@ == "unknown/unsupported command"@,
            self is InvalidCommandEnd ==> r@ == "invalid command end (missing newline)"@,
    {
        match self {
            CommandParseError::BufTooShort => "buffer too short",
            CommandParseError::UnknownCommand => "unknown/unsupported command",
            CommandParseError::InvalidCommandEnd => "invalid command end (missing newline)",
        }
    }
}

/// Value of an ASCII byte read as a hexadecimal digit; a byte that is no
/// hex digit counts as zero, never as an error.
pub open spec fn hex_char_value(c: u8) -> u8 {
    if B_0 <= c && c <= B_9 {
        (c - B_0) as u8
    } else if B_LC_A <= c && c <= B_LC_F {
        (c - B_LC_A + 10) as u8
    } else if B_UC_A <= c && c <= B_UC_F {
        (c - B_UC_A + 10) as u8
    } else {
        0u8
    }
}

/// Hexadecimal digit value of an ASCII byte, by explicit range matching.
pub fn from_hex_char_map(c: u8) -> (r: u8)
    ensures
        r == hex_char_value(c),
{
    if B_0 <= c && c <= B_9 {
        c - B_0
    } else if B_LC_A <= c && c <= B_LC_F {
        c - B_LC_A + 10
    } else if B_UC_A <= c && c <= B_UC_F {
        c - B_UC_A + 10
    } else {
        0
    }
}

/// Hexadecimal digit value of an ASCII byte; the variant used on the
/// scanning path, with the same value on every byte as
/// [`from_hex_char_map`].
pub fn from_hex_char_lookup(c: u8) -> (r: u8)
    ensures
        r == hex_char_value(c),
{
    if c < B_0 {
        0
    } else if c <= B_9 {
        c - B_0
    } else if B_LC_A <= c && c <= B_LC_F {
        c - B_LC_A + 10
    } else if B_UC_A <= c && c <= B_UC_F {
        c - B_UC_A + 10
    } else {
        0
    }
}

/// A sequence of `n` zero bytes: what the lookahead margin holds after
/// the session clears it.
pub open spec fn zero_seq(n: nat) -> Seq<u8> {
    Seq::new(n, |i: int| 0u8)
}

/// A byte that is a hexadecimal digit.
pub open spec fn is_hex_digit(c: u8) -> bool {
    (B_0 <= c && c <= B_9) || (B_LC_A <= c && c <= B_LC_F) || (B_UC_A <= c && c <= B_UC_F)
}

/// There is an ASCII decimal digit at position `j`.
pub open spec fn digit_at(buf: Seq<u8>, j: int) -> bool {
    0 <= j < buf.len() && B_0 <= buf[j] && buf[j] <= B_9
}

/// How many of a coordinate's digits start at position `i`: the length of
/// the digit run, capped at the four digits a coordinate may have.
pub open spec fn digit_count(buf: Seq<u8>, i: int) -> int {
    if !digit_at(buf, i) {
        0
    } else if !digit_at(buf, i + 1) {
        1
    } else if !digit_at(buf, i + 2) {
        2
    } else if !digit_at(buf, i + 3) {
        3
    } else {
        4
    }
}

/// Value of the `n` decimal digits starting at position `i`,
/// most-significant digit first.
pub open spec fn number_at(buf: Seq<u8>, i: int, n: int) -> int
    decreases n,
{
    if n <= 0 {
        0
    } else {
        number_at(buf, i, n - 1) * 10 + (buf[i + n - 1] - B_0)
    }
}

/// A coordinate of at most four digits stays below ten thousand: `n`
/// digits reach at most the `n`-digit maximum.
pub proof fn lemma_number_at_bound(buf: Seq<u8>, i: int, n: int)
    requires
        0 <= n <= 4,
        forall|j: int| i <= j < i + n ==> digit_at(buf, j),
    ensures
        0 <= number_at(buf, i, n) <= 9999,
        number_at(buf, i, n) <= if n == 0 {
            0int
        } else if n == 1 {
            9int
        } else if n == 2 {
            99int
        } else if n == 3 {
            999int
        } else {
            9999int
        },
    decreases n,
{
    if n > 0 {
        lemma_number_at_bound(buf, i, n - 1);
        assert(digit_at(buf, i + n - 1));
    }
}

/// The 24-bit color value of the six hexadecimal bytes starting at `i`,
/// two digits each of red, green and blue, stored with blue in the
/// high-order and red in the low-order of its three bytes.
pub open spec fn color_at(buf: Seq<u8>, i: int) -> u32 {
    (hex_char_value(buf[i + 4]) * 0x100000 + hex_char_value(buf[i + 5]) * 0x10000
        + hex_char_value(buf[i + 2]) * 0x1000 + hex_char_value(buf[i + 3]) * 0x100
        + hex_char_value(buf[i]) * 0x10 + hex_char_value(buf[i + 1])) as u32
}

/// One successful command match: the command, the position of its final
/// byte (`last`), and the position scanning resumes at (`next`).
pub struct CommandMatch {
    pub command: Command,
    pub last: int,
    pub next: int,
}

/// Match of the pixel command grammar at position `i`: `PX x y` followed by
/// a newline reads a pixel; followed by a space and six or eight color
/// bytes and a newline, sets one. Anything else is no match.
pub open spec fn match_px_at(buf: Seq<u8>, i: int) -> Option<CommandMatch> {
    if buf[i] == B_UC_P && buf[i + 1] == B_UC_X && buf[i + 2] == B_SP {
        let nx = digit_count(buf, i + 3);
        let x = number_at(buf, i + 3, nx);
        let j = i + 3 + nx;
        if nx == 0 || buf[j] != B_SP {
            None
        } else {
            let ny = digit_count(buf, j + 1);
            let y = number_at(buf, j + 1, ny);
            let k = j + 1 + ny;
            if ny == 0 {
                None
            } else if buf[k] == B_NL {
                Some(
                    CommandMatch {
                        command: Command::PixelGet { x: x as usize, y: y as usize },
                        last: k,
                        next: k + 1,
                    },
                )
            } else if buf[k] == B_SP {
                if buf[k + 7] == B_NL {
                    Some(
                        CommandMatch {
                            command: Command::PixelSet {
                                c: color_at(buf, k + 1),
                                x: x as usize,
                                y: y as usize,
                            },
                            last: k + 7,
                            next: k + 8,
                        },
                    )
                } else if buf[k + 9] == B_NL {
                    Some(
                        CommandMatch {
                            command: Command::PixelSet {
                                c: color_at(buf, k + 1),
                                x: x as usize,
                                y: y as usize,
                            },
                            last: k + 9,
                            next: k + 10,
                        },
                    )
                } else {
                    None
                }
            } else {
                None
            }
        }
    } else {
        None
    }
}

/// Match of the offset command grammar at position `i`: `OFFSET x y` and a
/// newline.
pub open spec fn match_offset_at(buf: Seq<u8>, i: int) -> Option<CommandMatch> {
    if buf[i] == B_UC_O && buf[i + 1] == B_UC_F && buf[i + 2] == B_UC_F && buf[i + 3] == B_UC_S && buf[i
        + 4] == B_UC_E && buf[i + 5] == B_UC_T && buf[i + 6] == B_SP {
        let nx = digit_count(buf, i + 7);
        let x = number_at(buf, i + 7, nx);
        let j = i + 7 + nx;
        if nx == 0 || buf[j] != B_SP {
            None
        } else {
            let ny = digit_count(buf, j + 1);
            let y = number_at(buf, j + 1, ny);
            let k = j + 1 + ny;
            if ny == 0 || buf[k] != B_NL {
                None
            } else {
                Some(
                    CommandMatch {
                        command: Command::Offset { x: x as usize, y: y as usize },
                        last: k,
                        next: k + 1,
                    },
                )
            }
        }
    } else {
        None
    }
}

/// Match of any command at position `i`, by its literal prefix: `PX `, the
/// bare keywords `SIZE` and `HELP`, or `OFFSET `.
pub open spec fn match_at(buf: Seq<u8>, i: int) -> Option<CommandMatch> {
    if buf[i] == B_UC_P {
        match_px_at(buf, i)
    } else if buf[i] == B_UC_S {
        if buf[i + 1] == B_UC_I && buf[i + 2] == B_UC_Z && buf[i + 3] == B_UC_E {
            Some(CommandMatch { command: Command::Size, last: i + 3, next: i + 4 })
        } else {
            None
        }
    } else if buf[i] == B_UC_H {
        if buf[i + 1] == B_UC_E && buf[i + 2] == B_UC_L && buf[i + 3] == B_UC_P {
            Some(CommandMatch { command: Command::Help, last: i + 3, next: i + 4 })
        } else {
            None
        }
    } else if buf[i] == B_UC_O {
        match_offset_at(buf, i)
    } else {
        None
    }
}

/// A successful match starts at its own position, consumes at least four
/// bytes and stays within the lookahead margin; its final byte is never a
/// zero byte.
pub proof fn lemma_match_at_shape(buf: Seq<u8>, i: int)
    requires
        match_at(buf, i) is Some,
    ensures
        ({
            let m = match_at(buf, i).unwrap();
            &&& i + 4 <= m.next <= i + PARSER_LOOKAHEAD
            &&& i <= m.last == m.next - 1
            &&& 0 <= m.last < buf.len() ==> buf[m.last] != 0
        }),
{
    let m = match_at(buf, i).unwrap();
    if buf[i] == B_UC_P {
        let nx = digit_count(buf, i + 3);
        let j = i + 3 + nx;
        let ny = digit_count(buf, j + 1);
        let k = j + 1 + ny;
        assert(1 <= nx <= 4 && 1 <= ny <= 4);
    } else if buf[i] == B_UC_O {
        let nx = digit_count(buf, i + 7);
        let j = i + 7 + nx;
        let ny = digit_count(buf, j + 1);
        assert(1 <= nx <= 4 && 1 <= ny <= 4);
    }
}

/// Result of a scan: every command recognized, in buffer order, and the
/// position of the final byte of the last one (zero where none was found,
/// a position no command can end at).
pub struct ScanResult {
    pub commands: Seq<Command>,
    pub last: int,
}

/// The scan from position `i` with `last` the final byte position of the
/// last command already recognized: positions are tried in order; a match
/// contributes its command and scanning resumes behind it; anything else
/// advances one byte. Scanning stops where the lookahead margin would be
/// overrun.
pub open spec fn scan_from(buf: Seq<u8>, i: int, last: int) -> ScanResult
    decreases buf.len() - i,
{
    if i + PARSER_LOOKAHEAD as int >= buf.len() {
        ScanResult { commands: Seq::empty(), last }
    } else {
        match match_at(buf, i) {
            Some(m) => {
                let j = if m.next <= i { i + 1 } else {
                    m.next
                };
                let rest = scan_from(buf, j, m.last);
                ScanResult { commands: seq![m.command] + rest.commands, last: rest.last }
            },
            None => scan_from(buf, i + 1, last),
        }
    }
}

/// The scan of a whole buffer.
pub open spec fn scan(buf: Seq<u8>) -> ScanResult {
    scan_from(buf, 0, 0)
}

/// Two buffers that agree on a byte range parse the same number there.
pub proof fn lemma_number_at_equal(a: Seq<u8>, b: Seq<u8>, x: int, n: int)
    requires
        forall|p: int| x <= p < x + n ==> a[p] == b[p],
    ensures
        number_at(a, x, n) == number_at(b, x, n),
    decreases n,
{
    if n > 0 {
        lemma_number_at_equal(a, b, x, n - 1);
    }
}

/// Two buffers that agree on a byte range, possibly at different
/// positions, parse the same number there.
pub proof fn lemma_number_at_shift(a: Seq<u8>, b: Seq<u8>, x: int, x2: int, n: int)
    requires
        forall|p: int| x <= p < x + n ==> #[trigger] a[p] == b[p - x + x2],
    ensures
        number_at(a, x, n) == number_at(b, x2, n),
    decreases n,
{
    if n > 0 {
        lemma_number_at_shift(a, b, x, x2, n - 1);
    }
}

/// A match rests only on the lookahead window behind its position: two
/// positions with equal windows match the same command, with the match
/// positions moved along.
#[verifier::rlimit(100)]
#[verifier::spinoff_prover]
pub proof fn lemma_match_at_window(a: Seq<u8>, b: Seq<u8>, i: int, i2: int)
    requires
        0 <= i,
        i + PARSER_LOOKAHEAD < a.len(),
        0 <= i2,
        i2 + PARSER_LOOKAHEAD < b.len(),
        forall|p: int| i <= p <= i + PARSER_LOOKAHEAD ==> #[trigger] a[p] == b[p - i + i2],
        match_at(a, i) is Some,
    ensures
        ({
            let ma = match_at(a, i).unwrap();
            match_at(b, i2) == Some(
                CommandMatch { command: ma.command, last: ma.last - i + i2, next: ma.next - i + i2 },
            )
        }),
{
    if a[i] == B_UC_P {
        let nx = digit_count(a, i + 3);
        let j = i + 3 + nx;
        assert(a[j] == B_SP && 1 <= nx <= 4);
        assert(digit_count(b, i2 + 3) == nx);
        lemma_number_at_shift(a, b, i + 3, i2 + 3, nx);
        let ny = digit_count(a, j + 1);
        let k = j + 1 + ny;
        assert(1 <= ny <= 4);
        assert(digit_count(b, i2 + 3 + nx + 1) == ny);
        lemma_number_at_shift(a, b, j + 1, i2 + (j + 1 - i), ny);
        if a[k] == B_NL {
        } else {
            assert(a[k] == B_SP);
            if a[k + 7] == B_NL {
                assert(color_at(b, i2 + (k + 1 - i)) == color_at(a, k + 1));
            } else {
                assert(a[k + 9] == B_NL);
                assert(b[i2 + (k + 7 - i)] == a[k + 7]);
                assert(color_at(b, i2 + (k + 1 - i)) == color_at(a, k + 1));
            }
        }
    } else if a[i] == B_UC_S || a[i] == B_UC_H {
    } else {
        assert(a[i] == B_UC_O);
        let nx = digit_count(a, i + 7);
        let j = i + 7 + nx;
        assert(a[j] == B_SP && 1 <= nx <= 4);
        assert(digit_count(b, i2 + 7) == nx);
        lemma_number_at_shift(a, b, i + 7, i2 + 7, nx);
        let ny = digit_count(a, j + 1);
        let k = j + 1 + ny;
        assert(1 <= ny <= 4 && a[k] == B_NL);
        assert(digit_count(b, i2 + (j + 1 - i)) == ny);
        lemma_number_at_shift(a, b, j + 1, i2 + (j + 1 - i), ny);
    }
}

/// A command matched in a zero-padded prefix is the same match in any
/// buffer that carries the real bytes on: every byte the match rests on is
/// a real byte of the prefix. `t` agrees with `full` below `d` and holds
/// only zeros from `d` on.
pub proof fn lemma_match_truncation(t: Seq<u8>, full: Seq<u8>, d: int, i: int)
    requires
        0 <= i,
        i + PARSER_LOOKAHEAD < t.len(),
        t.len() <= full.len(),
        forall|j: int| 0 <= j < d ==> t[j] == full[j],
        forall|j: int| d <= j < t.len() ==> t[j] == 0,
        match_at(t, i) is Some,
    ensures
        match_at(full, i) == match_at(t, i),
        match_at(t, i).unwrap().last < d,
{
    lemma_match_at_shape(t, i);
    assert(i < d) by {
        assert(t[i] != 0);
    }
    if t[i] == B_UC_P {
        assert(i + 1 < d && i + 2 < d) by {
            assert(t[i + 1] != 0 && t[i + 2] != 0);
        }
        let nx = digit_count(t, i + 3);
        let j = i + 3 + nx;
        assert(t[j] == B_SP && nx >= 1);
        assert(j < d);
        assert(digit_count(full, i + 3) == nx);
        lemma_number_at_equal(t, full, i + 3, nx);
        let ny = digit_count(t, j + 1);
        let k = j + 1 + ny;
        assert(ny >= 1);
        if t[k] == B_NL {
            assert(k < d);
            assert(digit_count(full, j + 1) == ny);
            lemma_number_at_equal(t, full, j + 1, ny);
        } else {
            assert(t[k] == B_SP);
            assert(k < d);
            assert(digit_count(full, j + 1) == ny);
            lemma_number_at_equal(t, full, j + 1, ny);
            if t[k + 7] == B_NL {
                assert(k + 7 < d);
                assert(color_at(full, k + 1) == color_at(t, k + 1));
            } else {
                assert(t[k + 9] == B_NL);
                assert(k + 9 < d);
                assert(full[k + 7] == t[k + 7] && full[k + 8] == t[k + 8]);
                assert(color_at(full, k + 1) == color_at(t, k + 1));
            }
        }
    } else if t[i] == B_UC_S || t[i] == B_UC_H {
        assert(i + 3 < d) by {
            assert(t[i + 1] != 0 && t[i + 2] != 0 && t[i + 3] != 0);
        }
    } else {
        assert(t[i] == B_UC_O);
        assert(i + 6 < d) by {
            assert(t[i + 1] != 0 && t[i + 2] != 0 && t[i + 3] != 0 && t[i + 4] != 0 && t[i + 5]
                != 0 && t[i + 6] != 0);
        }
        let nx = digit_count(t, i + 7);
        let j = i + 7 + nx;
        assert(t[j] == B_SP && nx >= 1);
        assert(j < d);
        assert(digit_count(full, i + 7) == nx);
        lemma_number_at_equal(t, full, i + 7, nx);
        let ny = digit_count(t, j + 1);
        let k = j + 1 + ny;
        assert(ny >= 1 && t[k] == B_NL);
        assert(k < d);
        assert(digit_count(full, j + 1) == ny);
        lemma_number_at_equal(t, full, j + 1, ny);
    }
}

/// A buffer in which no position matches scans to nothing: the command
/// list stays empty and the carried-in `last` survives.
pub proof fn lemma_scan_empty(buf: Seq<u8>, i: int, last: int)
    requires
        0 <= i,
        forall|j: int|
            i <= j && j + PARSER_LOOKAHEAD < buf.len() ==> match_at(buf, j) is None,
    ensures
        scan_from(buf, i, last) == (ScanResult { commands: Seq::<Command>::empty(), last }),
    decreases buf.len() - i,
{
    if i + PARSER_LOOKAHEAD as int >= buf.len() {
    } else {
        lemma_scan_empty(buf, i + 1, last);
    }
}

/// A scan either keeps the carried-in `last` or points it at the final
/// byte of a matched command, which is never a zero byte. So in a buffer
/// whose tail holds only zeros, the last fully recognized command ends
/// before that tail.
pub proof fn lemma_scan_last_zero_free(buf: Seq<u8>, i: int, last: int)
    requires
        0 <= i,
    ensures
        scan_from(buf, i, last).last == last || (0 <= scan_from(buf, i, last).last < buf.len()
            && buf[scan_from(buf, i, last).last] != 0),
    decreases buf.len() - i,
{
    if i + PARSER_LOOKAHEAD as int >= buf.len() {
    } else {
        match match_at(buf, i) {
            Some(m) => {
                lemma_match_at_shape(buf, i);
                let j = if m.next <= i { i + 1 } else { m.next };
                lemma_scan_last_zero_free(buf, j, m.last);
            },
            None => {
                lemma_scan_last_zero_free(buf, i + 1, last);
            },
        }
    }
}

/// The shared coordinate reader: takes up to four decimal digits starting
/// at `i`, most-significant first, stopping at the first non-digit, and
/// hands back the value and the position behind the digits.
fn read_coordinate(buffer: &[u8], i: usize) -> (r: (usize, usize))
    requires
        i + 4 <= buffer@.len(),
    ensures
        r.1 as int == i + digit_count(buffer@, i as int),
        r.0 as int == number_at(buffer@, i as int, digit_count(buffer@, i as int)),
        r.0 <= 9999,
{
    proof {
        reveal_with_fuel(number_at, 5);
    }
    let mut value: usize = 0;
    let mut j: usize = i;
    if buffer[j] >= B_0 && buffer[j] <= B_9 {
        value = (buffer[j] - B_0) as usize;
        j = j + 1;
        if buffer[j] >= B_0 && buffer[j] <= B_9 {
            value = 10 * value + (buffer[j] - B_0) as usize;
            j = j + 1;
            if buffer[j] >= B_0 && buffer[j] <= B_9 {
                value = 10 * value + (buffer[j] - B_0) as usize;
                j = j + 1;
                if buffer[j] >= B_0 && buffer[j] <= B_9 {
                    value = 10 * value + (buffer[j] - B_0) as usize;
                    j = j + 1;
                }
            }
        }
    }
    (value, j)
}

/// Decodes the six color bytes starting at `p` through the hexadecimal
/// lookup, blue pair highest, red pair lowest.
fn decode_color(buffer: &[u8], p: usize) -> (c: u32)
    requires
        p + 6 <= buffer@.len(),
    ensures
        c == color_at(buffer@, p as int),
{
    let b0 = from_hex_char_lookup(buffer[p]) as u32;
    let b1 = from_hex_char_lookup(buffer[p + 1]) as u32;
    let b2 = from_hex_char_lookup(buffer[p + 2]) as u32;
    let b3 = from_hex_char_lookup(buffer[p + 3]) as u32;
    let b4 = from_hex_char_lookup(buffer[p + 4]) as u32;
    let b5 = from_hex_char_lookup(buffer[p + 5]) as u32;
    b4 * 0x100000 + b5 * 0x10000 + b2 * 0x1000 + b3 * 0x100 + b0 * 0x10 + b1
}

/// One match attempt at position `i`, the executable counterpart of
/// [`match_at`]: the command with the position of its final byte and the
/// position scanning resumes at, or `None`.
fn try_match_at(buffer: &[u8], i: usize) -> (r: Option<(Command, usize, usize)>)
    requires
        i + PARSER_LOOKAHEAD < buffer@.len(),
    ensures
        ({
            let m = match_at(buffer@, i as int);
            match r {
                Some(t) => m == Some(
                    CommandMatch { command: t.0, last: t.1 as int, next: t.2 as int },
                ),
                None => m is None,
            }
        }),
{
    let c0 = buffer[i];
    if c0 == B_UC_P {
        if buffer[i + 1] == B_UC_X && buffer[i + 2] == B_SP {
            let (x, j) = read_coordinate(buffer, i + 3);
            if j > i + 3 && buffer[j] == B_SP {
                let (y, k) = read_coordinate(buffer, j + 1);
                if k > j + 1 {
                    if buffer[k] == B_NL {
                        return Some((Command::PixelGet { x, y }, k, k + 1));
                    }
                    if buffer[k] == B_SP {
                        if buffer[k + 7] == B_NL {
                            let c = decode_color(buffer, k + 1);
                            return Some((Command::PixelSet { c, x, y }, k + 7, k + 8));
                        }
                        if buffer[k + 9] == B_NL {
                            let c = decode_color(buffer, k + 1);
                            return Some((Command::PixelSet { c, x, y }, k + 9, k + 10));
                        }
                    }
                }
            }
        }
        None
    } else if c0 == B_UC_S {
        if buffer[i + 1] == B_UC_I && buffer[i + 2] == B_UC_Z && buffer[i + 3] == B_UC_E {
            Some((Command::Size, i + 3, i + 4))
        } else {
            None
        }
    } else if c0 == B_UC_H {
        if buffer[i + 1] == B_UC_E && buffer[i + 2] == B_UC_L && buffer[i + 3] == B_UC_P {
            Some((Command::Help, i + 3, i + 4))
        } else {
            None
        }
    } else if c0 == B_UC_O {
        if buffer[i + 1] == B_UC_F && buffer[i + 2] == B_UC_F && buffer[i + 3] == B_UC_S && buffer[i
            + 4] == B_UC_E && buffer[i + 5] == B_UC_T && buffer[i + 6] == B_SP {
            let (x, j) = read_coordinate(buffer, i + 7);
            if j > i + 7 && buffer[j] == B_SP {
                let (y, k) = read_coordinate(buffer, j + 1);
                if k > j + 1 && buffer[k] == B_NL {
                    return Some((Command::Offset { x, y }, k, k + 1));
                }
            }
        }
        None
    } else {
        None
    }
}

/// Scans the whole buffer and hands back every recognized command, in
/// order, together with the position of the final byte of the last fully
/// recognized command (zero where there was none). The scan never fails:
/// every buffer is `Ok`.
pub fn parse_command(buffer: &[u8]) -> (r: Result<(Vec<Command>, usize), CommandParseError>)
    ensures
        r is Ok,
        (r matches Ok(t) ==> t.0@ == scan(buffer@).commands && t.1 as int == scan(buffer@).last),
{
    let mut commands: Vec<Command> = Vec::new();
    let mut last: usize = 0;
    let mut i: usize = 0;
    let len = buffer.len();
    while i < len && len - i > PARSER_LOOKAHEAD
        invariant
            len == buffer@.len(),
            scan(buffer@).commands == commands@ + scan_from(
                buffer@,
                i as int,
                last as int,
            ).commands,
            scan(buffer@).last == scan_from(buffer@, i as int, last as int).last,
        decreases buffer@.len() - i,
    {
        match try_match_at(buffer, i) {
            Some((c, l, n)) => {
                proof {
                    lemma_match_at_shape(buffer@, i as int);
                    assert(scan(buffer@).commands =~= commands@.push(c) + scan_from(
                        buffer@,
                        n as int,
                        l as int,
                    ).commands);
                }
                commands.push(c);
                last = l;
                i = n;
            },
            None => {
                i = i + 1;
            },
        }
    }
    proof {
        assert(scan(buffer@).commands =~= commands@);
    }
    Ok((commands, last))
}

/// Every byte is a decimal digit.
pub open spec fn all_dec_digits(d: Seq<u8>) -> bool {
    forall|i: int| 0 <= i < d.len() ==> B_0 <= #[trigger] d[i] && d[i] <= B_9
}

/// Every byte is a hexadecimal digit.
pub open spec fn all_hex_digits(d: Seq<u8>) -> bool {
    forall|i: int| 0 <= i < d.len() ==> is_hex_digit(#[trigger] d[i])
}

/// A position whose byte starts no command prefix matches nothing.
proof fn lemma_no_dispatch_no_match(buf: Seq<u8>, p: int)
    requires
        buf[p] != B_UC_P,
        buf[p] != B_UC_S,
        buf[p] != B_UC_H,
        buf[p] != B_UC_O,
    ensures
        match_at(buf, p) is None,
{
}

/// A `P` not followed by `X` matches nothing.
proof fn lemma_p_without_x_no_match(buf: Seq<u8>, p: int)
    requires
        buf[p] == B_UC_P,
        buf[p + 1] != B_UC_X,
    ensures
        match_at(buf, p) is None,
{
}

/// An `S` not followed by `I` matches nothing.
proof fn lemma_s_without_i_no_match(buf: Seq<u8>, p: int)
    requires
        buf[p] == B_UC_S,
        buf[p + 1] != B_UC_I,
    ensures
        match_at(buf, p) is None,
{
}

/// The bytes of a pixel write command: `PX `, the coordinate digits, the
/// color digits, and a newline.
pub open spec fn px_set_bytes(xd: Seq<u8>, yd: Seq<u8>, cd: Seq<u8>) -> Seq<u8> {
    seq![B_UC_P, B_UC_X, B_SP] + xd + seq![B_SP] + yd + seq![B_SP] + cd + seq![B_NL]
}

/// The bytes of a pixel read command: `PX `, the coordinate digits, and a
/// newline.
pub open spec fn px_get_bytes(xd: Seq<u8>, yd: Seq<u8>) -> Seq<u8> {
    seq![B_UC_P, B_UC_X, B_SP] + xd + seq![B_SP] + yd + seq![B_NL]
}

/// A pixel write whose coordinates are genuine decimal digits and whose
/// color is genuine hexadecimal holds exactly one command: it is matched
/// at its first byte, consumes every byte, and no interior byte starts
/// another command. (A non-hex color byte could spell a command keyword
/// and void the last part; the grammar itself would accept it.)
#[verifier::rlimit(100)]
#[verifier::spinoff_prover]
pub proof fn lemma_px_set_bytes_one_command(xd: Seq<u8>, yd: Seq<u8>, cd: Seq<u8>)
    requires
        1 <= xd.len() <= 4,
        1 <= yd.len() <= 4,
        cd.len() == 6 || cd.len() == 8,
        all_dec_digits(xd),
        all_dec_digits(yd),
        all_hex_digits(cd),
    ensures
        ({
            let s = px_set_bytes(xd, yd, cd);
            let full = s + zero_seq(PARSER_LOOKAHEAD as nat);
            &&& 0 < s.len() <= PARSER_LOOKAHEAD
            &&& match_at(full, 0) is Some
            &&& match_at(full, 0).unwrap().next == s.len()
            &&& match_at(full, 0).unwrap().command == (Command::PixelSet {
                c: color_at(full, 5 + xd.len() as int + yd.len() as int),
                x: number_at(full, 3, xd.len() as int) as usize,
                y: number_at(full, 4 + xd.len() as int, yd.len() as int) as usize,
            })
            &&& forall|p: int| 0 < p < s.len() ==> match_at(full, p) is None
        }),
{
    let s = px_set_bytes(xd, yd, cd);
    let full = s + zero_seq(PARSER_LOOKAHEAD as nat);
    let nx = xd.len() as int;
    let ny = yd.len() as int;
    let j = 3 + nx;
    let k = j + 1 + ny;
    assert(s.len() == k + 2 + cd.len());
    assert(full[0] == B_UC_P && full[1] == B_UC_X && full[2] == B_SP);
    assert(forall|p: int| 3 <= p < j ==> full[p] == xd[p - 3]);
    assert(full[j] == B_SP);
    assert(forall|p: int| j + 1 <= p < k ==> full[p] == yd[p - (j + 1)]);
    assert(full[k] == B_SP);
    assert(forall|p: int| k + 1 <= p < k + 1 + cd.len() ==> full[p] == cd[p - (k + 1)]);
    assert(full[s.len() - 1] == B_NL);
    assert(digit_count(full, 3) == nx);
    assert(digit_count(full, j + 1) == ny);
    lemma_match_at_shape(full, 0);
    assert forall|p: int| 0 < p < s.len() implies match_at(full, p) is None by {
        if p == 1 {
            assert(full[p] == B_UC_X);
        } else if p == 2 || p == j || p == k {
            assert(full[p] == B_SP);
        } else if p < j {
            assert(full[p] == xd[p - 3] && B_0 <= full[p] && full[p] <= B_9);
        } else if p < k {
            assert(full[p] == yd[p - (j + 1)] && B_0 <= full[p] && full[p] <= B_9);
        } else if p < s.len() - 1 {
            assert(full[p] == cd[p - (k + 1)] && is_hex_digit(full[p]));
        } else {
            assert(full[p] == B_NL);
        }
        lemma_no_dispatch_no_match(full, p);
    }
}

/// A pixel read whose coordinates are genuine decimal digits holds
/// exactly one command, matched at its first byte and consuming every
/// byte, with no interior byte starting another command.
#[verifier::rlimit(100)]
#[verifier::spinoff_prover]
pub proof fn lemma_px_get_bytes_one_command(xd: Seq<u8>, yd: Seq<u8>)
    requires
        1 <= xd.len() <= 4,
        1 <= yd.len() <= 4,
        all_dec_digits(xd),
        all_dec_digits(yd),
    ensures
        ({
            let s = px_get_bytes(xd, yd);
            let full = s + zero_seq(PARSER_LOOKAHEAD as nat);
            &&& 0 < s.len() <= PARSER_LOOKAHEAD
            &&& match_at(full, 0) is Some
            &&& match_at(full, 0).unwrap().next == s.len()
            &&& match_at(full, 0).unwrap().command == (Command::PixelGet {
                x: number_at(full, 3, xd.len() as int) as usize,
                y: number_at(full, 4 + xd.len() as int, yd.len() as int) as usize,
            })
            &&& forall|p: int| 0 < p < s.len() ==> match_at(full, p) is None
        }),
{
    let s = px_get_bytes(xd, yd);
    let full = s + zero_seq(PARSER_LOOKAHEAD as nat);
    let nx = xd.len() as int;
    let ny = yd.len() as int;
    let j = 3 + nx;
    let k = j + 1 + ny;
    assert(s.len() == k + 1);
    assert(full[0] == B_UC_P && full[1] == B_UC_X && full[2] == B_SP);
    assert(forall|p: int| 3 <= p < j ==> full[p] == xd[p - 3]);
    assert(full[j] == B_SP);
    assert(forall|p: int| j + 1 <= p < k ==> full[p] == yd[p - (j + 1)]);
    assert(full[k] == B_NL);
    assert(digit_count(full, 3) == nx);
    assert(digit_count(full, j + 1) == ny);
    assert forall|p: int| 0 < p < s.len() implies match_at(full, p) is None by {
        if p == 1 {
            assert(full[p] == B_UC_X);
        } else if p == 2 || p == j {
            assert(full[p] == B_SP);
        } else if p < j {
            assert(full[p] == xd[p - 3] && B_0 <= full[p] && full[p] <= B_9);
        } else if p < k {
            assert(full[p] == yd[p - (j + 1)] && B_0 <= full[p] && full[p] <= B_9);
        } else {
            assert(full[p] == B_NL);
        }
        lemma_no_dispatch_no_match(full, p);
    }
}

/// The bytes of the size command keyword.
pub open spec fn size_bytes() -> Seq<u8> {
    seq![B_UC_S, B_UC_I, B_UC_Z, B_UC_E]
}

/// The bytes of the help command keyword.
pub open spec fn help_bytes() -> Seq<u8> {
    seq![B_UC_H, B_UC_E, B_UC_L, B_UC_P]
}

/// The bytes of an offset command: `OFFSET `, the coordinate digits, and
/// a newline.
pub open spec fn offset_bytes(xd: Seq<u8>, yd: Seq<u8>) -> Seq<u8> {
    seq![B_UC_O, B_UC_F, B_UC_F, B_UC_S, B_UC_E, B_UC_T, B_SP] + xd + seq![B_SP] + yd
        + seq![B_NL]
}

/// The size keyword alone holds exactly one command.
pub proof fn lemma_size_bytes_one_command()
    ensures
        ({
            let s = size_bytes();
            let full = s + zero_seq(PARSER_LOOKAHEAD as nat);
            &&& 0 < s.len() <= PARSER_LOOKAHEAD
            &&& match_at(full, 0) is Some
            &&& match_at(full, 0).unwrap().next == s.len()
            &&& match_at(full, 0).unwrap().command == Command::Size
            &&& forall|p: int| 0 < p < s.len() ==> match_at(full, p) is None
        }),
{
    let s = size_bytes();
    let full = s + zero_seq(PARSER_LOOKAHEAD as nat);
    assert(full[0] == B_UC_S && full[1] == B_UC_I && full[2] == B_UC_Z && full[3] == B_UC_E);
    assert forall|p: int| 0 < p < s.len() implies match_at(full, p) is None by {
        assert(full[p] != B_UC_P && full[p] != B_UC_S && full[p] != B_UC_H && full[p] != B_UC_O);
        lemma_no_dispatch_no_match(full, p);
    }
}

/// The help keyword alone holds exactly one command: its final `P` starts
/// none, since no `X ` can follow it inside the keyword.
pub proof fn lemma_help_bytes_one_command()
    ensures
        ({
            let s = help_bytes();
            let full = s + zero_seq(PARSER_LOOKAHEAD as nat);
            &&& 0 < s.len() <= PARSER_LOOKAHEAD
            &&& match_at(full, 0) is Some
            &&& match_at(full, 0).unwrap().next == s.len()
            &&& match_at(full, 0).unwrap().command == Command::Help
            &&& forall|p: int| 0 < p < s.len() ==> match_at(full, p) is None
        }),
{
    let s = help_bytes();
    let full = s + zero_seq(PARSER_LOOKAHEAD as nat);
    assert(full[0] == B_UC_H && full[1] == B_UC_E && full[2] == B_UC_L && full[3] == B_UC_P);
    assert forall|p: int| 0 < p < s.len() implies match_at(full, p) is None by {
        if p == 3 {
            assert(full[4] == 0);
            lemma_p_without_x_no_match(full, p);
        } else {
            assert(full[p] != B_UC_P && full[p] != B_UC_S && full[p] != B_UC_H && full[p]
                != B_UC_O);
            lemma_no_dispatch_no_match(full, p);
        }
    }
}

/// An offset command with genuine decimal digits holds exactly one
/// command: the `S` inside its keyword starts none, since `IZE` does not
/// follow it.
#[verifier::rlimit(100)]
#[verifier::spinoff_prover]
pub proof fn lemma_offset_bytes_one_command(xd: Seq<u8>, yd: Seq<u8>)
    requires
        1 <= xd.len() <= 4,
        1 <= yd.len() <= 4,
        all_dec_digits(xd),
        all_dec_digits(yd),
    ensures
        ({
            let s = offset_bytes(xd, yd);
            let full = s + zero_seq(PARSER_LOOKAHEAD as nat);
            &&& 0 < s.len() <= PARSER_LOOKAHEAD
            &&& match_at(full, 0) is Some
            &&& match_at(full, 0).unwrap().next == s.len()
            &&& match_at(full, 0).unwrap().command == (Command::Offset {
                x: number_at(full, 7, xd.len() as int) as usize,
                y: number_at(full, 8 + xd.len() as int, yd.len() as int) as usize,
            })
            &&& forall|p: int| 0 < p < s.len() ==> match_at(full, p) is None
        }),
{
    let s = offset_bytes(xd, yd);
    let full = s + zero_seq(PARSER_LOOKAHEAD as nat);
    let nx = xd.len() as int;
    let ny = yd.len() as int;
    let j = 7 + nx;
    let k = j + 1 + ny;
    assert(s.len() == k + 1);
    assert(full[0] == B_UC_O && full[1] == B_UC_F && full[2] == B_UC_F && full[3] == B_UC_S
        && full[4] == B_UC_E && full[5] == B_UC_T && full[6] == B_SP);
    assert(forall|p: int| 7 <= p < j ==> full[p] == xd[p - 7]);
    assert(full[j] == B_SP);
    assert(forall|p: int| j + 1 <= p < k ==> full[p] == yd[p - (j + 1)]);
    assert(full[k] == B_NL);
    assert(digit_count(full, 7) == nx);
    assert(digit_count(full, j + 1) == ny);
    assert forall|p: int| 0 < p < s.len() implies match_at(full, p) is None by {
        if p == 3 {
            assert(full[4] == B_UC_E);
            lemma_s_without_i_no_match(full, p);
        } else {
            if p == 1 || p == 2 {
                assert(full[p] == B_UC_F);
            } else if p == 4 {
                assert(full[p] == B_UC_E);
            } else if p == 5 {
                assert(full[p] == B_UC_T);
            } else if p == 6 || p == j {
                assert(full[p] == B_SP);
            } else if p < j {
                assert(full[p] == xd[p - 7] && B_0 <= full[p] && full[p] <= B_9);
            } else if p < k {
                assert(full[p] == yd[p - (j + 1)] && B_0 <= full[p] && full[p] <= B_9);
            } else {
                assert(full[p] == B_NL);
            }
            lemma_no_dispatch_no_match(full, p);
        }
    }
}

/// The canonical byte forms of the five commands: keyword commands bare,
/// coordinates as one to four genuine decimal digits, colors as six or
/// eight genuine hexadecimal digits.
pub open spec fn is_command_bytes(s: Seq<u8>) -> bool {
    ||| s == size_bytes()
    ||| s == help_bytes()
    ||| (exists|xd: Seq<u8>, yd: Seq<u8>|
        {
            &&& s == px_get_bytes(xd, yd)
            &&& 1 <= xd.len() <= 4
            &&& 1 <= yd.len() <= 4
            &&& all_dec_digits(xd)
            &&& all_dec_digits(yd)
        })
    ||| (exists|xd: Seq<u8>, yd: Seq<u8>, cd: Seq<u8>|
        {
            &&& s == px_set_bytes(xd, yd, cd)
            &&& 1 <= xd.len() <= 4
            &&& 1 <= yd.len() <= 4
            &&& (cd.len() == 6 || cd.len() == 8)
            &&& all_dec_digits(xd)
            &&& all_dec_digits(yd)
            &&& all_hex_digits(cd)
        })
    ||| (exists|xd: Seq<u8>, yd: Seq<u8>|
        {
            &&& s == offset_bytes(xd, yd)
            &&& 1 <= xd.len() <= 4
            &&& 1 <= yd.len() <= 4
            &&& all_dec_digits(xd)
            &&& all_dec_digits(yd)
        })
}

/// Any canonical command's bytes hold exactly one command: matched at the
/// first byte, consuming every byte, with no interior byte starting
/// another.
pub proof fn lemma_command_bytes_one_command(s: Seq<u8>)
    requires
        is_command_bytes(s),
    ensures
        ({
            let full = s + zero_seq(PARSER_LOOKAHEAD as nat);
            &&& 0 < s.len() <= PARSER_LOOKAHEAD
            &&& match_at(full, 0) is Some
            &&& match_at(full, 0).unwrap().next == s.len()
            &&& forall|p: int| 0 < p < s.len() ==> match_at(full, p) is None
        }),
{
    if s == size_bytes() {
        lemma_size_bytes_one_command();
    } else if s == help_bytes() {
        lemma_help_bytes_one_command();
    } else if exists|xd: Seq<u8>, yd: Seq<u8>|
        {
            &&& s == px_get_bytes(xd, yd)
            &&& 1 <= xd.len() <= 4
            &&& 1 <= yd.len() <= 4
            &&& all_dec_digits(xd)
            &&& all_dec_digits(yd)
        } {
        let (xd, yd) = choose|xd: Seq<u8>, yd: Seq<u8>|
            {
                &&& s == px_get_bytes(xd, yd)
                &&& 1 <= xd.len() <= 4
                &&& 1 <= yd.len() <= 4
                &&& all_dec_digits(xd)
                &&& all_dec_digits(yd)
            };
        lemma_px_get_bytes_one_command(xd, yd);
    } else if exists|xd: Seq<u8>, yd: Seq<u8>, cd: Seq<u8>|
        {
            &&& s == px_set_bytes(xd, yd, cd)
            &&& 1 <= xd.len() <= 4
            &&& 1 <= yd.len() <= 4
            &&& (cd.len() == 6 || cd.len() == 8)
            &&& all_dec_digits(xd)
            &&& all_dec_digits(yd)
            &&& all_hex_digits(cd)
        } {
        let (xd, yd, cd) = choose|xd: Seq<u8>, yd: Seq<u8>, cd: Seq<u8>|
            {
                &&& s == px_set_bytes(xd, yd, cd)
                &&& 1 <= xd.len() <= 4
                &&& 1 <= yd.len() <= 4
                &&& (cd.len() == 6 || cd.len() == 8)
                &&& all_dec_digits(xd)
                &&& all_dec_digits(yd)
                &&& all_hex_digits(cd)
            };
        lemma_px_set_bytes_one_command(xd, yd, cd);
    } else {
        let (xd, yd) = choose|xd: Seq<u8>, yd: Seq<u8>|
            {
                &&& s == offset_bytes(xd, yd)
                &&& 1 <= xd.len() <= 4
                &&& 1 <= yd.len() <= 4
                &&& all_dec_digits(xd)
                &&& all_dec_digits(yd)
            };
        lemma_offset_bytes_one_command(xd, yd);
    }
}

} // verus!
