//! One connection's receive state.
//!
//! A session owns a fixed receive buffer and the per-connection scanner
//! state. Each delivery of socket bytes is appended behind the bytes left
//! over from the previous pass, the lookahead margin behind the data is
//! zero-filled so no stale bytes look like a command, the filled region is
//! scanned and carried out, and the unconsumed tail — at most one
//! command's worth; any longer tail is cut to the margin so gibberish can
//! never pin the buffer — moves to the front for the next delivery.
//!
//! An empty delivery with nothing left over closes the session; an empty
//! delivery with a leftover only discards the leftover, since no further
//! bytes can ever complete it.

use vstd::prelude::*;

use crate::execute::{apply_seq, parse_pixelflut_commands, ApplyState};
use crate::framebuffer::{FbView, FrameBuffer};
use crate::parser::{scan, zero_seq, ParserState, PARSER_LOOKAHEAD};

verus! {

/// Size in bytes of a session's receive buffer, lookahead margin included.
pub const NETWORK_BUFFER_SIZE: usize = 256000;

/// The buffer a scan pass works on: the leftover of the previous pass,
/// then the newly delivered bytes, then the zero-filled lookahead margin.
pub open spec fn scan_buffer(leftover: Seq<u8>, data: Seq<u8>) -> Seq<u8> {
    leftover + data + zero_seq(PARSER_LOOKAHEAD as nat)
}

/// Everything one scan pass leaves behind, as a function of what went in:
/// the replies sent, the canvas, the offsets, the position of the final
/// byte of the last fully recognized command, and the bytes retained for
/// the next pass.
pub struct FeedOutcome {
    pub replies: Seq<u8>,
    pub fb: FbView,
    pub ox: int,
    pub oy: int,
    pub last: int,
    pub leftover: Seq<u8>,
}

/// The outcome of one scan pass over a delivery: scan the leftover, the
/// new bytes and the zeroed margin; carry the recognized commands out;
/// keep the unconsumed tail, cut to the margin.
pub open spec fn feed_outcome(lo: Seq<u8>, data: Seq<u8>, ox: int, oy: int, fb: FbView) -> FeedOutcome {
    let buf = scan_buffer(lo, data);
    let sc = scan(buf);
    let s1 = apply_seq(sc.commands, ApplyState { ox, oy, fb, out: Seq::empty() });
    let consumed = if sc.last == 0 {
        0int
    } else {
        sc.last + 1
    };
    let rawleft = lo.len() + data.len() - consumed;
    let keep = if rawleft > PARSER_LOOKAHEAD {
        PARSER_LOOKAHEAD as int
    } else {
        rawleft
    };
    FeedOutcome {
        replies: s1.out,
        fb: s1.fb,
        ox: s1.ox,
        oy: s1.oy,
        last: sc.last,
        leftover: buf.subrange(consumed, consumed + keep),
    }
}

/// What a session looks like from outside: the bytes retained for the next
/// pass and the scanner state carried across passes.
pub struct SessionView {
    pub leftover: Seq<u8>,
    pub state: ParserState,
}

/// Per-connection receive buffer and scanner state.
pub struct Session {
    buffer: Vec<u8>,
    leftover: usize,
    state: ParserState,
}

impl View for Session {
    type V = SessionView;

    closed spec fn view(&self) -> SessionView {
        SessionView { leftover: self.buffer@.take(self.leftover as int), state: self.state }
    }
}

impl Session {
    /// The session's internal consistency: a full-size buffer and a
    /// leftover no longer than the lookahead margin.
    pub closed spec fn inv(&self) -> bool {
        &&& self.buffer@.len() == NETWORK_BUFFER_SIZE
        &&& self.leftover <= PARSER_LOOKAHEAD
    }

    /// The retained leftover never exceeds the lookahead margin.
    pub proof fn lemma_leftover_bounded(&self)
        requires
            self.inv(),
        ensures
            self@.leftover.len() <= PARSER_LOOKAHEAD,
    {
    }

    /// A fresh session: empty buffer, no offset, nothing parsed.
    pub fn new() -> (s: Session)
        ensures
            s.inv(),
            s@.leftover == Seq::<u8>::empty(),
            s@.state == (ParserState {
                connection_x_offset: 0usize,
                connection_y_offset: 0usize,
                last_byte_parsed: 0usize,
            }),
    {
        let mut buffer: Vec<u8> = Vec::new();
        while buffer.len() < NETWORK_BUFFER_SIZE
            invariant
                buffer@.len() <= NETWORK_BUFFER_SIZE,
            decreases NETWORK_BUFFER_SIZE - buffer@.len(),
        {
            buffer.push(0u8);
        }
        let s = Session {
            buffer,
            leftover: 0,
            state: ParserState { connection_x_offset: 0, connection_y_offset: 0, last_byte_parsed: 0 },
        };
        proof {
            assert(s@.leftover =~= Seq::<u8>::empty());
        }
        s
    }

    /// How many bytes the next delivery may carry: the buffer behind the
    /// current leftover, minus the reserved lookahead margin.
    pub fn max_read(&self) -> (n: usize)
        requires
            self.inv(),
        ensures
            n as int == NETWORK_BUFFER_SIZE - PARSER_LOOKAHEAD - self@.leftover.len(),
    {
        NETWORK_BUFFER_SIZE - PARSER_LOOKAHEAD - self.leftover
    }

    /// Takes one socket delivery and drives a full pass: append the bytes
    /// behind the leftover, zero the margin, scan, carry the recognized
    /// commands out against the canvas, and retain the unconsumed tail
    /// (cut to the margin). Hands back the replies of the pass and whether
    /// the session is closed: an empty delivery closes it once no leftover
    /// remains, and a read error is an empty delivery to this function.
    pub fn feed(&mut self, data: &[u8], fb: &mut FrameBuffer) -> (r: (Vec<u8>, bool))
        requires
            old(self).inv(),
            old(fb)@.wf(),
            data@.len() + PARSER_LOOKAHEAD + old(self)@.leftover.len() <= NETWORK_BUFFER_SIZE,
        ensures
            final(self).inv(),
            final(fb)@.wf(),
            ({
                let lo = old(self)@.leftover;
                let st = old(self)@.state;
                if data@.len() == 0 && lo.len() == 0 {
                    &&& r.1 == true
                    &&& r.0@ == Seq::<u8>::empty()
                    &&& final(fb)@ == old(fb)@
                    &&& final(self)@ == old(self)@
                } else if data@.len() == 0 {
                    &&& r.1 == false
                    &&& r.0@ == Seq::<u8>::empty()
                    &&& final(fb)@ == old(fb)@
                    &&& final(self)@.leftover == Seq::<u8>::empty()
                    &&& final(self)@.state == st
                } else {
                    let o = feed_outcome(
                        lo,
                        data@,
                        st.connection_x_offset as int,
                        st.connection_y_offset as int,
                        old(fb)@,
                    );
                    &&& r.1 == false
                    &&& r.0@ == o.replies
                    &&& final(fb)@ == o.fb
                    &&& final(self)@.state.connection_x_offset as int == o.ox
                    &&& final(self)@.state.connection_y_offset as int == o.oy
                    &&& final(self)@.state.last_byte_parsed as int == o.last
                    &&& final(self)@.leftover == o.leftover
                }
            }),
    {
        let data_len = data.len();
        if data_len == 0 {
            if self.leftover == 0 {
                proof {
                    assert(old(self)@.leftover.len() == 0);
                }
                return (Vec::new(), true);
            }
            self.leftover = 0;
            proof {
                assert(self@.leftover =~= Seq::<u8>::empty());
            }
            return (Vec::new(), false);
        }
        let ghost lo = old(self)@.leftover;
        let data_end = self.leftover + data_len;

        // Append the delivery behind the leftover.
        let mut i: usize = 0;
        while i < data_len
            invariant
                i <= data_len,
                data_len == data@.len(),
                data_end == self.leftover + data_len,
                self.leftover + data_len + PARSER_LOOKAHEAD <= NETWORK_BUFFER_SIZE,
                self.buffer@.len() == NETWORK_BUFFER_SIZE,
                self.leftover == old(self).leftover,
                self.state == old(self).state,
                self.buffer@.take(self.leftover as int) == lo,
                forall|j: int|
                    self.leftover <= j < self.leftover + i ==> self.buffer@[j] == data@[j
                        - self.leftover],
            decreases data_len - i,
        {
            self.buffer.set(self.leftover + i, data[i]);
            i = i + 1;
            proof {
                assert(self.buffer@.take(self.leftover as int) =~= lo);
            }
        }

        // Zero the lookahead margin so no stale bytes look like a command.
        let mut i: usize = 0;
        while i < PARSER_LOOKAHEAD
            invariant
                i <= PARSER_LOOKAHEAD,
                data_len == data@.len(),
                data_end == self.leftover + data_len,
                self.leftover + data_len + PARSER_LOOKAHEAD <= NETWORK_BUFFER_SIZE,
                self.buffer@.len() == NETWORK_BUFFER_SIZE,
                self.leftover == old(self).leftover,
                self.state == old(self).state,
                self.buffer@.take(self.leftover as int) == lo,
                forall|j: int|
                    self.leftover <= j < data_end ==> self.buffer@[j] == data@[j - self.leftover],
                forall|j: int| data_end <= j < data_end + i ==> self.buffer@[j] == 0u8,
            decreases PARSER_LOOKAHEAD - i,
        {
            self.buffer.set(data_end + i, 0u8);
            i = i + 1;
            proof {
                assert(self.buffer@.take(self.leftover as int) =~= lo);
            }
        }

        let ghost buf = scan_buffer(lo, data@);
        proof {
            assert(self.buffer@.subrange(0, data_end + PARSER_LOOKAHEAD) =~= buf);
        }

        // Scan the filled region (margin included) and carry it out.
        let scan_end = data_end + PARSER_LOOKAHEAD;
        let region: &[u8] = &self.buffer.as_slice()[0..scan_end];
        let (new_state, replies) = parse_pixelflut_commands(region, fb, self.state);

        // The unconsumed tail starts behind the last fully recognized
        // command; it lies inside the real data because every recognized
        // command ends on a nonzero byte and the margin holds only zeros.
        proof {
            crate::parser::lemma_scan_last_zero_free(buf, 0, 0);
        }
        let last = new_state.last_byte_parsed;
        let consumed: usize = if last == 0 { 0 } else { last + 1 };
        let mut keep = data_end - consumed;
        if keep > PARSER_LOOKAHEAD {
            keep = PARSER_LOOKAHEAD;
        }

        // Slide the tail to the front of the buffer.
        let ghost scanned = self.buffer@;
        let mut i: usize = 0;
        while i < keep
            invariant
                i <= keep,
                keep <= PARSER_LOOKAHEAD,
                consumed + keep <= scanned.len(),
                self.buffer@.len() == scanned.len(),
                scanned.len() == NETWORK_BUFFER_SIZE,
                self.state == old(self).state,
                forall|j: int| 0 <= j < i ==> self.buffer@[j] == scanned[consumed + j],
                forall|j: int| i <= j < scanned.len() ==> self.buffer@[j] == scanned[j],
            decreases keep - i,
        {
            let b = self.buffer[consumed + i];
            self.buffer.set(i, b);
            i = i + 1;
        }
        self.leftover = keep;
        self.state = new_state;
        proof {
            assert(self@.leftover =~= buf.subrange(
                consumed as int,
                consumed as int + keep as int,
            ));
        }
        (replies, false)
    }
}

} // verus!
