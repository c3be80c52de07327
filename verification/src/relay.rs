use vstd::prelude::*;

use crate::dec::{parse_u64_dec, spec_fmt_u64, spec_parse_u64};
use crate::session::{Session, SessionV};
use crate::MAX_BYTES_WS_MESSAGE;

verus! {

/// Mathematical image of a [`Carrier`]. `sent` is every binary payload byte
/// transmitted on this carrier, in order; `base` is the absolute stream
/// offset the peer had confirmed when its first ack arrived on this carrier.
pub ghost struct CarrierV {
    pub replay: Option<usize>,
    pub base: int,
    pub sent: Seq<u8>,
}

impl CarrierV {
    /// Carrier invariant, relative to its session: before the peer's first
    /// ack nothing has been transmitted; afterwards, everything transmitted
    /// on this carrier is exactly the contiguous run of the TCP read stream
    /// from `base` up to the replay cursor — each stream byte at most once,
    /// in order, and never one the peer had already acknowledged.
    pub open spec fn wf(self, s: SessionV) -> bool {
        match self.replay {
            Option::Some(r) => {
                &&& r <= s.buffer.len()
                &&& 0 <= self.base <= s.read_cursor
                &&& self.sent == s.stream.subrange(self.base, s.read_cursor + r)
            },
            Option::None => self.sent.len() == 0,
        }
    }
}

/// Whether a peer ack of cumulative count `a` is admissible in the given
/// state: it may not move backwards, may not claim bytes this carrier has
/// not transmitted, and may not claim more than is buffered.
pub open spec fn ack_ok(s: SessionV, c: CarrierV, a: u64) -> bool {
    &&& a >= s.read_cursor
    &&& (c.replay matches Some(r) ==> a - s.read_cursor <= r)
    &&& a - s.read_cursor <= s.buffer.len()
}

/// What one inbound text frame does to the session and carrier.
pub open spec fn text_step(
    s0: SessionV,
    c0: CarrierV,
    payload: Seq<u8>,
    s1: SessionV,
    c1: CarrierV,
    o: TextOutcome,
) -> bool {
    if payload.len() == 0 {
        // graceful close indication
        o == TextOutcome::Close && s1 == s0 && c1 == c0
    } else {
        match spec_parse_u64(payload) {
            Option::None => o == TextOutcome::Proceed && s1 == s0 && c1 == c0,
            Option::Some(a) => {
                if !ack_ok(s0, c0, a) {
                    o == TextOutcome::BadAck && s1 == s0 && c1 == c0
                } else {
                    let delta = a - s0.read_cursor;
                    &&& o == TextOutcome::Proceed
                    &&& s1 == (SessionV {
                        read_cursor: a,
                        buffer: s0.buffer.skip(delta),
                        ..s0
                    })
                    &&& c1 == match c0.replay {
                        Option::None => CarrierV { replay: Some(0usize), base: a as int, sent: c0.sent },
                        Option::Some(r) => CarrierV { replay: Some((r - delta) as usize), ..c0 },
                    }
                }
            },
        }
    }
}

/// What one call of [`Carrier::next_frame`] does: while the replay cursor is
/// set and behind the buffer, cut the next slice of at most
/// [`MAX_BYTES_WS_MESSAGE`] bytes and advance.
pub open spec fn frame_step(s: SessionV, c0: CarrierV, c1: CarrierV, r: Option<Seq<u8>>) -> bool {
    match c0.replay {
        Option::None => r is None && c1 == c0,
        Option::Some(rr) => {
            if rr == s.buffer.len() {
                r is None && c1 == c0
            } else {
                let n = if s.buffer.len() - rr < MAX_BYTES_WS_MESSAGE {
                    s.buffer.len() - rr
                } else {
                    MAX_BYTES_WS_MESSAGE as int
                };
                match r {
                    Option::Some(f) => {
                        &&& f == s.buffer.subrange(rr as int, rr + n)
                        &&& c1 == (CarrierV {
                            replay: Some((rr + n) as usize),
                            base: c0.base,
                            sent: c0.sent + f,
                        })
                    },
                    Option::None => false,
                }
            }
        },
    }
}

pub open spec fn opt_view(r: Option<Vec<u8>>) -> Option<Seq<u8>> {
    match r {
        Option::Some(f) => Some(f@),
        Option::None => None,
    }
}

/// How the relay reacts to one inbound text frame.
#[derive(Debug, Clone, Copy, PartialEq, Eq, Structural)]
pub enum TextOutcome {
    /// Keep relaying (a good ack, or an ignorable frame).
    Proceed,
    /// Empty text: the peer closes the stream gracefully.
    Close,
    /// Protocol violation in the ack; the session must be killed.
    BadAck,
}

/// How one relay-loop run over a single WebSocket carrier ended.
#[derive(Debug, Clone, Copy, PartialEq, Eq, Structural)]
pub enum RelayEnd {
    /// The peer sent an empty text frame: clean close.
    PeerClosed,
    /// The TCP side failed; the stream cannot continue.
    TcpError,
    /// The WebSocket side failed; the session can take a new carrier.
    WsError,
    /// The WebSocket stream ended without a close; same as an error.
    WsDone,
    /// The peer's ack violated the protocol.
    AckError,
}

impl RelayEnd {
    /// Whether the session is killed (true) or preserved for a reattach.
    pub fn must_kill(&self) -> (r: bool)
        ensures
            r == (*self is PeerClosed || *self is TcpError || *self is AckError),
    {
        match self {
            RelayEnd::PeerClosed => true,
            RelayEnd::TcpError => true,
            RelayEnd::AckError => true,
            RelayEnd::WsError => false,
            RelayEnd::WsDone => false,
        }
    }
}

/// Per-carrier transmit state. It lives and dies with one WebSocket: the
/// replay cursor starts unset on every attach, so nothing is transmitted
/// before the peer's first ack tells us its position.
pub struct Carrier {
    replay: Option<usize>,
    base: Ghost<int>,
    sent: Ghost<Seq<u8>>,
}

impl View for Carrier {
    type V = CarrierV;

    closed spec fn view(&self) -> CarrierV {
        CarrierV { replay: self.replay, base: self.base@, sent: self.sent@ }
    }
}

impl Carrier {
    pub fn new() -> (c: Carrier)
        ensures
            c@.replay is None,
            c@.sent.len() == 0,
    {
        Carrier { replay: None, base: Ghost(0int), sent: Ghost(Seq::empty()) }
    }

    /// Feeds bytes read from the local TCP end into the session's replay
    /// buffer. Nothing is transmitted here; framing happens in
    /// [`Carrier::next_frame`].
    pub fn on_tcp_bytes(&self, s: &mut Session, bytes: &[u8])
        requires
            old(s).wf(),
            !old(s)@.closed,
            self@.wf(old(s)@),
        ensures
            final(s).wf(),
            self@.wf(final(s)@),
            final(s)@ == (SessionV {
                buffer: old(s)@.buffer + bytes@,
                stream: old(s)@.stream + bytes@,
                ..old(s)@
            }),
    {
        s.push_read(bytes);
        proof {
            match self.replay {
                Option::Some(r) => {
                    assert(s@.stream.subrange(self@.base, s@.read_cursor + r)
                        =~= old(s)@.stream.subrange(self@.base, old(s)@.read_cursor + r));
                },
                Option::None => {},
            }
        }
    }

    /// Cuts the next outbound binary frame, at most [`MAX_BYTES_WS_MESSAGE`]
    /// bytes, once the peer's first ack has set the replay cursor. Returns
    /// nothing while the cursor is unset or the buffer is drained.
    pub fn next_frame(&mut self, s: &Session) -> (r: Option<Vec<u8>>)
        requires
            s.wf(),
            old(self)@.wf(s@),
        ensures
            final(self)@.wf(s@),
            frame_step(s@, old(self)@, final(self)@, opt_view(r)),
            (r matches Some(f) ==> 0 < f@.len() <= MAX_BYTES_WS_MESSAGE),
    {
        let rr = match self.replay {
            Option::Some(rr) => rr,
            Option::None => {
                return None;
            },
        };
        let len = s.buffered();
        if rr >= len {
            return None;
        }
        let n = if len - rr < MAX_BYTES_WS_MESSAGE {
            len - rr
        } else {
            MAX_BYTES_WS_MESSAGE
        };
        let mut f: Vec<u8> = Vec::new();
        let mut j: usize = 0;
        while j < n
            invariant
                0 <= j <= n,
                rr < len,
                rr + n <= len,
                len == s@.buffer.len(),
                f@ == s@.buffer.subrange(rr as int, rr + j),
            decreases n - j,
        {
            f.push(s.buffer_byte(rr + j));
            proof {
                assert(f@ =~= s@.buffer.subrange(rr as int, rr + j + 1));
            }
            j += 1;
        }
        self.replay = Some(rr + n);
        proof {
            self.sent@ = self.sent@ + f@;
            assert(self@.sent =~= s@.stream.subrange(self@.base, s@.read_cursor + (rr + n)))
            by {
                assert(s@.buffer == s@.stream.skip(s@.read_cursor as int));
                assert(old(self)@.sent
                    == s@.stream.subrange(old(self)@.base, s@.read_cursor + rr));
                assert(f@ =~= s@.stream.subrange(
                    s@.read_cursor + rr,
                    s@.read_cursor + rr + n,
                ));
            }
        }
        Some(f)
    }

    /// Handles one inbound text frame: empty means graceful close; a decimal
    /// number is the peer's cumulative ack, which advances the read cursor,
    /// drops the acknowledged prefix from the replay buffer and pulls the
    /// replay cursor back; anything else is ignored. A regressing or
    /// overreaching ack changes nothing and reports a protocol violation.
    pub fn on_text(&mut self, s: &mut Session, payload: &[u8]) -> (o: TextOutcome)
        requires
            old(s).wf(),
            old(self)@.wf(old(s)@),
        ensures
            final(s).wf(),
            final(self)@.wf(final(s)@),
            text_step(old(s)@, old(self)@, payload@, final(s)@, final(self)@, o),
            final(s)@.read_cursor >= old(s)@.read_cursor,
    {
        if payload.len() == 0 {
            return TextOutcome::Close;
        }
        let a = match parse_u64_dec(payload) {
            Option::Some(a) => a,
            Option::None => {
                return TextOutcome::Proceed;
            },
        };
        let rc = s.read_cursor();
        if a < rc {
            return TextOutcome::BadAck;
        }
        let delta64 = a - rc;
        if let Option::Some(r) = self.replay {
            if delta64 > r as u64 {
                return TextOutcome::BadAck;
            }
        }
        if delta64 > s.buffered() as u64 {
            return TextOutcome::BadAck;
        }
        s.advance_ack(a);
        match self.replay {
            Option::None => {
                self.replay = Some(0);
                proof {
                    self.base@ = a as int;
                    assert(self@.sent =~= s@.stream.subrange(a as int, s@.read_cursor + 0));
                }
            },
            Option::Some(r) => {
                self.replay = Some(r - delta64 as usize);
                proof {
                    assert(self@.sent =~= s@.stream.subrange(
                        self@.base,
                        s@.read_cursor + (r - delta64 as usize),
                    ));
                }
            },
        }
        TextOutcome::Proceed
    }

    /// Accounts for an inbound binary payload that has been written out to
    /// the local TCP end in full, and returns the cumulative ack frame to
    /// send back. The carrier's transmit state is untouched.
    pub fn on_binary_delivered(&self, s: &mut Session, bytes: &[u8]) -> (ack: Vec<u8>)
        requires
            old(s).wf(),
            self@.wf(old(s)@),
            old(s)@.write_cursor + bytes@.len() <= u64::MAX,
        ensures
            final(s).wf(),
            self@.wf(final(s)@),
            final(s)@ == (SessionV {
                write_cursor: (old(s)@.write_cursor + bytes@.len()) as u64,
                delivered: old(s)@.delivered + bytes@,
                ..old(s)@
            }),
            ack@ == spec_fmt_u64(final(s)@.write_cursor as nat),
    {
        s.note_delivered(bytes)
    }
}

/// Law: the read cursor never moves backwards, and an ack below it is
/// rejected as a protocol violation with no state change at all.
pub proof fn lemma_ack_monotone(
    s0: SessionV,
    c0: CarrierV,
    payload: Seq<u8>,
    s1: SessionV,
    c1: CarrierV,
    o: TextOutcome,
)
    requires
        text_step(s0, c0, payload, s1, c1, o),
    ensures
        s1.read_cursor >= s0.read_cursor,
        (spec_parse_u64(payload) matches Some(a) && a < s0.read_cursor) ==> (o
            == TextOutcome::BadAck && s1 == s0 && c1 == c0),
{
}

/// Law: the replay buffer holds exactly the bytes read from TCP that the
/// peer has not acknowledged — never more than the stream length minus the
/// read cursor.
pub proof fn lemma_buffer_bound(s: SessionV)
    requires
        s.wf(),
    ensures
        s.buffer.len() == s.stream.len() - s.read_cursor,
        s.buffer == s.stream.skip(s.read_cursor as int),
{
}

/// Law: end-to-end delivery on one carrier. What the peer had delivered
/// before this carrier attached (the first `base` bytes of the stream, per
/// its first ack) followed by any prefix of this carrier's transmissions is
/// a contiguous prefix of the TCP read stream: the receiving end writes the
/// stream out in order, nothing duplicated, nothing skipped.
pub proof fn lemma_delivery_prefix(
    s: SessionV,
    c: CarrierV,
    r: usize,
    delivered: Seq<u8>,
    k: int,
)
    requires
        s.wf(),
        c.wf(s),
        c.replay == Some(r),
        0 <= k <= c.sent.len(),
        delivered == s.stream.take(c.base) + c.sent.take(k),
    ensures
        delivered == s.stream.take(c.base + k),
{
    assert(c.sent.take(k) =~= s.stream.subrange(c.base, c.base + k));
    assert(s.stream.take(c.base) + c.sent.take(k) =~= s.stream.take(c.base + k));
}

/// Law: replay correctness on one carrier. Once the replay cursor is set,
/// the bytes transmitted on the carrier are exactly the stream bytes at the
/// consecutive offsets from `base` to the cursor: in order, none duplicated,
/// none skipped, and none from below `base` — the prefix the peer had
/// already acknowledged when this carrier attached is never retransmitted.
pub proof fn lemma_replay_exact(s: SessionV, c: CarrierV, r: usize)
    requires
        s.wf(),
        c.wf(s),
        c.replay == Some(r),
    ensures
        c.sent.len() == s.read_cursor + r - c.base,
        forall|i: int| 0 <= i < c.sent.len() ==> c.sent[i] == s.stream[c.base + i],
        0 <= c.base <= s.read_cursor,
{
}

} // verus!
