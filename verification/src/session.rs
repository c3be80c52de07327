use vstd::prelude::*;

use crate::dec::{spec_fmt_u64, u64_to_dec};
use crate::MAX_TIMEOUT_MS;

verus! {

/// Mathematical image of a [`Session`]. `stream` is every byte the local TCP
/// end has ever handed to the session, in order; `delivered` is every byte the
/// session has written out to the local TCP end, in order. Neither exists at
/// run time.
pub ghost struct SessionV {
    pub id: u64,
    pub timeout_ms: u64,
    pub write_cursor: u64,
    pub read_cursor: u64,
    pub buffer: Seq<u8>,
    pub closed: bool,
    pub last_use: u64,
    pub has_tcp: bool,
    pub stream: Seq<u8>,
    pub delivered: Seq<u8>,
}

impl SessionV {
    /// The session invariant: the replay buffer is exactly the suffix of the
    /// TCP read stream that the peer has not yet acknowledged, the write
    /// cursor counts the bytes delivered to the TCP peer, and a closed
    /// session is inert.
    pub open spec fn wf(self) -> bool {
        &&& self.id != 0
        &&& self.timeout_ms <= MAX_TIMEOUT_MS
        &&& self.read_cursor + self.buffer.len() == self.stream.len()
        &&& self.buffer == self.stream.skip(self.read_cursor as int)
        &&& self.write_cursor == self.delivered.len()
        &&& (self.closed ==> !self.has_tcp && self.buffer.len() == 0)
    }
}

/// One logical TCP byte stream, carried over any number of successive
/// WebSocket carriers. It records how much of each direction of the stream
/// has been confirmed, and buffers unacknowledged outbound bytes for replay.
pub struct Session {
    id: u64,
    timeout_ms: u64,
    write_cursor: u64,
    read_cursor: u64,
    buffer: Vec<u8>,
    closed: bool,
    last_use: u64,
    has_tcp: bool,
    stream: Ghost<Seq<u8>>,
    delivered: Ghost<Seq<u8>>,
}

impl View for Session {
    type V = SessionV;

    closed spec fn view(&self) -> SessionV {
        SessionV {
            id: self.id,
            timeout_ms: self.timeout_ms,
            write_cursor: self.write_cursor,
            read_cursor: self.read_cursor,
            buffer: self.buffer@,
            closed: self.closed,
            last_use: self.last_use,
            has_tcp: self.has_tcp,
            stream: self.stream@,
            delivered: self.delivered@,
        }
    }
}

impl Session {
    pub open spec fn wf(&self) -> bool {
        self@.wf()
    }

    /// A fresh session: nothing read, nothing delivered, nothing buffered.
    /// The requested timeout is clamped to [`MAX_TIMEOUT_MS`].
    pub fn new(id: u64, timeout_ms: u64, has_tcp: bool, now_ms: u64) -> (s: Session)
        requires
            id != 0,
        ensures
            s.wf(),
            s@.id == id,
            s@.timeout_ms == if timeout_ms <= MAX_TIMEOUT_MS { timeout_ms } else { MAX_TIMEOUT_MS },
            s@.write_cursor == 0,
            s@.read_cursor == 0,
            s@.buffer.len() == 0,
            !s@.closed,
            s@.last_use == now_ms,
            s@.has_tcp == has_tcp,
            s@.stream.len() == 0,
            s@.delivered.len() == 0,
    {
        let s = Session {
            id,
            timeout_ms: if timeout_ms <= MAX_TIMEOUT_MS { timeout_ms } else { MAX_TIMEOUT_MS },
            write_cursor: 0,
            read_cursor: 0,
            buffer: Vec::new(),
            closed: false,
            last_use: now_ms,
            has_tcp,
            stream: Ghost(Seq::empty()),
            delivered: Ghost(Seq::empty()),
        };
        proof {
            assert(s@.buffer =~= s@.stream.skip(0));
        }
        s
    }

    /// Installs the lazily dialed TCP handle on a terminator-side session.
    pub fn install_tcp(&mut self)
        requires
            old(self).wf(),
            !old(self)@.closed,
        ensures
            final(self).wf(),
            final(self)@ == (SessionV { has_tcp: true, ..old(self)@ }),
    {
        self.has_tcp = true;
    }

    /// Kills the session: drops the TCP handle, clears the buffer and
    /// cursors, and marks it closed and inert. Only the id survives.
    pub fn kill(&mut self, now_ms: u64)
        requires
            old(self).wf(),
        ensures
            final(self).wf(),
            final(self)@.closed,
            final(self)@.id == old(self)@.id,
            final(self)@.timeout_ms == crate::DEFAULT_TIMEOUT_MS,
            final(self)@.write_cursor == 0,
            final(self)@.read_cursor == 0,
            final(self)@.buffer.len() == 0,
            !final(self)@.has_tcp,
            final(self)@.last_use == now_ms,
    {
        self.has_tcp = false;
        self.timeout_ms = crate::DEFAULT_TIMEOUT_MS;
        self.write_cursor = 0;
        self.read_cursor = 0;
        self.buffer = Vec::new();
        self.closed = true;
        self.last_use = now_ms;
        proof {
            self.stream@ = Seq::empty();
            self.delivered@ = Seq::empty();
            assert(self@.buffer =~= self@.stream.skip(0));
        }
    }

    /// Stamps the activity clock, for the idle sweeper.
    pub fn touch(&mut self, now_ms: u64)
        requires
            old(self).wf(),
        ensures
            final(self).wf(),
            final(self)@ == (SessionV { last_use: now_ms, ..old(self)@ }),
    {
        self.last_use = now_ms;
    }

    /// The one text frame sent on every attach: this side's write cursor in
    /// decimal, telling the peer which prefix of its stream we have already
    /// delivered and it may drop from its replay buffer.
    pub fn attach_frame(&self) -> (r: Vec<u8>)
        ensures
            r@ == spec_fmt_u64(self@.write_cursor as nat),
    {
        u64_to_dec(self.write_cursor)
    }

    /// True when the session has sat unused longer than its idle timeout.
    pub fn expired(&self, now_ms: u64) -> (r: bool)
        ensures
            r == (now_ms > self@.last_use && now_ms - self@.last_use > self@.timeout_ms),
    {
        now_ms > self.last_use && now_ms - self.last_use > self.timeout_ms
    }

    pub fn id(&self) -> (r: u64)
        ensures
            r == self@.id,
    {
        self.id
    }

    pub fn timeout_ms(&self) -> (r: u64)
        ensures
            r == self@.timeout_ms,
    {
        self.timeout_ms
    }

    pub fn write_cursor(&self) -> (r: u64)
        ensures
            r == self@.write_cursor,
    {
        self.write_cursor
    }

    pub fn read_cursor(&self) -> (r: u64)
        ensures
            r == self@.read_cursor,
    {
        self.read_cursor
    }

    pub fn buffered(&self) -> (r: usize)
        ensures
            r == self@.buffer.len(),
    {
        self.buffer.len()
    }

    pub fn is_closed(&self) -> (r: bool)
        ensures
            r == self@.closed,
    {
        self.closed
    }

    pub fn has_tcp(&self) -> (r: bool)
        ensures
            r == self@.has_tcp,
    {
        self.has_tcp
    }

    pub fn last_use(&self) -> (r: u64)
        ensures
            r == self@.last_use,
    {
        self.last_use
    }

    /// Appends bytes just read from the local TCP end to the replay buffer.
    pub fn push_read(&mut self, bytes: &[u8])
        requires
            old(self).wf(),
            !old(self)@.closed,
        ensures
            final(self).wf(),
            final(self)@ == (SessionV {
                buffer: old(self)@.buffer + bytes@,
                stream: old(self)@.stream + bytes@,
                ..old(self)@
            }),
    {
        let mut i: usize = 0;
        while i < bytes.len()
            invariant
                0 <= i <= bytes@.len(),
                self.buffer@ == old(self)@.buffer + bytes@.take(i as int),
                self.id == old(self).id,
                self.timeout_ms == old(self).timeout_ms,
                self.write_cursor == old(self).write_cursor,
                self.read_cursor == old(self).read_cursor,
                self.closed == old(self).closed,
                self.last_use == old(self).last_use,
                self.has_tcp == old(self).has_tcp,
                self.stream == old(self).stream,
                self.delivered == old(self).delivered,
            decreases bytes@.len() - i,
        {
            self.buffer.push(bytes[i]);
            proof {
                assert(self.buffer@ =~= old(self)@.buffer + bytes@.take(i + 1));
            }
            i += 1;
        }
        proof {
            self.stream@ = self.stream@ + bytes@;
            assert(bytes@.take(bytes@.len() as int) =~= bytes@);
            assert(self@.buffer =~= self@.stream.skip(self@.read_cursor as int));
        }
    }

    /// Accounts for a binary payload fully written out to the local TCP end,
    /// and returns the acknowledgement frame to send: the new write cursor
    /// in decimal.
    pub fn note_delivered(&mut self, bytes: &[u8]) -> (ack: Vec<u8>)
        requires
            old(self).wf(),
            old(self)@.write_cursor + bytes@.len() <= u64::MAX,
        ensures
            final(self).wf(),
            final(self)@ == (SessionV {
                write_cursor: (old(self)@.write_cursor + bytes@.len()) as u64,
                delivered: old(self)@.delivered + bytes@,
                ..old(self)@
            }),
            ack@ == spec_fmt_u64(final(self)@.write_cursor as nat),
    {
        self.write_cursor = self.write_cursor + bytes.len() as u64;
        proof {
            self.delivered@ = self.delivered@ + bytes@;
        }
        u64_to_dec(self.write_cursor)
    }

    /// Reads one buffered byte, for framing.
    pub fn buffer_byte(&self, i: usize) -> (r: u8)
        requires
            i < self@.buffer.len(),
        ensures
            r == self@.buffer[i as int],
    {
        self.buffer[i]
    }

    /// Applies a validated cumulative acknowledgement: the read cursor moves
    /// up to `a` and the acknowledged prefix leaves the replay buffer.
    pub fn advance_ack(&mut self, a: u64)
        requires
            old(self).wf(),
            a >= old(self)@.read_cursor,
            a - old(self)@.read_cursor <= old(self)@.buffer.len(),
        ensures
            final(self).wf(),
            final(self)@ == (SessionV {
                read_cursor: a,
                buffer: old(self)@.buffer.skip(a - old(self)@.read_cursor),
                ..old(self)@
            }),
    {
        let delta = (a - self.read_cursor) as usize;
        let mut nb: Vec<u8> = Vec::new();
        let mut j: usize = delta;
        while j < self.buffer.len()
            invariant
                delta <= j <= self.buffer@.len(),
                self.buffer@ == old(self)@.buffer,
                delta <= self.buffer@.len(),
                nb@ == self.buffer@.subrange(delta as int, j as int),
            decreases self.buffer@.len() - j,
        {
            nb.push(self.buffer[j]);
            proof {
                assert(nb@ =~= self.buffer@.subrange(delta as int, j + 1));
            }
            j += 1;
        }
        self.buffer = nb;
        self.read_cursor = a;
        proof {
            assert(self.buffer@ =~= old(self)@.buffer.skip(delta as int));
            assert(self.buffer@ =~= self.stream@.skip(self.read_cursor as int));
        }
    }
}

/// Relies on `rand::random`: a value drawn from the thread-local generator;
/// nothing is promised of it.
pub assume_specification<T>[ rand::random::<T> ]() -> (r: T)
    where
        rand::distributions::Standard: rand::distributions::Distribution<T>,
;

/// Draws session ids until one is nonzero, as the initiator does for each
/// accepted TCP connection. The retry count is bounded so that the draw
/// provably terminates; the all-zero fallback is unreachable in practice.
pub fn fresh_session_id() -> (r: u64)
    ensures
        r != 0,
{
    let mut id: u64 = 0;
    let mut tries: usize = 0;
    while id == 0 && tries < 64
        invariant
            tries <= 64,
        decreases 64 - tries,
    {
        id = rand::random();
        tries += 1;
    }
    if id == 0 {
        id = u64::MAX;
    }
    id
}

} // verus!
