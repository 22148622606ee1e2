//! DNS over TCP framing with absolute deadlines (including partial I/O).
//!
//! Times are nanoseconds of one monotonic clock, whose readings the caller
//! supplies. Socket timeouts provide cancellation checkpoints. The same absolute
//! deadline remains in force across partial reads/writes and both parts of a
//! frame.
use crate::bytes::{self, push_slice, push_word, read_word};
use crate::dns::{HEADER_LENGTH, MAX_MESSAGE_LENGTH};
use vstd::prelude::*;
use vstd::slice::{slice_subrange, slice_to_vec};

verus! {

/// Maximum socket-poll interval between cancellation checks during frame I/O.
pub const IO_POLL: u64 = 100_000_000;

/// Client transport, determining UDP size limits and the initial upstream protocol.
#[derive(Debug, Clone, Copy, PartialEq, Eq, Structural)]
pub enum Transport {
    Udp,
    Tcp,
}

/// Categories of I/O failure that the forwarder tells apart.
#[derive(Debug, Clone, Copy, PartialEq, Eq, Structural)]
pub enum IoErrorKind {
    WouldBlock,
    TimedOut,
    Interrupted,
    UnexpectedEof,
    InvalidData,
    InvalidInput,
    WriteZero,
    Other,
}

/// A failed I/O operation. An interruption by shutdown is marked: a call that the
/// system interrupted is something else.
#[derive(Debug)]
pub struct IoFailure {
    pub kind: IoErrorKind,
    pub cancelled: bool,
    pub message: String,
}

impl IoFailure {
    /// Whether a failure is of a kind and says a text, and is no cancellation.
    pub open spec fn says(self, kind: IoErrorKind, text: Seq<char>) -> bool {
        self.kind == kind && !self.cancelled && self.message@ == text
    }

    fn new(kind: IoErrorKind, text: &str) -> (r: IoFailure)
        ensures
            r.says(kind, text@),
    {
        IoFailure { kind, cancelled: false, message: String::from_str(text) }
    }
}

/// Why no time is left.
pub enum Lapse {
    Cancelled,
    Expired,
}

impl Lapse {
    /// The failure that ends an operation for want of time.
    pub open spec fn is_told_by(self, failure: IoFailure) -> bool {
        match self {
            Lapse::Cancelled => {
                &&& failure.kind == IoErrorKind::Interrupted
                &&& failure.cancelled
                &&& failure.message@ == "shutdown requested"@
            },
            Lapse::Expired => failure.says(IoErrorKind::TimedOut, "exchange deadline expired"@),
        }
    }
}

/// An absolute time budget; copying it does not restart or extend the budget.
#[derive(Debug, Clone, Copy, PartialEq, Eq, Structural)]
pub struct Deadline {
    pub at: u64,
}

impl Deadline {
    /// The end of a budget that starts now, at most at the end of the clock.
    pub open spec fn ending(now: u64, duration: u64) -> Deadline {
        Deadline {
            at: if now + duration <= u64::MAX {
                (now + duration) as u64
            } else {
                u64::MAX
            },
        }
    }

    /// The earlier of this deadline and a budget that starts now.
    pub open spec fn within(self, now: u64, limit: u64) -> Deadline {
        if self.at <= Deadline::ending(now, limit).at {
            self
        } else {
            Deadline::ending(now, limit)
        }
    }

    /// Whether time is up; cancellation takes precedence over expiry.
    pub open spec fn lapse(self, now: u64, stop: bool) -> Option<Lapse> {
        if stop {
            Some(Lapse::Cancelled)
        } else if now >= self.at {
            Some(Lapse::Expired)
        } else {
            None
        }
    }

    pub fn after(now: u64, duration: u64) -> (r: Deadline)
        ensures
            r == Deadline::ending(now, duration),
    {
        Deadline { at: now.saturating_add(duration) }
    }

    /// Limits an attempt without extending the budget it is part of.
    pub fn capped(self, now: u64, limit: u64) -> (r: Deadline)
        ensures
            r == self.within(now, limit),
    {
        let attempt = Deadline::after(now, limit);
        if self.at <= attempt.at {
            self
        } else {
            attempt
        }
    }

    /// Returns the positive remaining budget after checking cancellation.
    ///
    /// Fails as interrupted when shutdown is requested, or as timed out when the
    /// budget is exhausted. Cancellation takes precedence over expiry.
    pub fn remaining(self, now: u64, stop: bool) -> (r: Result<u64, IoFailure>)
        ensures
            match self.lapse(now, stop) {
                None => r is Ok && r->Ok_0 == self.at - now && r->Ok_0 > 0,
                Some(lapse) => r is Err && lapse.is_told_by(r->Err_0),
            },
    {
        if stop {
            return Err(
                IoFailure {
                    kind: IoErrorKind::Interrupted,
                    cancelled: true,
                    message: String::from_str("shutdown requested"),
                },
            );
        }
        if now >= self.at {
            return Err(IoFailure::new(IoErrorKind::TimedOut, "exchange deadline expired"));
        }
        Ok(self.at - now)
    }

    /// How long a single socket call may block, so that cancellation is seen soon.
    pub fn poll(self, now: u64, stop: bool) -> (r: Result<u64, IoFailure>)
        ensures
            match self.lapse(now, stop) {
                None => r is Ok && r->Ok_0 == (if self.at - now < IO_POLL {
                    self.at - now
                } else {
                    IO_POLL as int
                }),
                Some(lapse) => r is Err && lapse.is_told_by(r->Err_0),
            },
    {
        let left: u64 = self.remaining(now, stop)?;
        if left < IO_POLL {
            Ok(left)
        } else {
            Ok(IO_POLL)
        }
    }
}

/// A cap never extends a budget, and never outlasts its own limit; so no attempt
/// inside a request outlives the request.
pub proof fn capped_deadline_never_extends(deadline: Deadline, now: u64, limit: u64)
    ensures
        deadline.within(now, limit).at <= deadline.at,
        deadline.within(now, limit).at <= now + limit,
        deadline.lapse(now, false) is Some ==> deadline.within(now, limit).lapse(now, false) is Some,
{
}

/// Identifies socket outcomes that permit retry after rechecking stop/deadline.
///
/// This classifies individual I/O calls, not errors from `Deadline::remaining`,
/// which must propagate to end the enclosing operation.
pub fn transient(kind: IoErrorKind) -> (r: bool)
    ensures
        r == (kind == IoErrorKind::WouldBlock || kind == IoErrorKind::TimedOut || kind
            == IoErrorKind::Interrupted),
{
    match kind {
        IoErrorKind::WouldBlock => true,
        IoErrorKind::TimedOut => true,
        IoErrorKind::Interrupted => true,
        _ => false,
    }
}

/// A message behind its length, as it goes over TCP.
pub open spec fn frame_of(wire: Seq<u8>) -> Seq<u8> {
    bytes::word_bytes(wire.len() as u16) + wire
}

/// Whether a message can be framed.
pub open spec fn framable(length: int) -> bool {
    HEADER_LENGTH <= length <= MAX_MESSAGE_LENGTH
}

/// A frame on its way out, and how much of it has been written.
#[derive(Debug)]
pub struct FrameWriter {
    frame: Vec<u8>,
    offset: usize,
}

impl FrameWriter {
    #[verifier::type_invariant]
    spec fn well_formed(self) -> bool {
        self.offset <= self.frame@.len()
    }

    pub closed spec fn frame(self) -> Seq<u8> {
        self.frame@
    }

    pub closed spec fn written(self) -> int {
        self.offset as int
    }

    /// Prepares a complete DNS frame.
    ///
    /// Rejects lengths outside the DNS header/message bounds.
    pub fn new(wire: &[u8]) -> (r: Result<FrameWriter, IoFailure>)
        ensures
            if framable(wire@.len() as int) {
                r is Ok && r->Ok_0.frame() == frame_of(wire@) && r->Ok_0.written() == 0
            } else {
                r is Err && r->Err_0.says(
                    IoErrorKind::InvalidInput,
                    "invalid TCP DNS frame length"@,
                )
            },
    {
        if wire.len() < HEADER_LENGTH || wire.len() > MAX_MESSAGE_LENGTH {
            return Err(IoFailure::new(IoErrorKind::InvalidInput, "invalid TCP DNS frame length"));
        }
        let mut frame: Vec<u8> = Vec::new();
        push_word(&mut frame, wire.len() as u16);
        push_slice(&mut frame, wire);
        assert(frame@ =~= frame_of(wire@));
        Ok(FrameWriter { frame, offset: 0 })
    }

    /// What is still to be written; nothing once the frame is out.
    pub fn pending(&self) -> (r: &[u8])
        ensures
            r@ == self.frame().skip(self.written()),
    {
        proof {
            use_type_invariant(self);
        }
        let rest = slice_subrange(self.frame.as_slice(), self.offset, self.frame.len());
        assert(rest@ =~= self.frame().skip(self.written()));
        rest
    }

    /// Takes note of a write of `count` octets of what was pending.
    ///
    /// An error may follow a partial write; the caller must discard the stream
    /// rather than restart the frame on it.
    pub fn advance(&mut self, count: usize) -> (r: Result<(), IoFailure>)
        requires
            count <= old(self).frame().len() - old(self).written(),
        ensures
            final(self).frame() == old(self).frame(),
            if count == 0 {
                &&& r is Err
                &&& r->Err_0.says(IoErrorKind::WriteZero, "TCP write returned zero"@)
                &&& final(self).written() == old(self).written()
            } else {
                r is Ok && final(self).written() == old(self).written() + count
            },
    {
        proof {
            use_type_invariant(&*self);
        }
        if count == 0 {
            return Err(IoFailure::new(IoErrorKind::WriteZero, "TCP write returned zero"));
        }
        let size: usize = self.frame.len();
        assert(self.offset + count <= size);
        let offset: usize = self.offset + count;
        self.offset = offset;
        Ok(())
    }
}

/// Octets of a frame that is not yet complete.
pub open spec fn incomplete(received: Seq<u8>) -> bool {
    received.len() < 2 || (HEADER_LENGTH <= bytes::word_at(received, 0) && received.len() < 2
        + bytes::word_at(received, 0))
}

/// How many octets may be read before a frame, or its prefix, is complete.
pub open spec fn missing(received: Seq<u8>) -> int {
    if received.len() < 2 {
        2 - received.len()
    } else {
        2 + bytes::word_at(received, 0) - received.len()
    }
}

/// What has become of a frame after a read.
pub enum FrameView {
    /// The stream ended before a new frame.
    Closed,
    /// More octets are needed.
    Partial(Seq<u8>),
    /// A whole message.
    Complete(Seq<u8>),
    Failed(IoErrorKind, Seq<char>),
}

/// A read of `chunk`; an empty one means that the stream has ended.
pub open spec fn frame_after(received: Seq<u8>, chunk: Seq<u8>) -> FrameView {
    let now = received + chunk;
    if chunk.len() == 0 {
        if received.len() == 0 {
            FrameView::Closed
        } else if received.len() == 2 {
            FrameView::Failed(IoErrorKind::UnexpectedEof, "missing TCP frame body"@)
        } else {
            FrameView::Failed(IoErrorKind::UnexpectedEof, "partial TCP frame"@)
        }
    } else if now.len() >= 2 && bytes::word_at(now, 0) < HEADER_LENGTH {
        FrameView::Failed(IoErrorKind::InvalidData, "TCP DNS frame shorter than header"@)
    } else if incomplete(now) {
        FrameView::Partial(now)
    } else {
        FrameView::Complete(now.skip(2))
    }
}

/// What has become of a frame after a read.
#[derive(Debug)]
pub enum FrameStep {
    Closed,
    Partial,
    Complete(Vec<u8>),
    Failed(IoFailure),
}

/// Reads one length-prefixed DNS message, leaving subsequent frames in the stream.
///
/// Partial progress is kept across socket timeout polls. DNS contents are
/// validated separately at the protocol boundary.
#[derive(Debug)]
pub struct FrameReader {
    received: Vec<u8>,
}

impl View for FrameReader {
    type V = Seq<u8>;

    closed spec fn view(&self) -> Seq<u8> {
        self.received@
    }
}

impl FrameReader {
    #[verifier::type_invariant]
    spec fn well_formed(self) -> bool {
        incomplete(self.received@)
    }

    pub fn new() -> (r: FrameReader)
        ensures
            r@ == Seq::<u8>::empty(),
    {
        FrameReader { received: Vec::new() }
    }

    /// How many octets may be read next without reaching into a later frame.
    pub fn wanted(&self) -> (r: usize)
        ensures
            r == missing(self@),
            r > 0,
            incomplete(self@),
    {
        proof {
            use_type_invariant(self);
        }
        if self.received.len() < 2 {
            2 - self.received.len()
        } else {
            2 + read_word(self.received.as_slice(), 0) as usize - self.received.len()
        }
    }

    /// Takes over a read of at most the wanted octets; an empty one means that
    /// the stream has ended.
    ///
    /// The end before a new frame is no error; anywhere else in a frame it is.
    pub fn receive(&mut self, chunk: &[u8]) -> (r: FrameStep)
        requires
            chunk@.len() <= missing(old(self)@),
        ensures
            match (frame_after(old(self)@, chunk@), r) {
                (FrameView::Closed, FrameStep::Closed) => final(self)@ == old(self)@,
                (FrameView::Partial(held), FrameStep::Partial) => final(self)@ == held,
                (FrameView::Complete(message), FrameStep::Complete(wire)) => wire@ == message
                    && final(self)@ == Seq::<u8>::empty(),
                (FrameView::Failed(kind, text), FrameStep::Failed(failure)) => failure.says(
                    kind,
                    text,
                ) && final(self)@ == old(self)@,
                _ => false,
            },
    {
        proof {
            use_type_invariant(&*self);
        }
        if chunk.len() == 0 {
            if self.received.len() == 0 {
                return FrameStep::Closed;
            }
            if self.received.len() == 2 {
                return FrameStep::Failed(
                    IoFailure::new(IoErrorKind::UnexpectedEof, "missing TCP frame body"),
                );
            }
            return FrameStep::Failed(
                IoFailure::new(IoErrorKind::UnexpectedEof, "partial TCP frame"),
            );
        }
        let ghost before = self.received@;
        let held: usize = self.received.len();
        let mut now: Vec<u8> = Vec::new();
        std::mem::swap(&mut now, &mut self.received);
        push_slice(&mut now, chunk);
        if now.len() < 2 {
            *self = FrameReader { received: now };
            return FrameStep::Partial;
        }
        let length: usize = read_word(now.as_slice(), 0) as usize;
        if length < HEADER_LENGTH {
            now.truncate(held);
            assert(now@ =~= before);
            *self = FrameReader { received: now };
            return FrameStep::Failed(
                IoFailure::new(IoErrorKind::InvalidData, "TCP DNS frame shorter than header"),
            );
        }
        if now.len() < 2 + length {
            *self = FrameReader { received: now };
            return FrameStep::Partial;
        }
        let wire: Vec<u8> = slice_to_vec(slice_subrange(now.as_slice(), 2, now.len()));
        assert(wire@ =~= now@.skip(2));
        *self = FrameReader::new();
        FrameStep::Complete(wire)
    }
}

/// The octets of a frame, however they are cut into reads, lead to its message:
/// every proper part is partial, and the whole is complete and leaves nothing.
pub proof fn framed_message_reads_back(wire: Seq<u8>, received: Seq<u8>, chunk: Seq<u8>)
    requires
        framable(wire.len() as int),
        chunk.len() > 0,
        received + chunk == frame_of(wire).take((received.len() + chunk.len()) as int),
        received.len() + chunk.len() <= frame_of(wire).len(),
    ensures
        received.len() + chunk.len() < frame_of(wire).len() ==> frame_after(received, chunk)
            == FrameView::Partial(received + chunk),
        received.len() + chunk.len() == frame_of(wire).len() ==> frame_after(received, chunk)
            == FrameView::Complete(wire),
{
    let now = received + chunk;
    let whole = frame_of(wire);
    bytes::word_reads_back(wire.len() as u16);
    if now.len() >= 2 {
        assert(now[0] == whole[0] && now[1] == whole[1]);
        assert(whole[0] == bytes::word_bytes(wire.len() as u16)[0]);
        assert(whole[1] == bytes::word_bytes(wire.len() as u16)[1]);
        assert(bytes::word_at(now, 0) == wire.len());
    }
    if now.len() == whole.len() {
        assert(now =~= whole);
        assert(now.skip(2) =~= wire);
    }
}

/// A budget ends its length after it starts, and at most at the end of the clock; a cap
/// ends at the earlier of the two. A budget has lapsed where a shutdown was requested, or
/// else from its end on.
pub proof fn budgets_end_in_time(deadline: Deadline, now: u64, length: u64, stop: bool)
    ensures
        now + length <= u64::MAX ==> Deadline::ending(now, length).at == now + length,
        now + length > u64::MAX ==> Deadline::ending(now, length).at == u64::MAX,
        deadline.within(now, length).at == deadline.at || deadline.within(now, length).at
            == Deadline::ending(now, length).at,
        deadline.within(now, length).at <= deadline.at,
        deadline.within(now, length).at <= Deadline::ending(now, length).at,
        deadline.lapse(now, stop) == Some(Lapse::Cancelled) <==> stop,
        deadline.lapse(now, stop) is None <==> !stop && now < deadline.at,
{
}

/// The frame of a message is its length in two bytes, the upper first, and the message.
pub proof fn frames_are_a_length_and_a_message(wire: Seq<u8>, i: int)
    requires
        framable(wire.len() as int),
        0 <= i < wire.len(),
    ensures
        12 <= wire.len() <= 65535,
        frame_of(wire).len() == wire.len() + 2,
        256 * frame_of(wire)[0] + frame_of(wire)[1] == wire.len(),
        frame_of(wire)[i + 2] == wire[i],
{
}

/// Every message of 12 to 65535 bytes can be framed. A stream that ends between frames is
/// closed, one that ends inside a frame fails, and so does a frame too short for a header.
pub proof fn broken_frames_fail(received: Seq<u8>, chunk: Seq<u8>, length: int)
    ensures
        framable(length) <==> 12 <= length <= 65535,
        frame_after(received, Seq::empty()) is Closed <==> received.len() == 0,
        received.len() > 0 ==> frame_after(received, Seq::empty()) is Failed,
        chunk.len() > 0 && received.len() + chunk.len() >= 2 && bytes::word_at(received + chunk, 0)
            < 12 ==> frame_after(received, chunk) is Failed,
        chunk.len() == 1 && received.len() == 0 ==> frame_after(received, chunk)
            == FrameView::Partial(received + chunk),
{
}

/// A frame misses what is left of its length, and of its two length bytes before.
pub proof fn frames_miss_what_is_left(received: Seq<u8>)
    ensures
        received.len() < 2 ==> missing(received) + received.len() == 2,
        received.len() >= 2 ==> missing(received) + received.len() == 2 + 256 * received[0]
            + received[1],
{
}

} // verus!
