//! The decisions of one DirectIP connection, which delivers one mobile
//! originated message.
//!
//! The connection's driver reads bytes and hands them to `Session::receive`,
//! and reports a close or a timeout. The session answers with what to do next:
//! read more, store a decoded message, or close the connection with an error.
//! Each session owns its bytes; nothing is shared between sessions.
use vstd::prelude::*;
use crate::bytes::{get_u16, read16};
use crate::error::SbdError;
use crate::mo::{decode_spec, lemma_round_trip, message_bytes, message_wf, ElementModel, Message,
    MAX_OVERALL_LENGTH};
use crate::mt::PROTOCOL_REVISION;

verus! {

/// Where a session stands.
#[derive(Debug, Clone, Copy, PartialEq, Eq, Structural)]
pub enum Phase {
    AwaitingHeader,
    AccumulatingBody,
    Complete,
    Failed,
}

/// What the driver does next.
#[derive(Debug)]
pub enum Action {
    ReadMore,
    Store(Message),
    Close(SbdError),
}

/// The outcome that the bytes received so far already settle, if any.
pub open spec fn settled(s: Seq<u8>) -> Option<Result<Seq<ElementModel>, SbdError>> {
    if s.len() == 0 {
        None
    } else if s[0] != PROTOCOL_REVISION {
        Some(decode_spec(s))
    } else if s.len() < 3 {
        None
    } else if read16(s, 1) > MAX_OVERALL_LENGTH {
        Some(decode_spec(s))
    } else if s.len() < 3 + read16(s, 1) {
        None
    } else {
        Some(decode_spec(s))
    }
}

/// The phase of a session that has received `s` and is not finished.
pub open spec fn open_phase(s: Seq<u8>) -> Phase {
    if s.len() < 3 {
        Phase::AwaitingHeader
    } else {
        Phase::AccumulatingBody
    }
}

/// One connection's state.
pub struct Session {
    received: Vec<u8>,
    phase: Phase,
}

impl Session {
    pub closed spec fn received_view(&self) -> Seq<u8> {
        self.received@
    }

    pub closed spec fn phase_view(&self) -> Phase {
        self.phase
    }

    pub open spec fn is_open(&self) -> bool {
        self.phase_view() == Phase::AwaitingHeader || self.phase_view() == Phase::AccumulatingBody
    }

    pub fn new() -> (r: Session)
        ensures
            r.received_view() == Seq::<u8>::empty(),
            r.phase_view() == Phase::AwaitingHeader,
    {
        Session { received: Vec::new(), phase: Phase::AwaitingHeader }
    }

    pub fn phase(&self) -> (r: Phase)
        ensures
            r == self.phase_view(),
    {
        self.phase
    }

    pub fn received(&self) -> (r: &[u8])
        ensures
            r@ == self.received_view(),
    {
        self.received.as_slice()
    }

    fn finish(&mut self, r: Result<Message, SbdError>) -> (a: Action)
        ensures
            final(self).received_view() == old(self).received_view(),
            match r {
                Ok(m) => final(self).phase_view() == Phase::Complete && a is Store && a->Store_0@
                    == m@,
                Err(e) => final(self).phase_view() == Phase::Failed && a == Action::Close(e),
            },
    {
        match r {
            Ok(m) => {
                self.phase = Phase::Complete;
                Action::Store(m)
            },
            Err(e) => {
                self.phase = Phase::Failed;
                Action::Close(e)
            },
        }
    }

    /// Takes the bytes that arrived; decodes once the frame is complete, or
    /// fails as soon as the bytes so far cannot start a valid frame.
    pub fn receive(&mut self, chunk: &[u8]) -> (a: Action)
        requires
            old(self).is_open(),
        ensures
            final(self).received_view() == old(self).received_view() + chunk@,
            match settled(final(self).received_view()) {
                None => a is ReadMore && final(self).phase_view() == open_phase(
                    final(self).received_view(),
                ),
                Some(Ok(es)) => a is Store && a->Store_0@ == es && a->Store_0.wf()
                    && final(self).phase_view() == Phase::Complete,
                Some(Err(e)) => a == Action::Close(e) && final(self).phase_view() == Phase::Failed,
            },
    {
        let mut i: usize = 0;
        let ghost start = self.received@;
        while i < chunk.len()
            invariant
                i <= chunk@.len(),
                self.received@ == start + chunk@.subrange(0, i as int),
            decreases chunk@.len() - i,
        {
            self.received.push(chunk[i]);
            assert(chunk@.subrange(0, i + 1) == chunk@.subrange(0, i as int).push(chunk@[i as int]));
            i = i + 1;
        }
        assert(chunk@.subrange(0, chunk@.len() as int) == chunk@);
        let n = self.received.len();
        if n == 0 {
            self.phase = Phase::AwaitingHeader;
            return Action::ReadMore;
        }
        if self.received[0] != PROTOCOL_REVISION {
            let r = Message::decode(self.received.as_slice());
            return self.finish(r);
        }
        if n < 3 {
            self.phase = Phase::AwaitingHeader;
            return Action::ReadMore;
        }
        let overall = get_u16(self.received.as_slice(), 1);
        if overall > MAX_OVERALL_LENGTH || n >= 3 + overall as usize {
            let r = Message::decode(self.received.as_slice());
            return self.finish(r);
        }
        self.phase = Phase::AccumulatingBody;
        Action::ReadMore
    }

    /// The peer closed the connection: what it sent is all there is.
    pub fn close(&mut self) -> (a: Action)
        requires
            old(self).is_open(),
        ensures
            final(self).received_view() == old(self).received_view(),
            match decode_spec(old(self).received_view()) {
                Ok(es) => a is Store && a->Store_0@ == es && a->Store_0.wf()
                    && final(self).phase_view() == Phase::Complete,
                Err(e) => a == Action::Close(e) && final(self).phase_view() == Phase::Failed,
            },
    {
        let r = Message::decode(self.received.as_slice());
        self.finish(r)
    }

    /// The connection was idle too long, or the stream failed.
    pub fn abort(&mut self) -> (a: Action)
        ensures
            final(self).received_view() == old(self).received_view(),
            final(self).phase_view() == Phase::Failed,
            a == Action::Close(SbdError::Io),
    {
        self.phase = Phase::Failed;
        Action::Close(SbdError::Io)
    }
}

proof fn lemma_frame_prefix(s: Seq<u8>, k: int)
    requires
        s.len() >= 3,
        s[0] == PROTOCOL_REVISION,
        read16(s, 1) <= MAX_OVERALL_LENGTH,
        s.len() == 3 + read16(s, 1),
        0 <= k < s.len(),
    ensures
        settled(s) == Some(decode_spec(s)),
        settled(s.subrange(0, k)) is None,
        decode_spec(s.subrange(0, k)) == Err::<Seq<ElementModel>, SbdError>(
            SbdError::Undersized(k as usize),
        ),
{
    let p = s.subrange(0, k);
    if k >= 1 {
        assert(p[0] == s[0]);
    }
    if k >= 3 {
        assert(p[1] == s[1]);
        assert(p[2] == s[2]);
        assert(read16(p, 1) == read16(s, 1));
    }
}

/// A session that receives the whole frame of a well-formed message completes
/// with that message; one whose peer closes after only part of the frame fails
/// with `Undersized`, carrying the number of bytes it did receive.
pub proof fn lemma_session_outcomes(es: Seq<ElementModel>, k: int)
    requires
        message_wf(es),
        0 <= k < message_bytes(es).len(),
    ensures
        settled(message_bytes(es)) == Some(Ok::<Seq<ElementModel>, SbdError>(es)),
        settled(message_bytes(es).subrange(0, k)) is None,
        decode_spec(message_bytes(es).subrange(0, k)) == Err::<Seq<ElementModel>, SbdError>(
            SbdError::Undersized(k as usize),
        ),
{
    lemma_round_trip(es);
    lemma_frame_prefix(message_bytes(es), k);
}

} // verus!
