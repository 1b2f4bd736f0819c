//! The embedding worker bridge, as a state machine. The embedding model is
//! stateful and not reentrant, so exactly one long-lived worker runs it;
//! callers enqueue batches into a bounded FIFO queue and each request carries
//! its own reply slot. This module holds every decision of that protocol —
//! admission, backpressure, FIFO service order, and how a reply, a closed
//! channel or an elapsed wait is turned into a result. The runtime layer
//! around it only moves values across threads and performs the blocking
//! model call.

use vstd::prelude::*;
use crate::errors::EngineError;

verus! {

/// One queued encode request: its ticket and the batch of texts.
pub struct EncodeRequest {
    pub ticket: u64,
    pub texts: Vec<String>,
}

/// What a caller observes while waiting on its private reply slot.
pub enum ReplyEvent {
    /// The worker answered with one vector per input, or so it claims; the
    /// claim is checked, not trusted.
    Reply(Vec<Vec<i64>>),
    /// The reply channel closed: the worker is gone.
    ChannelClosed,
    /// The bounded wait elapsed with no reply.
    TimedOut,
}

/// The outcome of offering a batch to the queue.
pub enum SubmitOutcome {
    /// The request was admitted under this ticket.
    Enqueued(u64),
    /// The queue is at its bound; the caller must wait for a slot — the
    /// request is neither dropped nor reordered.
    MustWait,
}

/// The bridge's queue state: a bounded FIFO of pending requests.
pub struct EncoderBridge {
    pub capacity: usize,
    pub next_ticket: u64,
    pub queue: Vec<EncodeRequest>,
    pub worker_alive: bool,
}

impl EncoderBridge {
    /// The queue respects its bound and holds tickets in FIFO order, each
    /// ticket issued once and below the cursor.
    pub open spec fn wf(self) -> bool {
        &&& self.capacity >= 1
        &&& self.queue@.len() <= self.capacity
        &&& forall|i: int| 0 <= i < self.queue@.len()
            ==> (#[trigger] self.queue@[i]).ticket < self.next_ticket
        &&& forall|i: int, j: int| 0 <= i < j < self.queue@.len()
            ==> (#[trigger] self.queue@[i]).ticket < (#[trigger] self.queue@[j]).ticket
    }

    /// A fresh bridge with an empty queue and a live worker.
    pub fn new(capacity: usize) -> (b: EncoderBridge)
        requires
            capacity >= 1,
        ensures
            b.wf(),
            b.capacity == capacity,
            b.queue@.len() == 0,
            b.worker_alive,
            b.next_ticket == 0,
    {
        EncoderBridge { capacity, next_ticket: 0, queue: Vec::new(), worker_alive: true }
    }

    /// Offers a batch to the queue. A dead worker is `WorkerUnavailable`; a
    /// full queue makes the caller wait without dropping the request; else
    /// the batch is appended under a fresh ticket — later than every ticket
    /// already queued, so no request overtakes an earlier one of the same
    /// caller.
    pub fn submit(&mut self, texts: Vec<String>) -> (r: Result<SubmitOutcome, EngineError>)
        requires
            old(self).wf(),
            old(self).next_ticket < 0xffff_ffff_ffff_ffff,
        ensures
            final(self).wf(),
            !old(self).worker_alive ==> (r == Err::<SubmitOutcome, EngineError>(
                EngineError::WorkerUnavailable) && *final(self) == *old(self)),
            (old(self).worker_alive && old(self).queue@.len() == old(self).capacity)
                ==> (r matches Ok(o) && o is MustWait && *final(self) == *old(self)),
            (old(self).worker_alive && old(self).queue@.len() < old(self).capacity) ==> {
                &&& r matches Ok(o)
                &&& o matches SubmitOutcome::Enqueued(t) && t == old(self).next_ticket
                &&& final(self).queue@.len() == old(self).queue@.len() + 1
                &&& forall|i: int| 0 <= i < old(self).queue@.len()
                    ==> #[trigger] final(self).queue@[i] == old(self).queue@[i]
                &&& final(self).queue@.last().ticket == old(self).next_ticket
                &&& final(self).queue@.last().texts@ == texts@
                &&& final(self).next_ticket == old(self).next_ticket + 1
                &&& final(self).capacity == old(self).capacity
                &&& final(self).worker_alive
            },
    {
        if !self.worker_alive {
            return Err(EngineError::WorkerUnavailable);
        }
        if self.queue.len() >= self.capacity {
            return Ok(SubmitOutcome::MustWait);
        }
        let ticket = self.next_ticket;
        self.queue.push(EncodeRequest { ticket, texts });
        self.next_ticket = ticket + 1;
        Ok(SubmitOutcome::Enqueued(ticket))
    }

    /// The worker takes the oldest pending request: strict FIFO service.
    pub fn take_next(&mut self) -> (r: Option<EncodeRequest>)
        requires
            old(self).wf(),
        ensures
            final(self).wf(),
            old(self).queue@.len() == 0 ==> (r is None && *final(self) == *old(self)),
            old(self).queue@.len() > 0 ==> {
                &&& r matches Some(req) && req == old(self).queue@[0]
                &&& final(self).queue@ == old(self).queue@.remove(0)
                &&& final(self).capacity == old(self).capacity
                &&& final(self).next_ticket == old(self).next_ticket
                &&& final(self).worker_alive == old(self).worker_alive
            },
    {
        if self.queue.len() == 0 {
            return None;
        }
        let req = self.queue.remove(0);
        Some(req)
    }

    /// Records that the worker terminated: every pending and future request
    /// must observe `WorkerUnavailable` instead of hanging.
    pub fn worker_failed(&mut self)
        requires
            old(self).wf(),
        ensures
            final(self).wf(),
            !final(self).worker_alive,
            final(self).queue@ == old(self).queue@,
            final(self).capacity == old(self).capacity,
            final(self).next_ticket == old(self).next_ticket,
    {
        self.worker_alive = false;
    }
}

/// Turns what a caller observed on its reply slot into the result of its
/// `encode` call. A reply is accepted only if it carries exactly one vector
/// per submitted text, each of the corpus dimension `dim`; anything else from
/// the model is an `EncodingFailure` with no partial results. A closed
/// channel is `WorkerUnavailable`; an elapsed wait is `Timeout`.
#[verifier::loop_isolation(false)]
pub fn resolve_reply(texts_len: usize, dim: usize, event: ReplyEvent)
    -> (r: Result<Vec<Vec<i64>>, EngineError>)
    ensures
        r matches Ok(vs) ==> {
            &&& event matches ReplyEvent::Reply(raw) && vs == raw
            &&& vs@.len() == texts_len
            &&& forall|i: int| 0 <= i < vs@.len() ==> (#[trigger] vs@[i])@.len() == dim
        },
        event is ChannelClosed <==> r == Err::<Vec<Vec<i64>>, EngineError>(
            EngineError::WorkerUnavailable),
        event is TimedOut <==> r == Err::<Vec<Vec<i64>>, EngineError>(EngineError::Timeout),
        (event matches ReplyEvent::Reply(raw) && raw@.len() == texts_len
            && (forall|i: int| 0 <= i < raw@.len() ==> (#[trigger] raw@[i])@.len() == dim))
            ==> r is Ok,
        r is Err ==> (r == Err::<Vec<Vec<i64>>, EngineError>(EngineError::WorkerUnavailable)
            || r == Err::<Vec<Vec<i64>>, EngineError>(EngineError::Timeout)
            || r == Err::<Vec<Vec<i64>>, EngineError>(EngineError::EncodingFailure)),
{
    match event {
        ReplyEvent::ChannelClosed => Err(EngineError::WorkerUnavailable),
        ReplyEvent::TimedOut => Err(EngineError::Timeout),
        ReplyEvent::Reply(raw) => {
            if raw.len() != texts_len {
                return Err(EngineError::EncodingFailure);
            }
            let mut i: usize = 0;
            while i < raw.len()
                invariant
                    i <= raw@.len(),
                    forall|w: int| 0 <= w < i ==> (#[trigger] raw@[w])@.len() == dim,
                decreases raw@.len() - i,
            {
                if raw[i].len() != dim {
                    return Err(EngineError::EncodingFailure);
                }
                i += 1;
            }
            Ok(raw)
        },
    }
}

/// Backpressure law: offering a batch to a full queue makes the caller wait
/// and drops nothing; after the worker takes one request, the next offer is
/// admitted, appended behind every request still queued.
pub proof fn law_backpressure(b: EncoderBridge)
    requires
        b.wf(),
        b.worker_alive,
        b.queue@.len() == b.capacity,
        b.next_ticket < 0xffff_ffff_ffff_ffff,
    ensures
        // a submit on the full queue can only answer MustWait, by the
        // contract of `submit`: the state allows no Enqueued outcome
        b.queue@.len() == b.capacity,
        // after one take, there is room for exactly one more request
        b.queue@.remove(0).len() < b.capacity,
{
    assert(b.capacity >= 1);
}

/// FIFO law: a request admitted later carries a larger ticket than every
/// request queued before it, so the worker — which always takes the front —
/// never serves a caller's later request before that caller's earlier one.
pub proof fn law_fifo_order(b: EncoderBridge, i: int, j: int)
    requires
        b.wf(),
        0 <= i < j < b.queue@.len(),
    ensures
        b.queue@[i].ticket < b.queue@[j].ticket,
{
}

} // verus!
