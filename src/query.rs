use vstd::prelude::*;
use crate::queue::{Event, EventQueue, key_of, keys_of};

verus! {

/// A terminal query that awaits its answer.
#[derive(Clone, Copy, Debug, PartialEq, Eq, Structural)]
pub struct PendingQuery {
    pub id: u32,
    pub issued_at: u64,
}

/// Why a query could not be issued.
#[derive(Clone, Copy, Debug, PartialEq, Eq, Structural)]
pub enum QueryError {
    /// Another query is still waiting for its answer.
    AlreadyPending,
}

/// What waiting on the outstanding query came to.
#[derive(Debug)]
pub enum QueryStatus {
    /// No query is outstanding.
    NoQuery,
    /// The answer arrived, with this payload.
    Answered(Vec<u8>),
    /// The wait ended without an answer.
    TimedOut,
    /// Still waiting.
    Waiting,
}

/// The event answers the query with identifier `id`.
pub open spec fn answers(e: Event, id: u32) -> bool {
    e matches Event::QueryResponse(rid, _) && rid == id
}

/// `p` is the first position at or after `start` whose event answers `id`.
pub open spec fn first_answer(events: Seq<Event>, start: int, id: u32, p: int) -> bool {
    &&& start <= p < events.len()
    &&& answers(events[p], id)
    &&& forall|j: int| start <= j < p ==> !answers(#[trigger] events[j], id)
}

/// Some event at or after `start` answers `id`.
pub open spec fn has_answer(events: Seq<Event>, start: int, id: u32) -> bool {
    exists|p: int| start <= p < events.len() && answers(#[trigger] events[p], id)
}

/// Tracks the one terminal query that may be outstanding at a time.
pub struct QueryCoordinator {
    pub pending: Option<PendingQuery>,
}

impl QueryCoordinator {
    /// A coordinator with no query outstanding.
    pub fn new() -> (r: QueryCoordinator)
        ensures
            r.pending is None,
    {
        QueryCoordinator { pending: None }
    }

    /// Whether a query is outstanding.
    pub fn is_pending(&self) -> (r: bool)
        ensures
            r == self.pending is Some,
    {
        self.pending.is_some()
    }

    /// Whether the outstanding query has waited `timeout` or longer at time
    /// `now`; false when no query is outstanding.
    pub fn is_expired(&self, now: u64, timeout: u64) -> (r: bool)
        ensures
            r == (self.pending matches Some(q) && now as int >= q.issued_at as int + timeout as int),
    {
        match self.pending {
            Some(q) => now >= q.issued_at && now - q.issued_at >= timeout,
            None => false,
        }
    }

    /// Records that query `id` was sent at time `now`. Refused while another
    /// query is outstanding, in which case nothing changes.
    pub fn issue(&mut self, id: u32, now: u64) -> (r: Result<(), QueryError>)
        ensures
            old(self).pending is Some <==> r == Err::<(), QueryError>(QueryError::AlreadyPending),
            old(self).pending is Some ==> final(self).pending == old(self).pending,
            old(self).pending is None ==> r is Ok,
            old(self).pending is None ==> final(self).pending == Some(PendingQuery { id, issued_at: now }),
    {
        if self.pending.is_some() {
            return Err(QueryError::AlreadyPending);
        }
        self.pending = Some(PendingQuery { id, issued_at: now });
        Ok(())
    }

    /// Looks through the unconsumed events for the answer to the outstanding
    /// query. The first answer found is taken out of the queue and ends the
    /// query; every other event stays where it is. Without an answer the
    /// query ends once `timed_out` is set, and is still waited on otherwise.
    pub fn await_response(&mut self, queue: &mut EventQueue, timed_out: bool) -> (r: QueryStatus)
        requires
            old(queue).wf(),
        ensures
            final(queue).wf(),
            old(self).pending is None ==> r is NoQuery && final(self).pending is None && final(queue)@ == old(
                queue,
            )@,
            old(self).pending matches Some(q) ==> {
                let ev = old(queue)@.events;
                let c = old(queue)@.commit as int;
                if has_answer(ev, c, q.id) {
                    exists|p: int|
                        first_answer(ev, c, q.id, p) && (r matches QueryStatus::Answered(payload)
                            && ev[p] == Event::QueryResponse(q.id, payload)) && final(queue)@.events
                            == ev.remove(p) && final(queue)@.commit == c && final(queue)@.peek == c
                            && final(self).pending is None
                } else if timed_out {
                    r is TimedOut && final(self).pending is None && final(queue)@ == old(queue)@
                } else {
                    r is Waiting && final(self).pending == old(self).pending && final(queue)@ == old(
                        queue,
                    )@
                }
            },
    {
        let q = match self.pending {
            Some(q) => q,
            None => {
                return QueryStatus::NoQuery;
            },
        };
        let n = queue.len();
        let c = queue.commit_cursor();
        let mut i: usize = c;
        while i < n
            invariant
                queue.wf(),
                queue@ == old(queue)@,
                self.pending == old(self).pending,
                old(self).pending == Some(q),
                n == queue@.events.len(),
                c == queue@.commit,
                c <= i <= n,
                forall|j: int| c <= j < i ==> !answers(#[trigger] queue@.events[j], q.id),
            decreases n - i,
        {
            let is_answer = match queue.peek_event(i) {
                Event::QueryResponse(rid, _) => *rid == q.id,
                _ => false,
            };
            if is_answer {
                let ghost ev = queue@.events;
                let e = queue.remove_at(i);
                self.pending = None;
                match e {
                    Event::QueryResponse(_, payload) => {
                        assert(first_answer(ev, c as int, q.id, i as int));
                        return QueryStatus::Answered(payload);
                    },
                    _ => {
                        return QueryStatus::Waiting;
                    },
                }
            }
            i = i + 1;
        }
        if timed_out {
            self.pending = None;
            QueryStatus::TimedOut
        } else {
            QueryStatus::Waiting
        }
    }
}

/// Taking an event that is not a key out of a sequence of events leaves the
/// keys it holds, and their order, as they were.
pub proof fn lemma_remove_non_key(events: Seq<Event>, p: int)
    requires
        0 <= p < events.len(),
        key_of(events[p]) is None,
    ensures
        keys_of(events.remove(p)) == keys_of(events),
    decreases events.len(),
{
    if p > 0 {
        lemma_remove_non_key(events.drop_first(), p - 1);
        assert(events.remove(p).drop_first() =~= events.drop_first().remove(p - 1));
        assert(events.remove(p)[0] == events[0]);
    } else {
        assert(events.remove(p) =~= events.drop_first());
    }
}

} // verus!
