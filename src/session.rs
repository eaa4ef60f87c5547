use vstd::prelude::*;
use crate::key::Key;
use crate::queue::{EventQueue, keys_of};
use crate::bindings::{InputMappingSet, strings_view};
use crate::resolver::{find_mapping, expected_outcome, queue_after, Outcome, Resolution};
use crate::query::{QueryCoordinator, QueryError, QueryStatus};

verus! {

/// What one step of an input session produced.
#[derive(Debug)]
pub enum StepResult {
    /// A binding fired: run these commands; `mode` is the mode they run in.
    Commands { commands: Vec<String>, mode: String },
    /// No binding applies: the key stands for itself.
    SelfInsert(Key),
    /// More input is needed before anything can be decided.
    NeedMore,
    /// The input has ended.
    EndOfInput,
    /// An event that is not a key was passed over.
    Skipped,
    /// The outstanding query was answered with this payload.
    QueryAnswered(Vec<u8>),
    /// The outstanding query got no answer in time.
    QueryTimedOut,
}

/// The resolution state of one input session: the pending events, the
/// active mode and the outstanding terminal query.
pub struct InputSession {
    pub queue: EventQueue,
    pub mode: String,
    pub query: QueryCoordinator,
}

/// Copies a list of strings.
pub fn clone_strings(v: &Vec<String>) -> (r: Vec<String>)
    ensures
        strings_view(r@) == strings_view(v@),
{
    let mut r: Vec<String> = Vec::new();
    let mut i: usize = 0;
    while i < v.len()
        invariant
            i <= v@.len(),
            strings_view(r@) == strings_view(v@.take(i as int)),
        decreases v@.len() - i,
    {
        let s = v[i].clone();
        let ghost before = r@;
        r.push(s);
        assert(strings_view(r@) =~= strings_view(v@.take(i as int + 1))) by {
            assert(r@ == before.push(s));
            assert(v@.take(i as int + 1) =~= v@.take(i as int).push(v@[i as int]));
            assert(strings_view(before.push(s)) =~= strings_view(before).push(s@));
            assert(strings_view(v@.take(i as int).push(v@[i as int])) =~= strings_view(
                v@.take(i as int),
            ).push(v@[i as int]@));
        }
        i = i + 1;
    }
    assert(v@.take(i as int) =~= v@);
    r
}

impl InputSession {
    /// A session with no pending input, no outstanding query, in `mode`.
    pub fn new(mode: String) -> (r: InputSession)
        ensures
            r.queue.wf(),
            r.queue@.events.len() == 0,
            r.mode@ == mode@,
            r.query.pending is None,
    {
        InputSession { queue: EventQueue::new(), mode, query: QueryCoordinator::new() }
    }

    /// Records that query `id` was sent at time `now`; refused while another
    /// query is outstanding.
    pub fn issue_query(&mut self, id: u32, now: u64) -> (r: Result<(), QueryError>)
        ensures
            old(self).query.pending is Some <==> r is Err,
            r is Ok ==> final(self).query.pending is Some && final(self).query.pending->Some_0.id == id,
            r is Err ==> final(self).query == old(self).query,
            final(self).queue == old(self).queue,
            final(self).mode == old(self).mode,
    {
        self.query.issue(id, now)
    }

    /// One step of input handling. While a query is outstanding only its
    /// answer is looked for, and no key is consumed; otherwise one resolution
    /// attempt runs in the active mode, and a binding that fires switches the
    /// session to the mode it names once its commands are handed out.
    pub fn step(&mut self, mappings: &InputMappingSet, stalled: bool) -> (r: StepResult)
        requires
            old(self).queue.wf(),
            mappings.wf(),
        ensures
            final(self).queue.wf(),
            old(self).query.pending is Some ==> {
                &&& final(self).mode == old(self).mode
                &&& keys_of(final(self).queue@.events) == keys_of(old(self).queue@.events)
                &&& final(self).queue@.commit == old(self).queue@.commit
                &&& query_step_matches(
                    r,
                    old(self).query.pending->Some_0.id,
                    old(self).queue@.events,
                    old(self).queue@.commit as int,
                    stalled,
                    final(self).queue@.events,
                )
                &&& (r is NeedMore <==> final(self).query.pending is Some)
            },
            old(self).query.pending is None ==> {
                let o = expected_outcome(old(self).queue@, mappings@, old(self).mode@, stalled);
                &&& final(self).query.pending is None
                &&& final(self).queue@ == queue_after(old(self).queue@, o)
                &&& step_matches(r, o, mappings, *old(self), *final(self))
            },
    {
        if self.query.is_pending() {
            let ghost ev = self.queue@.events;
            let st = self.query.await_response(&mut self.queue, stalled);
            proof {
                if final_answered(&st) {
                    let p = choose|p: int| crate::query::first_answer(ev, old(self).queue@.commit as int,
                        old(self).query.pending->Some_0.id, p) && self.queue@.events == ev.remove(p);
                    crate::query::lemma_remove_non_key(ev, p);
                }
            }
            return match st {
                QueryStatus::Answered(payload) => StepResult::QueryAnswered(payload),
                QueryStatus::TimedOut => StepResult::QueryTimedOut,
                _ => StepResult::NeedMore,
            };
        }
        let res = find_mapping(&mut self.queue, mappings, &self.mode, stalled);
        match res {
            Resolution::Matched(m) => {
                let mapping = mappings.get(m.index);
                let commands = clone_strings(&mapping.commands);
                let mode = self.mode.clone();
                match &mapping.sets_mode {
                    Some(s) => {
                        self.mode = s.clone();
                    },
                    None => {},
                }
                StepResult::Commands { commands, mode }
            },
            Resolution::SelfInsert(k) => StepResult::SelfInsert(k),
            Resolution::NeedMore => StepResult::NeedMore,
            Resolution::EndOfInput => StepResult::EndOfInput,
            Resolution::Skipped => StepResult::Skipped,
        }
    }
}

/// The step result `r` reports the wait for the answer to query `id`, with
/// unconsumed events from `commit` on in `before`, leaving `after`: the first
/// answer is taken out and its payload handed over; without one the wait
/// ends only once `stalled`.
pub open spec fn query_step_matches(
    r: StepResult,
    id: u32,
    before: Seq<crate::queue::Event>,
    commit: int,
    stalled: bool,
    after: Seq<crate::queue::Event>,
) -> bool {
    if crate::query::has_answer(before, commit, id) {
        exists|p: int|
            crate::query::first_answer(before, commit, id, p) && (r matches StepResult::QueryAnswered(payload)
                && before[p] == crate::queue::Event::QueryResponse(id, payload)) && after == before.remove(p)
    } else if stalled {
        r is QueryTimedOut && after == before
    } else {
        r is NeedMore && after == before
    }
}

spec fn final_answered(st: &QueryStatus) -> bool {
    st is Answered
}

/// The step result `r` reports outcome `o` of a resolution attempt made from
/// session `before`, leaving session `after`.
pub open spec fn step_matches(
    r: StepResult,
    o: Outcome,
    mappings: &InputMappingSet,
    before: InputSession,
    after: InputSession,
) -> bool {
    match o {
        Outcome::Match(n) => {
            let keys = crate::queue::key_run(before.queue@.events, before.queue@.commit as int);
            let act = mappings@[(before.mode@, keys.take(n as int))];
            &&& r matches StepResult::Commands { commands, mode } && strings_view(commands@)
                == act.commands && mode@ == before.mode@
            &&& after.mode@ == (match act.sets_mode {
                Some(m) => m,
                None => before.mode@,
            })
        },
        Outcome::SelfInsert(k) => r == StepResult::SelfInsert(k) && after.mode == before.mode,
        Outcome::Wait => r is NeedMore && after.mode == before.mode,
        Outcome::End => r is EndOfInput && after.mode == before.mode,
        Outcome::Skip => r is Skipped && after.mode == before.mode,
    }
}

} // verus!
