use vstd::prelude::*;
use crate::key::Key;
use crate::queue::{Event, EventQueue, QueueView, key_run, key_of};
use crate::bindings::{InputMappingSet, MappingKey, MappingView, is_prefix, common_prefix_len};

verus! {

/// What one resolution attempt decides, in abstract terms.
pub enum Outcome {
    /// The binding of the first `n` keys fires.
    Match(nat),
    /// No binding applies: the first key stands for itself.
    SelfInsert(Key),
    /// A longer binding may still complete: wait for more input.
    Wait,
    /// The input has ended.
    End,
    /// An event that is not a key was passed over.
    Skip,
}

/// The length of the longest prefix of `keys`, at most `j` keys long, that is
/// bound in `mode`; 0 when none is.
pub open spec fn longest_bound(
    t: Map<MappingKey, MappingView>,
    mode: Seq<char>,
    keys: Seq<Key>,
    j: nat,
) -> nat
    decreases j,
{
    if j == 0 {
        0
    } else if t.contains_key((mode, keys.take(j as int))) {
        j
    } else {
        longest_bound(t, mode, keys, (j - 1) as nat)
    }
}

/// Some binding of `mode` is strictly longer than `keys` and starts with them.
pub open spec fn may_extend(t: Map<MappingKey, MappingView>, mode: Seq<char>, keys: Seq<Key>) -> bool {
    exists|s: Seq<Key>| #[trigger] t.contains_key((mode, s)) && keys.len() < s.len() && is_prefix(keys, s)
}

/// The decision on a non-empty run of keys. `more_possible` says whether
/// further keys may still arrive to extend the run.
pub open spec fn resolve_keys(
    t: Map<MappingKey, MappingView>,
    mode: Seq<char>,
    keys: Seq<Key>,
    more_possible: bool,
) -> Outcome {
    if more_possible && may_extend(t, mode, keys) {
        Outcome::Wait
    } else if longest_bound(t, mode, keys, keys.len()) > 0 {
        Outcome::Match(longest_bound(t, mode, keys, keys.len()))
    } else {
        Outcome::SelfInsert(keys[0])
    }
}

/// The decision of a resolution attempt on queue `q` in `mode`. Further keys
/// may arrive only when the run of keys reaches the end of the buffer and the
/// wait for input has not `stalled`.
pub open spec fn expected_outcome(
    q: QueueView,
    t: Map<MappingKey, MappingView>,
    mode: Seq<char>,
    stalled: bool,
) -> Outcome {
    let keys = key_run(q.events, q.commit as int);
    if keys.len() == 0 {
        if q.commit < q.events.len() {
            if q.events[q.commit as int] is Eof {
                Outcome::End
            } else {
                Outcome::Skip
            }
        } else {
            Outcome::Wait
        }
    } else {
        resolve_keys(t, mode, keys, !stalled && q.commit + keys.len() == q.events.len())
    }
}

/// How many events an outcome consumes.
pub open spec fn consumed(o: Outcome) -> nat {
    match o {
        Outcome::Match(n) => n,
        Outcome::Wait => 0,
        _ => 1,
    }
}

/// The queue after an attempt on `q` decided `o`: a wait leaves the keys
/// looked at uncommitted, any other decision commits what it consumed.
pub open spec fn queue_after(q: QueueView, o: Outcome) -> QueueView {
    if o is Wait {
        q.restarted().advanced(key_run(q.events, q.commit as int).len())
    } else {
        q.restarted().advanced(consumed(o)).committed()
    }
}

/// A binding that fired: its position in the table and how many keys it
/// consumed.
#[derive(Clone, Copy, Debug, PartialEq, Eq, Structural)]
pub struct MappingMatch {
    pub index: usize,
    pub len: usize,
}

/// The result of one resolution attempt.
#[derive(Clone, Copy, Debug, PartialEq, Eq, Structural)]
pub enum Resolution {
    Matched(MappingMatch),
    SelfInsert(Key),
    NeedMore,
    EndOfInput,
    Skipped,
}

impl Resolution {
    pub open spec fn outcome(self) -> Outcome {
        match self {
            Resolution::Matched(m) => Outcome::Match(m.len as nat),
            Resolution::SelfInsert(k) => Outcome::SelfInsert(k),
            Resolution::NeedMore => Outcome::Wait,
            Resolution::EndOfInput => Outcome::End,
            Resolution::Skipped => Outcome::Skip,
        }
    }
}

proof fn lemma_key_run_step(events: Seq<Event>, s: int)
    requires
        0 <= s < events.len(),
    ensures
        key_of(events[s]) is Some ==> key_run(events, s) == seq![key_of(events[s])->Some_0] + key_run(events, s + 1),
        key_of(events[s]) is None ==> key_run(events, s) == Seq::<Key>::empty(),
{
}

proof fn lemma_longest_bound(t: Map<MappingKey, MappingView>, mode: Seq<char>, keys: Seq<Key>, j: nat, b: nat)
    requires
        b <= j,
        b == 0 || t.contains_key((mode, keys.take(b as int))),
        forall|x: nat| b < x <= j ==> !t.contains_key((mode, #[trigger] keys.take(x as int))),
    ensures
        longest_bound(t, mode, keys, j) == b,
    decreases j,
{
    if j > b {
        assert(!t.contains_key((mode, keys.take(j as int))));
        lemma_longest_bound(t, mode, keys, (j - 1) as nat, b);
    }
}

/// Runs one resolution attempt from the commit cursor of `queue`, against
/// the bindings of `mode`. The longest bound prefix of the pending keys wins;
/// while a longer binding could still complete and `stalled` is false, the
/// attempt waits for more input instead.
pub fn find_mapping(
    queue: &mut EventQueue,
    mappings: &InputMappingSet,
    mode: &String,
    stalled: bool,
) -> (r: Resolution)
    requires
        old(queue).wf(),
        mappings.wf(),
    ensures
        final(queue).wf(),
        r.outcome() == expected_outcome(old(queue)@, mappings@, mode@, stalled),
        final(queue)@ == queue_after(old(queue)@, r.outcome()),
        r matches Resolution::Matched(m) ==> m.index < mappings.spec_len() && mappings.key_at(
            m.index as int,
        ) == (mode@, key_run(old(queue)@.events, old(queue)@.commit as int).take(m.len as int)),
{
    queue.restart();
    let ghost q0 = queue@;
    let ghost events = q0.events;
    let ghost start = q0.commit as int;
    let _total = queue.len();
    let mut keys: Vec<Key> = Vec::new();
    let mut offset: usize = 0;
    loop
        invariant
            queue.wf(),
            0 <= start,
            start == q0.commit,
            q0.peek == q0.commit,
            events == q0.events,
            events.len() <= usize::MAX,
            queue@ == q0,
            q0 == old(queue)@.restarted(),
            start + offset <= events.len(),
            keys@.len() == offset,
            keys@ + key_run(events, start + offset) == key_run(events, start),
        ensures
            queue.wf(),
            queue@ == q0,
            start + offset <= events.len(),
            keys@.len() == offset,
            keys@ + key_run(events, start + offset) == key_run(events, start),
            key_run(events, start + offset) == Seq::<Key>::empty(),
        decreases events.len() - start - offset,
    {
        let e = queue.peek_at(offset);
        proof {
            if start + offset < events.len() {
                lemma_key_run_step(events, start + offset);
            }
        }
        let next = match e {
            Some(ev) => ev.key(),
            None => None,
        };
        match next {
            Some(k) => {
                let ghost before = keys@;
                keys.push(k);
                assert(keys@ + key_run(events, start + offset + 1) =~= before + (seq![k] + key_run(
                    events,
                    start + offset + 1,
                )));
                offset = offset + 1;
            },
            None => {
                break ;
            },
        }
    }
    let ghost run = key_run(events, start);
    assert(keys@ =~= run);
    if keys.len() == 0 {
        let e = queue.peek_at(0);
        match e {
            Some(Event::Eof) => {
                queue.advance_peek(1);
                queue.commit();
                return Resolution::EndOfInput;
            },
            Some(_) => {
                queue.advance_peek(1);
                queue.commit();
                return Resolution::Skipped;
            },
            None => {
                return Resolution::NeedMore;
            },
        }
    }
    let mut best_len: usize = 0;
    let mut best_idx: usize = 0;
    let mut ext = false;
    let n = mappings.len();
    let mut i: usize = 0;
    while i < n
        invariant
            mappings.wf(),
            n == mappings.spec_len(),
            i <= n,
            keys@ == run,
            run.len() > 0,
            best_len <= run.len(),
            best_len > 0 ==> best_idx < i && mappings.key_at(best_idx as int) == (mode@, run.take(best_len as int)),
            forall|j: int| 0 <= j < i && (#[trigger] mappings.key_at(j)).0 == mode@
                && is_prefix(mappings.key_at(j).1, run) ==> mappings.key_at(j).1.len() <= best_len,
            ext == exists|j: int| 0 <= j < i && (#[trigger] mappings.key_at(j)).0 == mode@
                && run.len() < mappings.key_at(j).1.len() && is_prefix(run, mappings.key_at(j).1),
        decreases n - i,
    {
        let m = mappings.get(i);
        if m.mode == *mode {
            let c = common_prefix_len(&m.seq, &keys);
            proof {
                if c < keys@.len() && c < m.seq@.len() {
                    if is_prefix(run, m.seq@) {
                        assert(m.seq@.take(run.len() as int)[c as int] == run[c as int]);
                    }
                    if is_prefix(m.seq@, run) {
                        assert(run.take(m.seq@.len() as int)[c as int] == m.seq@[c as int]);
                    }
                }
                if c == m.seq@.len() {
                    assert(m.seq@.take(c as int) =~= m.seq@);
                }
                if c == keys@.len() {
                    assert(keys@.take(c as int) =~= keys@);
                }
            }
            if c == m.seq.len() && c > best_len {
                best_len = c;
                best_idx = i;
            }
            if c == keys.len() && m.seq.len() > keys.len() {
                ext = true;
            }
        }
        i = i + 1;
    }
    let ghost t = mappings@;
    proof {
        mappings.lemma_model();
        assert(ext == may_extend(t, mode@, run)) by {
            if may_extend(t, mode@, run) {
                let s = choose|s: Seq<Key>| #[trigger] t.contains_key((mode@, s)) && run.len() < s.len() && is_prefix(run, s);
                let j = choose|j: int| 0 <= j < mappings.spec_len() && #[trigger] mappings.key_at(j) == (mode@, s);
                assert(mappings.key_at(j).0 == mode@);
            }
            if ext {
                let j = choose|j: int| 0 <= j < i && (#[trigger] mappings.key_at(j)).0 == mode@
                    && run.len() < mappings.key_at(j).1.len() && is_prefix(run, mappings.key_at(j).1);
                assert(t.contains_key((mode@, mappings.key_at(j).1)));
            }
        }
        assert forall|x: nat| best_len < x <= run.len() implies !t.contains_key((mode@, #[trigger] run.take(x as int))) by {
            if t.contains_key((mode@, run.take(x as int))) {
                let j = choose|j: int| 0 <= j < mappings.spec_len() && #[trigger] mappings.key_at(j) == (mode@, run.take(x as int));
                assert(is_prefix(mappings.key_at(j).1, run));
            }
        }
        if best_len > 0 {
            assert(t.contains_key(mappings.key_at(best_idx as int)));
        }
        lemma_longest_bound(t, mode@, run, run.len(), best_len as nat);
    }
    let more_possible = !stalled && queue.peek_at(keys.len()).is_none();
    if more_possible && ext {
        queue.advance_peek(keys.len());
        return Resolution::NeedMore;
    }
    if best_len > 0 {
        queue.advance_peek(best_len);
        queue.commit();
        Resolution::Matched(MappingMatch { index: best_idx, len: best_len })
    } else {
        let k = keys[0];
        queue.advance_peek(1);
        queue.commit();
        Resolution::SelfInsert(k)
    }
}

} // verus!
