//! Properties of resolution that hold for every table, mode and input.

use vstd::prelude::*;
use crate::key::Key;
use crate::queue::{QueueView, key_run};
use crate::bindings::{MappingKey, MappingView, is_prefix};
use crate::resolver::{Outcome, expected_outcome, may_extend, longest_bound, resolve_keys, queue_after};

verus! {

proof fn lemma_full_take(s: Seq<Key>)
    ensures
        s.take(s.len() as int) == s,
{
    assert(s.take(s.len() as int) =~= s);
}

/// When the pending keys are exactly a bound sequence, that sequence is the
/// longest bound prefix.
proof fn lemma_whole_run_bound(t: Map<MappingKey, MappingView>, mode: Seq<char>, keys: Seq<Key>)
    requires
        keys.len() > 0,
        t.contains_key((mode, keys)),
    ensures
        longest_bound(t, mode, keys, keys.len()) == keys.len(),
{
    lemma_full_take(keys);
}

/// When `a` is bound in `mode` and is a strict prefix of `b`, also bound
/// there, feeding exactly the keys of `b` fires `b`, whichever of the two was
/// registered first: unless a third binding could still extend `b` and the
/// wait for input has not stalled, the result is the match of all of `b`.
pub proof fn lemma_longest_match_wins(
    t: Map<MappingKey, MappingView>,
    mode: Seq<char>,
    a: Seq<Key>,
    va: MappingView,
    b: Seq<Key>,
    vb: MappingView,
    q: QueueView,
    stalled: bool,
)
    requires
        q.wf(),
        a.len() > 0,
        a.len() < b.len(),
        is_prefix(a, b),
        key_run(q.events, q.commit as int) == b,
        stalled || !may_extend(t, mode, b),
    ensures
        expected_outcome(q, t.insert((mode, a), va).insert((mode, b), vb), mode, stalled)
            == Outcome::Match(b.len()),
        expected_outcome(q, t.insert((mode, b), vb).insert((mode, a), va), mode, stalled)
            == Outcome::Match(b.len()),
{
    let t1 = t.insert((mode, a), va).insert((mode, b), vb);
    let t2 = t.insert((mode, b), vb).insert((mode, a), va);
    assert(a != b);
    lemma_whole_run_bound(t1, mode, b);
    lemma_whole_run_bound(t2, mode, b);
    if !stalled {
        assert(!may_extend(t1, mode, b)) by {
            if may_extend(t1, mode, b) {
                let s = choose|s: Seq<Key>| #[trigger] t1.contains_key((mode, s)) && b.len() < s.len() && is_prefix(b, s);
                assert(t.contains_key((mode, s)));
            }
        }
        assert(!may_extend(t2, mode, b)) by {
            if may_extend(t2, mode, b) {
                let s = choose|s: Seq<Key>| #[trigger] t2.contains_key((mode, s)) && b.len() < s.len() && is_prefix(b, s);
                assert(t.contains_key((mode, s)));
            }
        }
    }
}

/// When `a` is bound in `mode` and no longer binding there starts with it,
/// feeding exactly the keys of `a` fires `a` at once, without waiting.
pub proof fn lemma_unambiguous_match(t: Map<MappingKey, MappingView>, mode: Seq<char>, a: Seq<Key>, q: QueueView)
    requires
        q.wf(),
        t.contains_key((mode, a)),
        !may_extend(t, mode, a),
        key_run(q.events, q.commit as int) == a,
        a.len() > 0,
    ensures
        expected_outcome(q, t, mode, false) == Outcome::Match(a.len()),
{
    lemma_whole_run_bound(t, mode, a);
}

/// When no binding of `mode` starts with the first pending key, that key
/// stands for itself and is the only event consumed; the keys after it are
/// left for the next attempt.
pub proof fn lemma_fallback(t: Map<MappingKey, MappingView>, mode: Seq<char>, q: QueueView, stalled: bool)
    requires
        q.wf(),
        key_run(q.events, q.commit as int).len() > 0,
        forall|s: Seq<Key>| #[trigger] t.contains_key((mode, s)) && s.len() > 0
            ==> s[0] != key_run(q.events, q.commit as int)[0],
    ensures
        expected_outcome(q, t, mode, stalled) == Outcome::SelfInsert(key_run(q.events, q.commit as int)[0]),
        queue_after(q, expected_outcome(q, t, mode, stalled)).commit == q.commit + 1,
        queue_after(q, expected_outcome(q, t, mode, stalled)).events == q.events,
{
    let keys = key_run(q.events, q.commit as int);
    assert(!may_extend(t, mode, keys)) by {
        if may_extend(t, mode, keys) {
            let s = choose|s: Seq<Key>| #[trigger] t.contains_key((mode, s)) && keys.len() < s.len() && is_prefix(keys, s);
            assert(s.take(keys.len() as int)[0] == s[0]);
        }
    }
    lemma_no_bound_prefix(t, mode, keys, keys.len());
}

proof fn lemma_no_bound_prefix(t: Map<MappingKey, MappingView>, mode: Seq<char>, keys: Seq<Key>, j: nat)
    requires
        j <= keys.len(),
        keys.len() > 0,
        forall|s: Seq<Key>| #[trigger] t.contains_key((mode, s)) && s.len() > 0 ==> s[0] != keys[0],
    ensures
        longest_bound(t, mode, keys, j) == 0,
    decreases j,
{
    if j > 0 {
        assert(keys.take(j as int)[0] == keys[0]);
        lemma_no_bound_prefix(t, mode, keys, (j - 1) as nat);
    }
}

/// When `a` is bound in `mode` and a longer binding `b` there starts with
/// it, feeding exactly the keys of `a` waits while more input may come, and
/// fires `a` once the wait has stalled.
pub proof fn lemma_timeout_takes_exact_match(
    t: Map<MappingKey, MappingView>,
    mode: Seq<char>,
    a: Seq<Key>,
    b: Seq<Key>,
    q: QueueView,
)
    requires
        q.wf(),
        t.contains_key((mode, a)),
        t.contains_key((mode, b)),
        a.len() > 0,
        a.len() < b.len(),
        is_prefix(a, b),
        key_run(q.events, q.commit as int) == a,
        q.commit + a.len() == q.events.len(),
    ensures
        expected_outcome(q, t, mode, false) == Outcome::Wait,
        expected_outcome(q, t, mode, true) == Outcome::Match(a.len()),
{
    assert(may_extend(t, mode, a));
    lemma_whole_run_bound(t, mode, a);
}

/// A sequence that is not bound in mode `y` never fires there as a whole,
/// whatever it is bound to in other modes.
pub proof fn lemma_mode_scoping(
    t: Map<MappingKey, MappingView>,
    y: Seq<char>,
    s: Seq<Key>,
    more_possible: bool,
)
    requires
        s.len() > 0,
        !t.contains_key((y, s)),
    ensures
        resolve_keys(t, y, s, more_possible) != Outcome::Match(s.len()),
{
    lemma_full_take(s);
    lemma_longest_bound_le(t, y, s, (s.len() - 1) as nat);
}

proof fn lemma_longest_bound_le(t: Map<MappingKey, MappingView>, mode: Seq<char>, keys: Seq<Key>, j: nat)
    ensures
        longest_bound(t, mode, keys, j) <= j,
    decreases j,
{
    if j > 0 {
        lemma_longest_bound_le(t, mode, keys, (j - 1) as nat);
    }
}

/// The decision in mode `y` depends only on the bindings of `y`: two tables
/// that agree on mode `y` decide every input alike there.
pub proof fn lemma_mode_isolation(
    t1: Map<MappingKey, MappingView>,
    t2: Map<MappingKey, MappingView>,
    y: Seq<char>,
    q: QueueView,
    stalled: bool,
)
    requires
        forall|s: Seq<Key>| #[trigger] t1.contains_key((y, s)) == t2.contains_key((y, s)),
    ensures
        expected_outcome(q, t1, y, stalled) == expected_outcome(q, t2, y, stalled),
{
    let keys = key_run(q.events, q.commit as int);
    lemma_longest_bound_agree(t1, t2, y, keys, keys.len());
    assert(may_extend(t1, y, keys) == may_extend(t2, y, keys)) by {
        if may_extend(t1, y, keys) {
            let s = choose|s: Seq<Key>| #[trigger] t1.contains_key((y, s)) && keys.len() < s.len() && is_prefix(keys, s);
            assert(t2.contains_key((y, s)));
        }
        if may_extend(t2, y, keys) {
            let s = choose|s: Seq<Key>| #[trigger] t2.contains_key((y, s)) && keys.len() < s.len() && is_prefix(keys, s);
            assert(t1.contains_key((y, s)));
        }
    }
}

proof fn lemma_longest_bound_agree(
    t1: Map<MappingKey, MappingView>,
    t2: Map<MappingKey, MappingView>,
    y: Seq<char>,
    keys: Seq<Key>,
    j: nat,
)
    requires
        forall|s: Seq<Key>| #[trigger] t1.contains_key((y, s)) == t2.contains_key((y, s)),
    ensures
        longest_bound(t1, y, keys, j) == longest_bound(t2, y, keys, j),
    decreases j,
{
    if j > 0 {
        assert(t1.contains_key((y, keys.take(j as int))) == t2.contains_key((y, keys.take(j as int))));
        lemma_longest_bound_agree(t1, t2, y, keys, (j - 1) as nat);
    }
}

/// Looking ahead and then restarting, without a commit in between, leaves
/// the queue as a plain restart would: the next attempt sees the same keys
/// from the same place and decides the same.
pub proof fn lemma_restart_idempotent(
    q: QueueView,
    n: nat,
    t: Map<MappingKey, MappingView>,
    mode: Seq<char>,
    stalled: bool,
)
    requires
        q.wf(),
        q.peek + n <= q.events.len(),
    ensures
        q.advanced(n).restarted() == q.restarted(),
        key_run(q.advanced(n).restarted().events, q.advanced(n).restarted().commit as int)
            == key_run(q.events, q.commit as int),
        expected_outcome(q.advanced(n).restarted(), t, mode, stalled) == expected_outcome(q, t, mode, stalled),
        queue_after(q, Outcome::Wait).restarted() == q.restarted(),
{
}

} // verus!
