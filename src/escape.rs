//! Decoding of raw terminal bytes into keys.

use vstd::prelude::*;
use crate::key::{Key, literal_key};

verus! {

/// Why an escape table was refused.
#[derive(Clone, Copy, Debug, PartialEq, Eq, Structural)]
pub enum EscapeTableError {
    /// An escape sequence with no bytes.
    EmptySequence,
    /// The same byte sequence was given twice.
    DuplicateSequence,
}

/// The byte sequences a terminal sends for named keys, each with its key.
pub struct EscapeTable {
    entries: Vec<(Vec<u8>, Key)>,
}

/// The entries are non-empty and pairwise distinct.
pub open spec fn valid_entries(e: Seq<(Vec<u8>, Key)>) -> bool {
    &&& forall|i: int| 0 <= i < e.len() ==> (#[trigger] e[i]).0@.len() > 0
    &&& forall|i: int, j: int| 0 <= i < e.len() && 0 <= j < e.len() && i != j
        ==> (#[trigger] e[i]).0@ != (#[trigger] e[j]).0@
}

/// The map from byte sequence to key that valid entries describe.
pub open spec fn entries_map(e: Seq<(Vec<u8>, Key)>) -> Map<Seq<u8>, Key> {
    Map::new(
        |s: Seq<u8>| exists|i: int| 0 <= i < e.len() && (#[trigger] e[i]).0@ == s,
        |s: Seq<u8>| e[choose|i: int| 0 <= i < e.len() && (#[trigger] e[i]).0@ == s].1,
    )
}

/// The length of the longest prefix of `b`, at most `j` bytes long, that is an
/// escape sequence; 0 when none is.
pub open spec fn longest_escape(t: Map<Seq<u8>, Key>, b: Seq<u8>, j: nat) -> nat
    decreases j,
{
    if j == 0 {
        0
    } else if t.contains_key(b.take(j as int)) {
        j
    } else {
        longest_escape(t, b, (j - 1) as nat)
    }
}

/// `b` is the start of some longer escape sequence.
pub open spec fn escape_pending(t: Map<Seq<u8>, Key>, b: Seq<u8>) -> bool {
    exists|s: Seq<u8>| #[trigger] t.contains_key(s) && b.len() < s.len() && s.take(b.len() as int) == b
}

/// The keys the bytes `b` decode to, and how many bytes they use. At each
/// point the longest escape sequence that starts there becomes its key; a
/// byte that starts none is a literal character. When `more_possible`, bytes
/// at the end that may still grow into an escape sequence are left undecoded.
pub open spec fn decode_spec(t: Map<Seq<u8>, Key>, b: Seq<u8>, more_possible: bool) -> (Seq<Key>, nat)
    decreases b.len(),
{
    if b.len() == 0 {
        (Seq::empty(), 0)
    } else if more_possible && escape_pending(t, b) {
        (Seq::empty(), 0)
    } else {
        let l = longest_escape(t, b, b.len());
        let n: nat = if 0 < l <= b.len() {
            l
        } else {
            1
        };
        let k = if 0 < l <= b.len() {
            t[b.take(l as int)]
        } else {
            literal_key(b[0])
        };
        let rest = decode_spec(t, b.skip(n as int), more_possible);
        (seq![k] + rest.0, n + rest.1)
    }
}

proof fn lemma_longest_escape(t: Map<Seq<u8>, Key>, b: Seq<u8>, j: nat, m: nat)
    requires
        m <= j,
        m == 0 || t.contains_key(b.take(m as int)),
        forall|x: nat| m < x <= j ==> !t.contains_key(#[trigger] b.take(x as int)),
    ensures
        longest_escape(t, b, j) == m,
    decreases j,
{
    if j > m {
        assert(!t.contains_key(b.take(j as int)));
        lemma_longest_escape(t, b, (j - 1) as nat, m);
    }
}

proof fn lemma_longest_escape_le(t: Map<Seq<u8>, Key>, b: Seq<u8>, j: nat)
    ensures
        longest_escape(t, b, j) <= j,
    decreases j,
{
    if j > 0 {
        lemma_longest_escape_le(t, b, (j - 1) as nat);
    }
}

/// Once no more bytes can come, every byte is decoded: none is held back and
/// none is lost.
pub proof fn lemma_decode_uses_every_byte(t: Map<Seq<u8>, Key>, b: Seq<u8>)
    ensures
        decode_spec(t, b, false).1 == b.len(),
    decreases b.len(),
{
    if b.len() > 0 {
        let l = longest_escape(t, b, b.len());
        lemma_longest_escape_le(t, b, b.len());
        let n: nat = if 0 < l <= b.len() {
            l
        } else {
            1
        };
        lemma_decode_uses_every_byte(t, b.skip(n as int));
    }
}

/// The length of the longest common prefix of `a` and `b[from..]`.
fn common_prefix_from(a: &Vec<u8>, b: &Vec<u8>, from: usize) -> (r: usize)
    requires
        from <= b@.len(),
    ensures
        r <= a@.len(),
        r <= b@.len() - from,
        a@.take(r as int) == b@.skip(from as int).take(r as int),
        r < a@.len() && r < b@.len() - from ==> a@[r as int] != b@.skip(from as int)[r as int],
{
    let ghost rest = b@.skip(from as int);
    let mut i: usize = 0;
    while i < a.len() && i < b.len() - from && a[i] == b[from + i]
        invariant
            from <= b@.len(),
            rest == b@.skip(from as int),
            i <= a@.len(),
            i <= b@.len() - from,
            a@.take(i as int) == rest.take(i as int),
        decreases a@.len() - i,
    {
        assert(a@.take(i as int + 1) =~= a@.take(i as int).push(a@[i as int]));
        assert(rest.take(i as int + 1) =~= rest.take(i as int).push(rest[i as int]));
        i = i + 1;
    }
    i
}

impl View for EscapeTable {
    type V = Map<Seq<u8>, Key>;

    closed spec fn view(&self) -> Map<Seq<u8>, Key> {
        entries_map(self.entries@)
    }
}

impl EscapeTable {
    pub closed spec fn wf(&self) -> bool {
        valid_entries(self.entries@)
    }

    /// A table of the given escape sequences; refused when one is empty or
    /// two are the same.
    pub fn new(entries: Vec<(Vec<u8>, Key)>) -> (r: Result<EscapeTable, EscapeTableError>)
        ensures
            r is Ok <==> valid_entries(entries@),
            r matches Ok(t) ==> t.wf() && t@ == entries_map(entries@),
    {
        let n = entries.len();
        let mut i: usize = 0;
        while i < n
            invariant
                n == entries@.len(),
                i <= n,
                forall|a: int| 0 <= a < i ==> (#[trigger] entries@[a]).0@.len() > 0,
                forall|a: int, c: int| 0 <= a < i && 0 <= c < n && a != c
                    ==> (#[trigger] entries@[a]).0@ != (#[trigger] entries@[c]).0@,
            decreases n - i,
        {
            if entries[i].0.len() == 0 {
                return Err(EscapeTableError::EmptySequence);
            }
            let mut j: usize = 0;
            while j < n
                invariant
                    n == entries@.len(),
                    i < n,
                    j <= n,
                    forall|c: int| 0 <= c < j && c != i ==> entries@[i as int].0@ != (#[trigger] entries@[c]).0@,
                decreases n - j,
            {
                if j != i && bytes_equal(&entries[i].0, &entries[j].0) {
                    return Err(EscapeTableError::DuplicateSequence);
                }
                j = j + 1;
            }
            i = i + 1;
        }
        Ok(EscapeTable { entries })
    }

    /// The longest escape sequence at the start of `b[from..]`, as its length
    /// and its position in the table, and whether `b[from..]` is the start of a
    /// longer escape sequence.
    fn scan(&self, b: &Vec<u8>, from: usize) -> (r: (usize, usize, bool))
        requires
            self.wf(),
            from < b@.len(),
        ensures
            r.0 == longest_escape(self@, b@.skip(from as int), (b@.len() - from) as nat),
            r.0 > 0 ==> r.1 < self.entries@.len() && self.entries@[r.1 as int].0@ == b@.skip(from as int).take(r.0 as int),
            r.2 == escape_pending(self@, b@.skip(from as int)),
    {
        let ghost rest = b@.skip(from as int);
        let ghost t = self@;
        let mut best_len: usize = 0;
        let mut best_idx: usize = 0;
        let mut pending = false;
        let n = self.entries.len();
        let mut i: usize = 0;
        while i < n
            invariant
                self.wf(),
                n == self.entries@.len(),
                i <= n,
                from < b@.len(),
                rest == b@.skip(from as int),
                best_len <= rest.len(),
                best_len > 0 ==> best_idx < i && self.entries@[best_idx as int].0@ == rest.take(best_len as int),
                forall|j: int| 0 <= j < i && (#[trigger] self.entries@[j]).0@.len() <= rest.len()
                    && rest.take(self.entries@[j].0@.len() as int) == self.entries@[j].0@
                    ==> self.entries@[j].0@.len() <= best_len,
                pending == exists|j: int| 0 <= j < i && rest.len() < (#[trigger] self.entries@[j]).0@.len()
                    && self.entries@[j].0@.take(rest.len() as int) == rest,
            decreases n - i,
        {
            let e = &self.entries[i].0;
            let c = common_prefix_from(e, b, from);
            proof {
                if c < e@.len() && c < rest.len() {
                    if rest.len() < e@.len() && e@.take(rest.len() as int) == rest {
                        assert(e@.take(rest.len() as int)[c as int] == rest[c as int]);
                    }
                    if e@.len() <= rest.len() && rest.take(e@.len() as int) == e@ {
                        assert(rest.take(e@.len() as int)[c as int] == e@[c as int]);
                    }
                }
                if c == e@.len() {
                    assert(e@.take(c as int) =~= e@);
                }
                if c == rest.len() {
                    assert(rest.take(c as int) =~= rest);
                }
            }
            if c == e.len() && c > best_len {
                best_len = c;
                best_idx = i;
            }
            if c == b.len() - from && e.len() > c {
                pending = true;
            }
            i = i + 1;
        }
        proof {
            assert(pending == escape_pending(t, rest)) by {
                if escape_pending(t, rest) {
                    let s = choose|s: Seq<u8>| #[trigger] t.contains_key(s) && rest.len() < s.len() && s.take(rest.len() as int) == rest;
                    let j = choose|j: int| 0 <= j < self.entries@.len() && (#[trigger] self.entries@[j]).0@ == s;
                    assert(self.entries@[j].0@ == s);
                }
                if pending {
                    let j = choose|j: int| 0 <= j < n && rest.len() < (#[trigger] self.entries@[j]).0@.len()
                        && self.entries@[j].0@.take(rest.len() as int) == rest;
                    assert(t.contains_key(self.entries@[j].0@));
                }
            }
            assert forall|x: nat| best_len < x <= rest.len() implies !t.contains_key(#[trigger] rest.take(x as int)) by {
                if t.contains_key(rest.take(x as int)) {
                    let j = choose|j: int| 0 <= j < self.entries@.len() && (#[trigger] self.entries@[j]).0@ == rest.take(x as int);
                    assert(self.entries@[j].0@.len() == x);
                    assert(rest.take(x as int) == self.entries@[j].0@);
                }
            }
            if best_len > 0 {
                assert(t.contains_key(self.entries@[best_idx as int].0@));
            }
            lemma_longest_escape(t, rest, rest.len(), best_len as nat);
        }
        (best_len, best_idx, pending)
    }

    /// Decodes the bytes `b` into keys: each escape sequence becomes its key,
    /// preferring the longest, and each other byte a literal character.
    /// Unless `stalled`, trailing bytes that may still grow into an escape
    /// sequence are left undecoded; the second result is how many bytes were
    /// used.
    pub fn decode(&self, b: &Vec<u8>, stalled: bool) -> (r: (Vec<Key>, usize))
        requires
            self.wf(),
        ensures
            r.0@ == decode_spec(self@, b@, !stalled).0,
            r.1 == decode_spec(self@, b@, !stalled).1,
    {
        let ghost t = self@;
        let ghost mp = !stalled;
        let mut keys: Vec<Key> = Vec::new();
        let mut i: usize = 0;
        assert(b@.skip(0) =~= b@);
        assert(keys@ + decode_spec(t, b@, mp).0 =~= decode_spec(t, b@, mp).0);
        while i < b.len()
            invariant
                self.wf(),
                t == self@,
                mp == !stalled,
                i <= b@.len(),
                decode_spec(t, b@, mp).0 == keys@ + decode_spec(t, b@.skip(i as int), mp).0,
                decode_spec(t, b@, mp).1 == i + decode_spec(t, b@.skip(i as int), mp).1,
            ensures
                i <= b@.len(),
                decode_spec(t, b@, mp).0 == keys@ + decode_spec(t, b@.skip(i as int), mp).0,
                decode_spec(t, b@, mp).1 == i + decode_spec(t, b@.skip(i as int), mp).1,
                decode_spec(t, b@.skip(i as int), mp).0 == Seq::<Key>::empty(),
                decode_spec(t, b@.skip(i as int), mp).1 == 0,
            decreases b@.len() - i,
        {
            let ghost rest = b@.skip(i as int);
            let (len, idx, pending) = self.scan(b, i);
            proof {
                lemma_longest_escape_le(t, rest, rest.len());
            }
            if !stalled && pending {
                assert(rest.len() > 0);
                break ;
            }
            let n: usize = if len > 0 {
                len
            } else {
                1
            };
            let k = if len > 0 {
                proof {
                    let j = choose|j: int| 0 <= j < self.entries@.len() && (#[trigger] self.entries@[j]).0@ == rest.take(len as int);
                    assert(self.entries@[idx as int].0@ == rest.take(len as int));
                }
                self.entries[idx].1
            } else {
                literal_key_of(b[i])
            };
            proof {
                assert(rest[0] == b@[i as int]);
                assert(rest.skip(n as int) =~= b@.skip(i + n));
                let ks = decode_spec(t, rest.skip(n as int), mp);
                assert(keys@.push(k) + ks.0 =~= keys@ + (seq![k] + ks.0));
            }
            keys.push(k);
            i = i + n;
        }
        assert(keys@ + Seq::<Key>::empty() =~= keys@);
        (keys, i)
    }
}

fn literal_key_of(b: u8) -> (r: Key)
    ensures
        r == literal_key(b),
{
    Key::from_byte(b)
}

fn bytes_equal(a: &Vec<u8>, b: &Vec<u8>) -> (r: bool)
    ensures
        r == (a@ == b@),
{
    if a.len() != b.len() {
        return false;
    }
    let c = common_prefix_from(a, b, 0);
    proof {
        assert(b@.skip(0) =~= b@);
        if c == a@.len() {
            assert(a@.take(c as int) =~= a@);
            assert(b@.take(c as int) =~= b@);
        } else {
            assert(a@[c as int] != b@[c as int]);
        }
    }
    c == a.len()
}

} // verus!
