use vstd::prelude::*;
use crate::key::Key;

verus! {

/// How the keys of a binding were written by the user.
#[derive(Clone, Copy, Debug, PartialEq, Eq, Structural)]
pub enum KeyNameStyle {
    /// Key names such as `ctrl-x`.
    Plain,
    /// A raw terminal escape sequence.
    RawEscapeSequence,
}

/// One registered binding: a key sequence in a mode, the commands it runs and
/// the mode it switches to.
#[derive(Debug)]
pub struct InputMapping {
    pub seq: Vec<Key>,
    pub commands: Vec<String>,
    pub mode: String,
    pub sets_mode: Option<String>,
    pub user: bool,
    pub key_name_style: KeyNameStyle,
}

/// What a binding does once its keys are matched.
pub struct MappingView {
    pub commands: Seq<Seq<char>>,
    pub sets_mode: Option<Seq<char>>,
    pub user: bool,
}

/// The identity of a binding within a table: its mode and its key sequence.
pub type MappingKey = (Seq<char>, Seq<Key>);

pub open spec fn strings_view(v: Seq<String>) -> Seq<Seq<char>> {
    v.map_values(|s: String| s@)
}

pub open spec fn opt_string_view(o: Option<String>) -> Option<Seq<char>> {
    match o {
        Some(s) => Some(s@),
        None => None,
    }
}

impl InputMapping {
    pub open spec fn key(&self) -> MappingKey {
        (self.mode@, self.seq@)
    }

    pub open spec fn action(&self) -> MappingView {
        MappingView {
            commands: strings_view(self.commands@),
            sets_mode: opt_string_view(self.sets_mode),
            user: self.user,
        }
    }
}

/// Why a registration was refused.
#[derive(Clone, Copy, Debug, PartialEq, Eq, Structural)]
pub enum BindError {
    /// A binding needs at least one key.
    EmptySequence,
}

/// The table of bindings, keyed by mode and key sequence. Within one mode a
/// key sequence is bound at most once; registering it again replaces the
/// earlier binding.
pub struct InputMappingSet {
    mappings: Vec<InputMapping>,
    model: Ghost<Map<MappingKey, MappingView>>,
}

impl View for InputMappingSet {
    type V = Map<MappingKey, MappingView>;

    closed spec fn view(&self) -> Map<MappingKey, MappingView> {
        self.model@
    }
}

/// `a` is a prefix of `b` (possibly all of it).
pub open spec fn is_prefix(a: Seq<Key>, b: Seq<Key>) -> bool {
    a.len() <= b.len() && b.take(a.len() as int) == a
}

/// Decides whether two key sequences are equal.
pub fn keys_equal(a: &Vec<Key>, b: &Vec<Key>) -> (r: bool)
    ensures
        r == (a@ == b@),
{
    if a.len() != b.len() {
        return false;
    }
    let mut i: usize = 0;
    while i < a.len()
        invariant
            a@.len() == b@.len(),
            i <= a@.len(),
            a@.take(i as int) == b@.take(i as int),
        decreases a@.len() - i,
    {
        if a[i] != b[i] {
            assert(a@.take(i as int + 1)[i as int] != b@.take(i as int + 1)[i as int]);
            return false;
        }
        assert(a@.take(i as int + 1) =~= a@.take(i as int).push(a@[i as int]));
        assert(b@.take(i as int + 1) =~= b@.take(i as int).push(b@[i as int]));
        i = i + 1;
    }
    assert(a@ =~= a@.take(i as int));
    assert(b@ =~= b@.take(i as int));
    true
}

/// The length of the longest common prefix of `a` and `b`.
pub fn common_prefix_len(a: &Vec<Key>, b: &Vec<Key>) -> (r: usize)
    ensures
        r <= a@.len(),
        r <= b@.len(),
        a@.take(r as int) == b@.take(r as int),
        r < a@.len() && r < b@.len() ==> a@[r as int] != b@[r as int],
{
    let mut i: usize = 0;
    while i < a.len() && i < b.len() && a[i] == b[i]
        invariant
            i <= a@.len(),
            i <= b@.len(),
            a@.take(i as int) == b@.take(i as int),
        decreases a@.len() - i,
    {
        assert(a@.take(i as int + 1) =~= a@.take(i as int).push(a@[i as int]));
        assert(b@.take(i as int + 1) =~= b@.take(i as int).push(b@[i as int]));
        i = i + 1;
    }
    i
}

impl InputMappingSet {
    /// The table is consistent with its model: sequences are non-empty, each
    /// (mode, sequence) pair is held once, and the model maps exactly the
    /// pairs held to what their bindings do.
    pub closed spec fn wf(&self) -> bool {
        &&& forall|i: int| 0 <= i < self.mappings@.len() ==> #[trigger] self.mappings@[i].seq@.len() > 0
        &&& forall|i: int, j: int|
            0 <= i < self.mappings@.len() && 0 <= j < self.mappings@.len() && i != j
                ==> #[trigger] self.mappings@[i].key() != #[trigger] self.mappings@[j].key()
        &&& forall|i: int| 0 <= i < self.mappings@.len()
            ==> self.model@.contains_key(#[trigger] self.mappings@[i].key())
            && self.model@[self.mappings@[i].key()] == self.mappings@[i].action()
        &&& forall|k: MappingKey| #[trigger] self.model@.contains_key(k)
            ==> exists|i: int| 0 <= i < self.mappings@.len() && #[trigger] self.mappings@[i].key() == k
    }

    /// The number of bindings held.
    pub closed spec fn spec_len(&self) -> nat {
        self.mappings@.len()
    }

    /// The mode and key sequence of the binding at position `i`.
    pub closed spec fn key_at(&self, i: int) -> MappingKey {
        self.mappings@[i].key()
    }

    /// Every binding is keyed in the model, and every non-empty key sequence
    /// of the model belongs to a binding.
    pub proof fn lemma_model(&self)
        requires
            self.wf(),
        ensures
            forall|i: int| 0 <= i < self.spec_len() ==> self@.contains_key(#[trigger] self.key_at(i)),
            forall|k: MappingKey| #[trigger] self@.contains_key(k)
                ==> exists|i: int| 0 <= i < self.spec_len() && #[trigger] self.key_at(i) == k,
            forall|k: MappingKey| #[trigger] self@.contains_key(k) ==> k.1.len() > 0,
    {
        assert forall|k: MappingKey| #[trigger] self@.contains_key(k) implies k.1.len() > 0
            && exists|i: int| 0 <= i < self.spec_len() && #[trigger] self.key_at(i) == k by {
            let i = choose|i: int| 0 <= i < self.mappings@.len() && #[trigger] self.mappings@[i].key() == k;
            assert(self.mappings@[i].seq@.len() > 0);
            assert(self.key_at(i) == k);
        }
    }

    /// An empty table.
    pub fn new() -> (r: InputMappingSet)
        ensures
            r.wf(),
            r@ == Map::<MappingKey, MappingView>::empty(),
    {
        InputMappingSet { mappings: Vec::new(), model: Ghost(Map::empty()) }
    }

    /// The number of bindings held.
    pub fn len(&self) -> (r: usize)
        requires
            self.wf(),
        ensures
            r == self.spec_len(),
            r == self@.len(),
    {
        proof { self.lemma_len(); }
        self.mappings.len()
    }

    proof fn lemma_len(&self)
        requires
            self.wf(),
        ensures
            self@.len() == self.mappings@.len(),
            self@.dom().finite(),
        decreases self.mappings@.len(),
    {
        let keys = self.mappings@.map_values(|m: InputMapping| m.key());
        assert(keys.no_duplicates()) by {
            assert forall|i: int, j: int| 0 <= i < keys.len() && 0 <= j < keys.len() && i != j
                implies keys[i] != keys[j] by {
                assert(self.mappings@[i].key() != self.mappings@[j].key());
            }
        }
        assert(keys.to_set() =~= self@.dom()) by {
            assert forall|k: MappingKey| keys.to_set().contains(k) <==> self@.dom().contains(k) by {
                if self@.dom().contains(k) {
                    let i = choose|i: int| 0 <= i < self.mappings@.len() && #[trigger] self.mappings@[i].key() == k;
                    assert(keys[i] == k);
                }
                if keys.to_set().contains(k) {
                    let i = choose|i: int| 0 <= i < keys.len() && keys[i] == k;
                    assert(self.mappings@[i].key() == k);
                }
            }
        }
        keys.unique_seq_to_set();
    }

    /// The binding at position `i`.
    pub fn get(&self, i: usize) -> (r: &InputMapping)
        requires
            self.wf(),
            i < self.spec_len(),
        ensures
            r.key() == self.key_at(i as int),
            self@.contains_key(r.key()),
            self@[r.key()] == r.action(),
    {
        &self.mappings[i]
    }

    /// The positions, in increasing order, of the bindings of `mode` whose
    /// key sequence starts with `so_far` (or equals it).
    pub fn candidates(&self, mode: &String, so_far: &Vec<Key>) -> (r: Vec<usize>)
        requires
            self.wf(),
        ensures
            forall|a: int, b: int| 0 <= a < b < r@.len() ==> r@[a] < r@[b],
            forall|a: int| 0 <= a < r@.len() ==> (#[trigger] r@[a]) < self.spec_len(),
            forall|j: int| 0 <= j < self.spec_len() ==> (r@.contains(j as usize) <==> (
                #[trigger] self.key_at(j)).0 == mode@ && is_prefix(so_far@, self.key_at(j).1)),
    {
        let mut r: Vec<usize> = Vec::new();
        let n = self.mappings.len();
        let mut i: usize = 0;
        while i < n
            invariant
                self.wf(),
                n == self.spec_len(),
                i <= n,
                forall|a: int, b: int| 0 <= a < b < r@.len() ==> r@[a] < r@[b],
                forall|a: int| 0 <= a < r@.len() ==> (#[trigger] r@[a]) < i,
                forall|j: int| 0 <= j < n ==> (r@.contains(j as usize) <==> j < i && (
                    #[trigger] self.key_at(j)).0 == mode@ && is_prefix(so_far@, self.key_at(j).1)),
            decreases n - i,
        {
            let m = &self.mappings[i];
            if m.mode == *mode {
                let c = common_prefix_len(so_far, &m.seq);
                let hit = c == so_far.len();
                proof {
                    if c == so_far@.len() {
                        assert(so_far@.take(c as int) =~= so_far@);
                    } else if c < m.seq@.len() && is_prefix(so_far@, m.seq@) {
                        assert(m.seq@.take(so_far@.len() as int)[c as int] == so_far@[c as int]);
                    }
                }
                if hit {
                    let ghost before = r@;
                    r.push(i);
                    proof {
                        assert forall|j: int| 0 <= j < n implies (r@.contains(j as usize) <==> j < i + 1 && (
                            #[trigger] self.key_at(j)).0 == mode@ && is_prefix(so_far@, self.key_at(j).1)) by {
                            if j == i {
                                assert(r@[before.len() as int] == i);
                            } else if r@.contains(j as usize) {
                                let a = choose|a: int| 0 <= a < r@.len() && r@[a] == j as usize;
                                assert(a < before.len());
                                assert(before.contains(j as usize));
                            } else if before.contains(j as usize) {
                                let a = choose|a: int| 0 <= a < before.len() && before[a] == j as usize;
                                assert(r@[a] == j as usize);
                            }
                        }
                    }
                }
            }
            i = i + 1;
        }
        r
    }

    /// Registers a binding of `seq` in `mode`. An empty sequence is refused;
    /// a sequence already bound in `mode` has its binding replaced.
    pub fn add(
        &mut self,
        seq: Vec<Key>,
        key_name_style: KeyNameStyle,
        commands: Vec<String>,
        mode: String,
        sets_mode: Option<String>,
        user: bool,
    ) -> (r: Result<(), BindError>)
        requires
            old(self).wf(),
        ensures
            final(self).wf(),
            seq@.len() == 0 <==> r == Err::<(), BindError>(BindError::EmptySequence),
            seq@.len() == 0 ==> final(self)@ == old(self)@,
            seq@.len() > 0 ==> r is Ok && final(self)@ == old(self)@.insert(
                (mode@, seq@),
                MappingView {
                    commands: strings_view(commands@),
                    sets_mode: opt_string_view(sets_mode),
                    user,
                },
            ),
    {
        if seq.len() == 0 {
            return Err(BindError::EmptySequence);
        }
        let ghost k: MappingKey = (mode@, seq@);
        let m = InputMapping { seq, commands, mode, sets_mode, user, key_name_style };
        let ghost act = m.action();
        let mut i: usize = 0;
        while i < self.mappings.len()
            invariant
                self.wf(),
                self.mappings@ == old(self).mappings@,
                self.model == old(self).model,
                i <= self.mappings@.len(),
                m.key() == k,
                m.action() == act,
                k.1.len() > 0,
                k == (mode@, seq@),
                act == (MappingView {
                    commands: strings_view(commands@),
                    sets_mode: opt_string_view(sets_mode),
                    user,
                }),
                forall|j: int| 0 <= j < i ==> #[trigger] self.mappings@[j].key() != k,
            decreases self.mappings@.len() - i,
        {
            if self.mappings[i].mode == m.mode && keys_equal(&self.mappings[i].seq, &m.seq) {
                let ghost old_maps = self.mappings@;
                self.mappings.set(i, m);
                self.model = Ghost(self.model@.insert(k, act));
                proof {
                    assert forall|a: int, b: int|
                        0 <= a < self.mappings@.len() && 0 <= b < self.mappings@.len() && a != b
                            implies #[trigger] self.mappings@[a].key() != #[trigger] self.mappings@[b].key() by {
                        assert(old_maps[a].key() != old_maps[b].key());
                    }
                    assert forall|q: MappingKey| #[trigger] self.model@.contains_key(q)
                        implies exists|j: int| 0 <= j < self.mappings@.len() && #[trigger] self.mappings@[j].key() == q by {
                        if q != k {
                            let j = choose|j: int| 0 <= j < old_maps.len() && #[trigger] old_maps[j].key() == q;
                            assert(self.mappings@[j].key() == q);
                        } else {
                            assert(self.mappings@[i as int].key() == q);
                        }
                    }
                    assert forall|j: int| 0 <= j < self.mappings@.len()
                        implies self.model@.contains_key(#[trigger] self.mappings@[j].key())
                        && self.model@[self.mappings@[j].key()] == self.mappings@[j].action() by {
                        if j != i {
                            assert(old_maps[j].key() != old_maps[i as int].key());
                            assert(old(self).model@.contains_key(old(self).mappings@[j].key()));
                        }
                    }
                }
                return Ok(());
            }
            i = i + 1;
        }
        let ghost old_maps = self.mappings@;
        self.mappings.push(m);
        self.model = Ghost(self.model@.insert(k, act));
        proof {
            assert(!old(self).model@.contains_key(k)) by {
                if old(self).model@.contains_key(k) {
                    let j = choose|j: int| 0 <= j < old_maps.len() && #[trigger] old_maps[j].key() == k;
                }
            }
            assert forall|a: int, b: int|
                0 <= a < self.mappings@.len() && 0 <= b < self.mappings@.len() && a != b
                    implies #[trigger] self.mappings@[a].key() != #[trigger] self.mappings@[b].key() by {
                if a < old_maps.len() && b < old_maps.len() {
                    assert(old_maps[a].key() != old_maps[b].key());
                }
            }
            assert forall|q: MappingKey| #[trigger] self.model@.contains_key(q)
                implies exists|j: int| 0 <= j < self.mappings@.len() && #[trigger] self.mappings@[j].key() == q by {
                if q != k {
                    let j = choose|j: int| 0 <= j < old_maps.len() && #[trigger] old_maps[j].key() == q;
                    assert(self.mappings@[j].key() == q);
                } else {
                    assert(self.mappings@[old_maps.len() as int].key() == q);
                }
            }
            assert forall|j: int| 0 <= j < self.mappings@.len()
                implies self.model@.contains_key(#[trigger] self.mappings@[j].key())
                && self.model@[self.mappings@[j].key()] == self.mappings@[j].action() by {
                if j < old_maps.len() {
                    assert(old_maps[j].key() != k);
                    assert(old(self).model@.contains_key(old(self).mappings@[j].key()));
                }
            }
        }
        Ok(())
    }

    /// Registers a binding of `seq` in `mode` that runs a single command.
    pub fn add1(
        &mut self,
        seq: Vec<Key>,
        key_name_style: KeyNameStyle,
        command: String,
        mode: String,
        sets_mode: Option<String>,
        user: bool,
    ) -> (r: Result<(), BindError>)
        requires
            old(self).wf(),
        ensures
            final(self).wf(),
            seq@.len() == 0 <==> r == Err::<(), BindError>(BindError::EmptySequence),
            seq@.len() == 0 ==> final(self)@ == old(self)@,
            seq@.len() > 0 ==> r is Ok && final(self)@ == old(self)@.insert(
                (mode@, seq@),
                MappingView { commands: seq![command@], sets_mode: opt_string_view(sets_mode), user },
            ),
    {
        let ghost c = command@;
        let commands = vec![command];
        assert(strings_view(commands@) =~= seq![c]);
        self.add(seq, key_name_style, commands, mode, sets_mode, user)
    }
}

} // verus!
