//! Consistency checks on the message identifiers of Fluent localization
//! files.

use vstd::prelude::*;
use vstd::string::{StrSliceExecFns, StringExecFns};

verus! {

/// `a` sorts strictly before `b`, comparing characters by code point from the
/// front (the order of `str`).
pub open spec fn id_less(a: Seq<char>, b: Seq<char>) -> bool
    decreases a.len(),
{
    if a.len() == 0 {
        b.len() > 0
    } else if b.len() == 0 {
        false
    } else if a[0] != b[0] {
        (a[0] as u32) < (b[0] as u32)
    } else {
        id_less(a.skip(1), b.skip(1))
    }
}

/// Whether `a` sorts strictly before `b`.
pub fn id_is_less(a: &str, b: &str) -> (r: bool)
    ensures
        r == id_less(a@, b@),
{
    let n = a.unicode_len();
    let m = b.unicode_len();
    let mut i: usize = 0;
    assert(a@.skip(0) =~= a@);
    assert(b@.skip(0) =~= b@);
    while i < n && i < m
        invariant
            n == a@.len(),
            m == b@.len(),
            i <= n,
            i <= m,
            id_less(a@, b@) == id_less(a@.skip(i as int), b@.skip(i as int)),
        decreases n - i,
    {
        let x = a.get_char(i);
        let y = b.get_char(i);
        assert(a@.skip(i as int)[0] == x && b@.skip(i as int)[0] == y);
        if x != y {
            return (x as u32) < (y as u32);
        }
        assert(a@.skip(i as int).skip(1) =~= a@.skip(i as int + 1));
        assert(b@.skip(i as int).skip(1) =~= b@.skip(i as int + 1));
        i = i + 1;
    }
    i < m
}

/// The first position at which an identifier sorts before the one just
/// before it, if any.
pub open spec fn first_unsorted(ids: Seq<Seq<char>>) -> Option<int> {
    if exists|k: int| 0 < k < ids.len() && id_less(ids[k], #[trigger] ids[k - 1]) {
        Some(choose|k: int| 0 < k < ids.len() && id_less(ids[k], #[trigger] ids[k - 1])
            && forall|j: int| 0 < j < k ==> !id_less(ids[j], #[trigger] ids[j - 1]))
    } else {
        None
    }
}

/// The position of the first identifier that is out of alphabetical order,
/// that is, sorts before the identifier just before it.
pub fn first_unsorted_id(ids: &Vec<String>) -> (r: Option<usize>)
    ensures
        match r {
            Some(k) => 0 < k < ids@.len() && id_less(ids@[k as int]@, ids@[k - 1]@) && forall|j: int|
                0 < j < k ==> !id_less(ids@[j]@, #[trigger] ids@[j - 1]@),
            None => forall|j: int| 0 < j < ids@.len() ==> !id_less(ids@[j]@, #[trigger] ids@[j - 1]@),
        },
{
    let mut k: usize = 1;
    while k < ids.len()
        invariant
            1 <= k,
            forall|j: int| 0 < j < k && j < ids@.len() ==> !id_less(ids@[j]@, #[trigger] ids@[j - 1]@),
        decreases ids@.len() - k,
    {
        if id_is_less(ids[k].as_str(), ids[k - 1].as_str()) {
            return Some(k);
        }
        k = k + 1;
    }
    None
}

/// The identifiers of `ids` that are not in `valid`, in order.
pub open spec fn extra_ids_spec(ids: Seq<Seq<char>>, valid: Seq<Seq<char>>) -> Seq<Seq<char>>
    decreases ids.len(),
{
    if ids.len() == 0 {
        ids
    } else {
        let rest = extra_ids_spec(ids.drop_last(), valid);
        if valid.contains(ids.last()) {
            rest
        } else {
            rest.push(ids.last())
        }
    }
}

pub open spec fn ids_view(v: Seq<String>) -> Seq<Seq<char>> {
    v.map_values(|s: String| s@)
}

/// The identifiers of `ids` that are not among `valid`, in order.
pub fn extra_ids(ids: &Vec<String>, valid: &Vec<String>) -> (r: Vec<String>)
    ensures
        ids_view(r@) == extra_ids_spec(ids_view(ids@), ids_view(valid@)),
{
    let ghost all = ids_view(ids@);
    let ghost vs = ids_view(valid@);
    let mut r: Vec<String> = Vec::new();
    let mut i: usize = 0;
    while i < ids.len()
        invariant
            i <= ids@.len(),
            all == ids_view(ids@),
            vs == ids_view(valid@),
            ids_view(r@) == extra_ids_spec(all.take(i as int), vs),
        decreases ids@.len() - i,
    {
        let mut found = false;
        let mut j: usize = 0;
        while j < valid.len()
            invariant
                i < ids@.len(),
                j <= valid@.len(),
                vs == ids_view(valid@),
                found == exists|x: int| 0 <= x < j && vs[x] == ids@[i as int]@,
            decreases valid@.len() - j,
        {
            assert(vs[j as int] == valid@[j as int]@);
            if valid[j] == ids[i] {
                found = true;
            }
            j = j + 1;
        }
        proof {
            assert(all.take(i as int + 1).drop_last() =~= all.take(i as int));
            assert(all.take(i as int + 1).last() == ids@[i as int]@);
            if found {
                let x = choose|x: int| 0 <= x < j && vs[x] == ids@[i as int]@;
                assert(vs.contains(ids@[i as int]@));
            } else {
                assert(!vs.contains(ids@[i as int]@)) by {
                    if vs.contains(ids@[i as int]@) {
                        let x = choose|x: int| 0 <= x < vs.len() && vs[x] == ids@[i as int]@;
                    }
                }
            }
        }
        if !found {
            let ghost before = r@;
            let s = ids[i].clone();
            r.push(s);
            assert(ids_view(r@) =~= ids_view(before).push(s@));
        }
        i = i + 1;
    }
    assert(all.take(i as int) =~= all);
    r
}

/// The text listing the identifiers of each group under its language.
pub open spec fn groups_text(groups: Seq<(Seq<char>, Seq<Seq<char>>)>) -> Seq<char>
    decreases groups.len(),
{
    if groups.len() == 0 {
        Seq::empty()
    } else {
        groups_text(groups.drop_last()) + group_text(groups.last())
    }
}

/// "For language L:" on a line, then each identifier on a line of its own.
pub open spec fn group_text(g: (Seq<char>, Seq<Seq<char>>)) -> Seq<char> {
    "For language "@ + g.0 + ":\n"@ + lines_text(g.1)
}

pub open spec fn lines_text(ids: Seq<Seq<char>>) -> Seq<char>
    decreases ids.len(),
{
    if ids.len() == 0 {
        Seq::empty()
    } else {
        lines_text(ids.drop_last()) + ids.last() + "\n"@
    }
}

pub open spec fn groups_view(v: Seq<(String, Vec<String>)>) -> Seq<(Seq<char>, Seq<Seq<char>>)> {
    v.map_values(|g: (String, Vec<String>)| (g.0@, ids_view(g.1@)))
}

/// The report of wrong identifiers: the header, then for each language the
/// identifiers concerned, one per line.
pub fn show_id_errors_per_language(header: &str, language_to_ids: &Vec<(String, Vec<String>)>) -> (r: String)
    ensures
        r@ == header@ + ":\n\n"@ + groups_text(groups_view(language_to_ids@)),
{
    let ghost gs = groups_view(language_to_ids@);
    let mut msg = String::from_str(header);
    msg.append(":\n\n");
    let ghost head = msg@;
    let mut g: usize = 0;
    while g < language_to_ids.len()
        invariant
            g <= language_to_ids@.len(),
            gs == groups_view(language_to_ids@),
            head == header@ + ":\n\n"@,
            msg@ == head + groups_text(gs.take(g as int)),
        decreases language_to_ids@.len() - g,
    {
        let (language, ids) = &language_to_ids[g];
        let ghost start = msg@;
        msg.append("For language ");
        msg.append(language.as_str());
        msg.append(":\n");
        let ghost group_head = msg@;
        let mut i: usize = 0;
        while i < ids.len()
            invariant
                i <= ids@.len(),
                msg@ == group_head + lines_text(ids_view(ids@).take(i as int)),
            decreases ids@.len() - i,
        {
            let ghost before = msg@;
            msg.append(ids[i].as_str());
            msg.append("\n");
            proof {
                let v = ids_view(ids@);
                assert(v.take(i as int + 1).drop_last() =~= v.take(i as int));
                assert(msg@ =~= group_head + lines_text(v.take(i as int + 1)));
            }
            i = i + 1;
        }
        proof {
            assert(ids_view(ids@).take(i as int) =~= ids_view(ids@));
            assert(gs.take(g as int + 1).drop_last() =~= gs.take(g as int));
            assert(gs[g as int] == (language@, ids_view(ids@)));
            assert(msg@ =~= head + groups_text(gs.take(g as int + 1)));
        }
        g = g + 1;
    }
    assert(gs.take(g as int) =~= gs);
    msg
}

} // verus!
