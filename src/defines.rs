//! The `#define` table of a shader builder, kept in insertion order by
//! `hashlink::LinkedHashMap`, and the substitution it drives.
use hashlink::LinkedHashMap;
use std::collections::hash_map::RandomState;
use vstd::prelude::*;

use crate::text::{replace_all, replace_text, string_of, chars_of};

verus! {

#[verifier::external_type_specification]
#[verifier::external_body]
#[verifier::reject_recursive_types(K)]
#[verifier::reject_recursive_types(V)]
#[verifier::reject_recursive_types(S)]
pub struct ExLinkedHashMap<K, V, S>(LinkedHashMap<K, V, S>);

/// A define table: macro keys and their replacement text, in insertion
/// order.
pub type DefineTable = LinkedHashMap<String, String, RandomState>;

/// The key / value pairs of a define table, in the order of its internal
/// list.
pub uninterp spec fn entries_of(m: DefineTable) -> Seq<(Seq<char>, Seq<char>)>;

/// Whether some pair of `e` has key `k`.
pub open spec fn has_key(e: Seq<(Seq<char>, Seq<char>)>, k: Seq<char>) -> bool {
    exists|i: int| 0 <= i < e.len() && (#[trigger] e[i]).0 == k
}

/// The pairs of `e` whose key is not `k`, in order.
pub open spec fn without_key(e: Seq<(Seq<char>, Seq<char>)>, k: Seq<char>) -> Seq<
    (Seq<char>, Seq<char>),
>
    decreases e.len(),
{
    if e.len() == 0 {
        e
    } else {
        let r = without_key(e.drop_last(), k);
        if e.last().0 == k {
            r
        } else {
            r.push(e.last())
        }
    }
}

/// `(k, v)` set in `e`: any pair with key `k` leaves and the new one goes
/// to the back.
pub open spec fn set_entry(e: Seq<(Seq<char>, Seq<char>)>, k: Seq<char>, v: Seq<char>) -> Seq<
    (Seq<char>, Seq<char>),
> {
    without_key(e, k).push((k, v))
}

/// Relies on `LinkedHashMap::with_hasher`: an empty table.
#[verifier::external_body]
pub(crate) fn new_table() -> (m: DefineTable)
    ensures
        entries_of(m) == Seq::<(Seq<char>, Seq<char>)>::empty(),
{
    LinkedHashMap::with_hasher(RandomState::new())
}

/// Relies on `LinkedHashMap::insert`: the value is set and the entry moves
/// to the back of the list.
#[verifier::external_body]
pub(crate) fn table_insert(m: &mut DefineTable, k: String, v: String)
    ensures
        entries_of(*final(m)) == set_entry(entries_of(*old(m)), k@, v@),
{
    m.insert(k, v);
}

/// Relies on `LinkedHashMap::clone`: the same pairs in the same order.
#[verifier::external_body]
pub(crate) fn table_clone(m: &DefineTable) -> (r: DefineTable)
    ensures
        entries_of(r) == entries_of(*m),
{
    m.clone()
}

/// Relies on `LinkedHashMap::contains_key`.
#[verifier::external_body]
fn table_contains(m: &DefineTable, k: &String) -> (r: bool)
    ensures
        r == has_key(entries_of(*m), k@),
{
    m.contains_key(k)
}

/// Relies on `LinkedHashMap::iter`: the pairs in list order.
#[verifier::external_body]
pub(crate) fn table_entries(m: &DefineTable) -> (r: Vec<(String, String)>)
    ensures
        r@.len() == entries_of(*m).len(),
        forall|i: int|
            0 <= i < r@.len() ==> ((#[trigger] r@[i]).0@, r@[i].1@) == entries_of(*m)[i],
{
    m.iter().map(|(k, v)| (k.clone(), v.clone())).collect()
}

proof fn lemma_without_absent(e: Seq<(Seq<char>, Seq<char>)>, k: Seq<char>)
    requires
        !has_key(e, k),
    ensures
        without_key(e, k) == e,
    decreases e.len(),
{
    if e.len() > 0 {
        let d = e.drop_last();
        assert(!has_key(d, k)) by {
            if has_key(d, k) {
                let i = choose|i: int| 0 <= i < d.len() && (#[trigger] d[i]).0 == k;
                assert(e[i] == d[i]);
            }
        }
        lemma_without_absent(d, k);
        assert(e.last() == e[e.len() - 1]);
        assert(d.push(e.last()) =~= e);
    }
}

/// The table with the pairs `found` added in order, each unless its key is
/// already there: a key set earlier keeps its value.
pub open spec fn merge_defines(own: Seq<(Seq<char>, Seq<char>)>, found: Seq<(Seq<char>, Seq<char>)>) -> Seq<
    (Seq<char>, Seq<char>),
>
    decreases found.len(),
{
    if found.len() == 0 {
        own
    } else {
        let acc = merge_defines(own, found.drop_last());
        let (k, v) = found.last();
        if has_key(acc, k) {
            acc
        } else {
            acc.push((k, v))
        }
    }
}

/// Adds the pairs `found` to the table in order, each unless its key is
/// already there.
pub(crate) fn add_found_defines(m: &mut DefineTable, found: &Vec<(Vec<char>, Vec<char>)>)
    ensures
        entries_of(*final(m)) == merge_defines(entries_of(*old(m)), pair_views(found@)),
{
    let ghost own = entries_of(*m);
    let mut i: usize = 0;
    while i < found.len()
        invariant
            i <= found@.len(),
            entries_of(*m) == merge_defines(own, pair_views(found@).take(i as int)),
        decreases found@.len() - i,
    {
        let ghost before = entries_of(*m);
        let k = string_of(&found[i].0);
        let v = string_of(&found[i].1);
        assert(pair_views(found@).take(i as int + 1).drop_last() =~= pair_views(found@).take(
            i as int,
        ));
        if !table_contains(m, &k) {
            proof {
                lemma_without_absent(before, k@);
            }
            table_insert(m, k, v);
        }
        i = i + 1;
    }
    assert(pair_views(found@).take(found@.len() as int) =~= pair_views(found@));
}

/// The views of exec pairs of texts.
pub open spec fn pair_views(v: Seq<(Vec<char>, Vec<char>)>) -> Seq<(Seq<char>, Seq<char>)> {
    v.map_values(|x: (Vec<char>, Vec<char>)| (x.0@, x.1@))
}

/// `s`, ordered so far by decreasing key length, with `e` placed after
/// every pair whose key is at least as long.
pub open spec fn insert_by_length(s: Seq<(Seq<char>, Seq<char>)>, e: (Seq<char>, Seq<char>)) -> Seq<
    (Seq<char>, Seq<char>),
>
    decreases s.len(),
{
    if s.len() == 0 {
        seq![e]
    } else if s[0].0.len() >= e.0.len() {
        seq![s[0]] + insert_by_length(s.skip(1), e)
    } else {
        seq![e] + s
    }
}

/// The pairs of `d` by decreasing key length; pairs with keys of one
/// length keep their order.
pub open spec fn by_key_length(d: Seq<(Seq<char>, Seq<char>)>) -> Seq<(Seq<char>, Seq<char>)>
    decreases d.len(),
{
    if d.len() == 0 {
        d
    } else {
        insert_by_length(by_key_length(d.drop_last()), d.last())
    }
}

/// `t` after replacing, for each pair of `s` in order, every occurrence of
/// its key by its value.
pub open spec fn substitute_all(t: Seq<char>, s: Seq<(Seq<char>, Seq<char>)>) -> Seq<char>
    decreases s.len(),
{
    if s.len() == 0 {
        t
    } else {
        replace_all(substitute_all(t, s.drop_last()), s.last().0, s.last().1)
    }
}

/// The defines of `d` applied to `t`, longest key first.
pub open spec fn apply_defines(t: Seq<char>, d: Seq<(Seq<char>, Seq<char>)>) -> Seq<char> {
    substitute_all(t, by_key_length(d))
}

proof fn lemma_insert_at(s: Seq<(Seq<char>, Seq<char>)>, e: (Seq<char>, Seq<char>), p: int)
    requires
        0 <= p <= s.len(),
        forall|j: int| 0 <= j < p ==> (#[trigger] s[j]).0.len() >= e.0.len(),
        p < s.len() ==> s[p].0.len() < e.0.len(),
    ensures
        insert_by_length(s, e) == s.take(p) + seq![e] + s.skip(p),
    decreases s.len(),
{
    if s.len() == 0 {
        assert(s.take(p) + seq![e] + s.skip(p) =~= seq![e]);
    } else if p == 0 {
        assert(s.take(p) + seq![e] + s.skip(p) =~= seq![e] + s);
    } else {
        let t = s.skip(1);
        assert forall|j: int| 0 <= j < p - 1 implies (#[trigger] t[j]).0.len() >= e.0.len() by {
            assert(t[j] == s[j + 1]);
        }
        if p - 1 < t.len() {
            assert(t[p - 1] == s[p]);
        }
        lemma_insert_at(t, e, p - 1);
        assert(seq![s[0]] + (t.take(p - 1) + seq![e] + t.skip(p - 1)) =~= s.take(p) + seq![e]
            + s.skip(p));
    }
}

/// The pairs of `d` by decreasing key length, stable.
fn sort_by_key_length(d: &Vec<(Vec<char>, Vec<char>)>) -> (r: Vec<(Vec<char>, Vec<char>)>)
    ensures
        pair_views(r@) == by_key_length(pair_views(d@)),
{
    let mut sorted: Vec<(Vec<char>, Vec<char>)> = Vec::new();
    let mut i: usize = 0;
    while i < d.len()
        invariant
            i <= d@.len(),
            pair_views(sorted@) == by_key_length(pair_views(d@).take(i as int)),
        decreases d@.len() - i,
    {
        let klen = d[i].0.len();
        let mut p: usize = 0;
        while p < sorted.len() && sorted[p].0.len() >= klen
            invariant
                p <= sorted@.len(),
                forall|j: int| 0 <= j < p ==> (#[trigger] sorted@[j]).0@.len() >= klen,
            decreases sorted@.len() - p,
        {
            p = p + 1;
        }
        let ghost sv = pair_views(sorted@);
        let ghost ev = (d@[i as int].0@, d@[i as int].1@);
        proof {
            assert forall|j: int| 0 <= j < p implies (#[trigger] sv[j]).0.len() >= ev.0.len() by {
                assert(sv[j].0 == sorted@[j].0@);
            }
            if p < sv.len() {
                assert(sv[p as int].0 == sorted@[p as int].0@);
            }
            lemma_insert_at(sv, ev, p as int);
            assert(pair_views(d@).take(i as int + 1).drop_last() =~= pair_views(d@).take(i as int));
        }
        let e = (d[i].0.clone(), d[i].1.clone());
        sorted.insert(p, e);
        assert(pair_views(sorted@) =~= sv.take(p as int) + seq![ev] + sv.skip(p as int));
        i = i + 1;
    }
    assert(pair_views(d@).take(d@.len() as int) =~= pair_views(d@));
    sorted
}

/// The pairs of the table, as texts.
pub(crate) fn table_pairs(m: &DefineTable) -> (r: Vec<(Vec<char>, Vec<char>)>)
    ensures
        pair_views(r@) == entries_of(*m),
{
    let list = table_entries(m);
    let mut r: Vec<(Vec<char>, Vec<char>)> = Vec::new();
    let mut i: usize = 0;
    while i < list.len()
        invariant
            i <= list@.len(),
            list@.len() == entries_of(*m).len(),
            forall|j: int|
                0 <= j < list@.len() ==> ((#[trigger] list@[j]).0@, list@[j].1@) == entries_of(
                    *m,
                )[j],
            pair_views(r@) == entries_of(*m).take(i as int),
        decreases list@.len() - i,
    {
        let k = chars_of(list[i].0.as_str());
        let v = chars_of(list[i].1.as_str());
        let ghost before = r@;
        assert(((list@[i as int]).0@, list@[i as int].1@) == entries_of(*m)[i as int]);
        assert((k@, v@) == entries_of(*m)[i as int]);
        r.push((k, v));
        assert(r@ == before.push((k, v)));
        assert(pair_views(r@) =~= pair_views(before).push((k@, v@)));
        assert(pair_views(r@) =~= entries_of(*m).take(i as int + 1));
        i = i + 1;
    }
    assert(entries_of(*m).take(i as int) =~= entries_of(*m));
    r
}

/// `t` with the defines of the table applied, longest key first.
pub(crate) fn apply_table(t: Vec<char>, m: &DefineTable) -> (r: Vec<char>)
    ensures
        r@ == apply_defines(t@, entries_of(*m)),
{
    let pairs = table_pairs(m);
    let sorted = sort_by_key_length(&pairs);
    let ghost order = pair_views(sorted@);
    let mut out = t;
    let ghost t0 = out@;
    let mut i: usize = 0;
    while i < sorted.len()
        invariant
            i <= sorted@.len(),
            order == pair_views(sorted@),
            order == by_key_length(entries_of(*m)),
            out@ == substitute_all(t0, order.take(i as int)),
        decreases sorted@.len() - i,
    {
        assert(order.take(i as int + 1).drop_last() =~= order.take(i as int));
        assert(order[i as int] == (sorted@[i as int].0@, sorted@[i as int].1@));
        out = replace_text(&out, &sorted[i].0, &sorted[i].1);
        i = i + 1;
    }
    assert(order.take(i as int) =~= order);
    out
}

} // verus!
