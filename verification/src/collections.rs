use vstd::prelude::*;
use indexmap::IndexMap;
use indexmap::IndexSet;

verus! {

/// An insertion-ordered set from the `indexmap` crate.
#[verifier::external_type_specification]
#[verifier::external_body]
#[verifier::reject_recursive_types(T)]
#[verifier::reject_recursive_types(S)]
pub struct ExIndexSet<T, S>(IndexSet<T, S>);

/// An insertion-ordered map from the `indexmap` crate.
#[verifier::external_type_specification]
#[verifier::external_body]
#[verifier::reject_recursive_types(K)]
#[verifier::reject_recursive_types(V)]
#[verifier::reject_recursive_types(S)]
pub struct ExIndexMap<K, V, S>(IndexMap<K, V, S>);

/// The edges that an `IndexSet` of node pairs holds, in insertion order.
pub uninterp spec fn edge_set_items(s: IndexSet<(usize, usize)>) -> Seq<(usize, usize)>;

/// The `(key, value)` entries of an `IndexMap` from nodes to counts, in
/// insertion order.
pub uninterp spec fn count_map_entries(m: IndexMap<usize, usize>) -> Seq<(usize, usize)>;

/// No two entries share a key.
pub open spec fn keys_unique(p: Seq<(usize, usize)>) -> bool {
    forall|i: int, j: int| 0 <= i < j < p.len() ==> #[trigger] p[i].0 != #[trigger] p[j].0
}

/// Calls `IndexSet::with_capacity`: an empty set.
#[verifier::external_body]
pub(crate) fn edge_set_with_capacity(n: usize) -> (s: IndexSet<(usize, usize)>)
    ensures
        edge_set_items(s) == Seq::<(usize, usize)>::empty(),
{
    IndexSet::with_capacity(n)
}

/// Calls `IndexSet::contains`: whether the pair is one of the set's items.
#[verifier::external_body]
pub(crate) fn edge_set_contains(s: &IndexSet<(usize, usize)>, e: (usize, usize)) -> (r: bool)
    ensures
        r == edge_set_items(*s).contains(e),
{
    s.contains(&e)
}

/// Calls `IndexSet::insert`: a pair that is not yet there is appended last
/// and `true` is returned; otherwise the set is left as it was and `false`
/// is returned.
#[verifier::external_body]
pub(crate) fn edge_set_insert(s: &mut IndexSet<(usize, usize)>, e: (usize, usize)) -> (r: bool)
    ensures
        r == !edge_set_items(*old(s)).contains(e),
        r ==> edge_set_items(*final(s)) == edge_set_items(*old(s)).push(e),
        !r ==> edge_set_items(*final(s)) == edge_set_items(*old(s)),
{
    s.insert(e)
}

/// Walks `IndexSet::iter`, which yields the items in insertion order, into a
/// vector.
#[verifier::external_body]
pub(crate) fn edge_set_to_vec(s: &IndexSet<(usize, usize)>) -> (v: Vec<(usize, usize)>)
    ensures
        v@ == edge_set_items(*s),
{
    s.iter().copied().collect()
}

/// Calls `IndexMap::new`: an empty map.
#[verifier::external_body]
pub(crate) fn count_map_new() -> (m: IndexMap<usize, usize>)
    ensures
        count_map_entries(m) == Seq::<(usize, usize)>::empty(),
{
    IndexMap::new()
}

/// Calls `IndexMap::get`: the value stored under `k`, if there is an entry
/// for `k`.
#[verifier::external_body]
pub(crate) fn count_map_get(m: &IndexMap<usize, usize>, k: usize) -> (r: Option<usize>)
    ensures
        r is None <==> (forall|i: int|
            0 <= i < count_map_entries(*m).len() ==> #[trigger] count_map_entries(*m)[i].0 != k),
        r matches Some(c) ==> exists|i: int|
            0 <= i < count_map_entries(*m).len() && #[trigger] count_map_entries(*m)[i] == (k, c),
{
    m.get(&k).copied()
}

/// Calls `IndexMap::insert`: an existing entry for `k` keeps its place and
/// takes the new value; otherwise the entry is appended last.
#[verifier::external_body]
pub(crate) fn count_map_insert(m: &mut IndexMap<usize, usize>, k: usize, c: usize)
    ensures
        forall|i: int|
            0 <= i < count_map_entries(*old(m)).len() && #[trigger] count_map_entries(*old(m))[i].0
                == k ==> count_map_entries(*final(m)) == count_map_entries(*old(m)).update(
                i,
                (k, c),
            ),
        (forall|i: int|
            0 <= i < count_map_entries(*old(m)).len() ==> #[trigger] count_map_entries(*old(m))[i].0
                != k) ==> count_map_entries(*final(m)) == count_map_entries(*old(m)).push((k, c)),
{
    m.insert(k, c);
}

/// Walks `IndexMap::iter`, which yields the entries in insertion order, into
/// a vector.
#[verifier::external_body]
pub(crate) fn count_map_to_vec(m: &IndexMap<usize, usize>) -> (v: Vec<(usize, usize)>)
    ensures
        v@ == count_map_entries(*m),
{
    m.iter().map(|(k, c)| (*k, *c)).collect()
}

} // verus!
