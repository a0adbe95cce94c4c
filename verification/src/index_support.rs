//! The `indexmap` collections that colors and queues keep, and what this
//! library relies on of them.

use vstd::prelude::*;

use indexmap::{IndexMap, IndexSet};

verus! {

#[verifier::external_type_specification]
#[verifier::external_body]
#[verifier::reject_recursive_types(T)]
#[verifier::reject_recursive_types(S)]
pub struct ExIndexSet<T, S>(IndexSet<T, S>);

/// The elements an `IndexSet<u32>` holds.
pub uninterp spec fn index_set_items(s: IndexSet<u32>) -> Set<u32>;

/// `IndexSet::new`: an empty set.
#[verifier::external_body]
pub(crate) fn index_set_new() -> (r: IndexSet<u32>)
    ensures
        index_set_items(r).is_empty(),
        index_set_items(r).finite(),
{
    IndexSet::new()
}

/// `IndexSet::insert`: adds `x`; true if it was not there.
#[verifier::external_body]
pub(crate) fn index_set_insert(s: &mut IndexSet<u32>, x: u32) -> (r: bool)
    ensures
        r == !index_set_items(*old(s)).contains(x),
        index_set_items(*final(s)) == index_set_items(*old(s)).insert(x),
{
    s.insert(x)
}

/// `IndexSet::swap_remove`: removes `x`; true if it was there.
#[verifier::external_body]
pub(crate) fn index_set_swap_remove(s: &mut IndexSet<u32>, x: u32) -> (r: bool)
    ensures
        r == index_set_items(*old(s)).contains(x),
        index_set_items(*final(s)) == index_set_items(*old(s)).remove(x),
{
    s.swap_remove(&x)
}

/// `IndexSet::iter`: the elements, each once.
#[verifier::external_body]
pub(crate) fn index_set_values(s: &IndexSet<u32>) -> (r: Vec<u32>)
    ensures
        r@.to_set() == index_set_items(*s),
        r@.no_duplicates(),
{
    s.iter().copied().collect()
}

#[verifier::external_type_specification]
#[verifier::external_body]
#[verifier::reject_recursive_types(K)]
#[verifier::reject_recursive_types(V)]
#[verifier::reject_recursive_types(S)]
pub struct ExIndexMap<K, V, S>(IndexMap<K, V, S>);

/// The classes an `IndexMap<u32, IndexSet<u32>>` holds: each key with the
/// elements of its set.
pub uninterp spec fn index_map_classes(m: IndexMap<u32, IndexSet<u32>>) -> Map<u32, Set<u32>>;

/// Every set of the map, and its key set, are finite.
pub open spec fn classes_finite(m: Map<u32, Set<u32>>) -> bool {
    &&& m.dom().finite()
    &&& forall|k: u32| #[trigger] m.dom().contains(k) ==> m[k].finite()
}

/// `IndexMap::new`: an empty map.
#[verifier::external_body]
pub(crate) fn index_map_new() -> (r: IndexMap<u32, IndexSet<u32>>)
    ensures
        index_map_classes(r).dom().is_empty(),
{
    IndexMap::new()
}

/// `IndexMap::swap_remove`: removes the entry of `k`, giving its set.
#[verifier::external_body]
pub(crate) fn index_map_swap_remove(m: &mut IndexMap<u32, IndexSet<u32>>, k: u32) -> (r: Option<IndexSet<u32>>)
    ensures
        r is Some <==> index_map_classes(*old(m)).dom().contains(k),
        r matches Some(s) ==> index_set_items(s) == index_map_classes(*old(m))[k],
        index_map_classes(*final(m)) == index_map_classes(*old(m)).remove(k),
{
    m.swap_remove(&k)
}

/// `IndexMap::get`, cloned: a copy of the set of `k`.
#[verifier::external_body]
pub(crate) fn index_map_get(m: &IndexMap<u32, IndexSet<u32>>, k: u32) -> (r: Option<IndexSet<u32>>)
    ensures
        r is Some <==> index_map_classes(*m).dom().contains(k),
        r matches Some(s) ==> index_set_items(s) == index_map_classes(*m)[k],
{
    m.get(&k).cloned()
}

/// `IndexMap::insert`: sets the set of `k`.
#[verifier::external_body]
pub(crate) fn index_map_insert(m: &mut IndexMap<u32, IndexSet<u32>>, k: u32, v: IndexSet<u32>)
    ensures
        index_map_classes(*final(m)) == index_map_classes(*old(m)).insert(k, index_set_items(v)),
{
    m.insert(k, v);
}

/// `IndexMap::keys`: the keys, each once.
#[verifier::external_body]
pub(crate) fn index_map_keys(m: &IndexMap<u32, IndexSet<u32>>) -> (r: Vec<u32>)
    ensures
        r@.to_set() == index_map_classes(*m).dom(),
        r@.no_duplicates(),
{
    m.keys().copied().collect()
}

} // verus!
