//! The translation table between keys and dense indices, kept in a
//! `bimap::BiBTreeMap<u32, usize>`, and what this library relies on of it.

use vstd::prelude::*;

use bimap::BiBTreeMap;

verus! {

#[verifier::external_type_specification]
#[verifier::external_body]
#[verifier::reject_recursive_types(L)]
#[verifier::reject_recursive_types(R)]
pub struct ExBiBTreeMap<L, R>(BiBTreeMap<L, R>);

/// The left-to-right pairs that a bimap holds.
pub uninterp spec fn bimap_pairs(m: BiBTreeMap<u32, usize>) -> Map<u32, usize>;

/// No two left values are paired with the same right value.
pub open spec fn injective(m: Map<u32, usize>) -> bool {
    forall|a: u32, b: u32|
        m.dom().contains(a) && m.dom().contains(b) && #[trigger] m[a] == #[trigger] m[b] ==> a == b
}

/// A bimap's pairs form a finite, injective map.
pub open spec fn bimap_ok(m: Map<u32, usize>) -> bool {
    m.dom().finite() && injective(m)
}

/// `BiBTreeMap::new`: an empty bimap.
#[verifier::external_body]
pub(crate) fn bimap_new() -> (r: BiBTreeMap<u32,usize>)
    ensures
        bimap_pairs(r).dom().is_empty(),
        bimap_ok(bimap_pairs(r)),
{
    BiBTreeMap::new()
}

/// `BiBTreeMap::len`: the number of pairs.
#[verifier::external_body]
pub(crate) fn bimap_len(m: &BiBTreeMap<u32, usize>) -> (r: usize)
    ensures
        r == bimap_pairs(*m).dom().len(),
{
    m.len()
}

/// `BiBTreeMap::contains_left`: whether a left value is paired.
#[verifier::external_body]
pub(crate) fn bimap_contains_left(m: &BiBTreeMap<u32, usize>, left: u32) -> (r: bool)
    ensures
        r == bimap_pairs(*m).dom().contains(left),
{
    m.contains_left(&left)
}

/// `BiBTreeMap::get_by_left`: the right value paired with a left value.
#[verifier::external_body]
pub(crate) fn bimap_get_by_left(m: &BiBTreeMap<u32, usize>, left: u32) -> (r: Option<usize>)
    ensures
        r == (if bimap_pairs(*m).dom().contains(left) {
            Some(bimap_pairs(*m)[left])
        } else {
            None::<usize>
        }),
{
    m.get_by_left(&left).copied()
}

/// `BiBTreeMap::get_by_right`: the left value paired with a right value.
#[verifier::external_body]
pub(crate) fn bimap_get_by_right(m: &BiBTreeMap<u32, usize>, right: usize) -> (r: Option<u32>)
    ensures
        r is Some ==> bimap_pairs(*m).dom().contains(r->0) && bimap_pairs(*m)[r->0] == right,
        r is None ==> forall|l: u32|
            #[trigger] bimap_pairs(*m).dom().contains(l) ==> bimap_pairs(*m)[l] != right,
{
    m.get_by_right(&right).copied()
}

/// `BiBTreeMap::insert`: pairs `left` with `right`, first dropping any pair
/// that holds either of them.
#[verifier::external_body]
pub(crate) fn bimap_insert(m: &mut BiBTreeMap<u32, usize>, left: u32, right: usize)
    ensures
        bimap_ok(bimap_pairs(*old(m))) ==> bimap_ok(bimap_pairs(*final(m))),
        bimap_pairs(*final(m)).dom().contains(left),
        bimap_pairs(*final(m))[left] == right,
        forall|l: u32|
            l != left ==> (#[trigger] bimap_pairs(*final(m)).dom().contains(l) <==> (
            bimap_pairs(*old(m)).dom().contains(l) && bimap_pairs(*old(m))[l] != right)),
        forall|l: u32|
            l != left && #[trigger] bimap_pairs(*final(m)).dom().contains(l) ==> bimap_pairs(
                *final(m),
            )[l] == bimap_pairs(*old(m))[l],
{
    m.insert(left, right);
}

/// `BiBTreeMap::remove_by_left`: drops the pair of a left value.
#[verifier::external_body]
pub(crate) fn bimap_remove_by_left(m: &mut BiBTreeMap<u32, usize>, left: u32)
    ensures
        bimap_pairs(*final(m)) == bimap_pairs(*old(m)).remove(left),
        bimap_ok(bimap_pairs(*old(m))) ==> bimap_ok(bimap_pairs(*final(m))),
{
    m.remove_by_left(&left);
}

/// `BiBTreeMap::left_values`: the left values, in increasing order.
#[verifier::external_body]
pub(crate) fn bimap_left_values(m: &BiBTreeMap<u32, usize>) -> (r: Vec<u32>)
    ensures
        forall|k1: int, k2: int| 0 <= k1 < k2 < r@.len() ==> r@[k1] < r@[k2],
        forall|k: int| 0 <= k < r@.len() ==> bimap_pairs(*m).dom().contains(#[trigger] r@[k]),
        forall|l: u32| #[trigger]
            bimap_pairs(*m).dom().contains(l) ==> r@.contains(l),
{
    m.left_values().copied().collect()
}

} // verus!
