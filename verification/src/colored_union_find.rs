//! The union-find that a color keeps over the ids of its parent layer.

use vstd::prelude::*;

use crate::Id;
use crate::keyed_union_find::{merged_key_leaders, with_key, UnionFindWrapper};

verus! {

/// How many ids the set led by `l` holds.
pub open spec fn class_size(m: Map<u32, u32>, l: u32) -> nat {
    class_of(m, l).len()
}

/// The ids of the set led by `l`.
pub open spec fn class_of(m: Map<u32, u32>, l: u32) -> Set<u32> {
    Set::new(|k: u32| m.dom().contains(k) && m[k] == l)
}

/// A union-find over ids that were inserted explicitly. Unlike
/// [`UnionFindWrapper`], its operations refuse ids that were never inserted.
///
/// Its view maps each inserted id to the id that leads its set; the leader
/// of the bigger of two merged sets leads the result.
pub struct ColoredUnionFind {
    inner: UnionFindWrapper,
}

impl View for ColoredUnionFind {
    type V = Map<u32, u32>;

    closed spec fn view(&self) -> Map<u32, u32> {
        self.inner@
    }
}

impl ColoredUnionFind {
    /// The structure is consistent.
    pub closed spec fn wf(&self) -> bool {
        self.inner.wf()
    }

    /// How many dense indices have been handed out (one per inserted id).
    pub closed spec fn ids_used(&self) -> nat {
        self.inner.ids_used()
    }

    /// Leaders lead themselves, and are ids of the structure.
    pub proof fn lemma_view_closed(&self)
        requires
            self.wf(),
        ensures
            self@.dom().finite(),
            self.ids_used() <= 0x1_0000_0000,
            forall|k: u32| self@.dom().contains(k) ==> self@.dom().contains(#[trigger] self@[k]),
            forall|k: u32| self@.dom().contains(k) ==> #[trigger] self@[self@[k]] == self@[k],
    {
        self.inner.lemma_view_closed();
    }

    /// An empty union-find.
    pub fn new() -> (r: Self)
        ensures
            r.wf(),
            r@ == Map::<u32, u32>::empty(),
            r.ids_used() == 0,
    {
        ColoredUnionFind { inner: UnionFindWrapper::new() }
    }

    /// Each id with the leader of its set, ids in increasing order.
    pub fn iter(&self) -> (r: Vec<(Id, Id)>)
        requires
            self.wf(),
        ensures
            forall|k1: int, k2: int| 0 <= k1 < k2 < r@.len() ==> r@[k1].0.0 < r@[k2].0.0,
            forall|k: int|
                0 <= k < r@.len() ==> self@.dom().contains(#[trigger] r@[k].0.0) && r@[k].1.0 == self@[r@[k].0.0],
            forall|key: u32| #[trigger]
                self@.dom().contains(key) ==> exists|k: int| 0 <= k < r@.len() && r@[k].0.0 == key,
    {
        let keys = self.inner.iter();
        let mut out: Vec<(Id, Id)> = Vec::new();
        let mut i: usize = 0;
        while i < keys.len()
            invariant
                0 <= i <= keys@.len(),
                self.wf(),
                out@.len() == i,
                forall|k: int| 0 <= k < i ==> (#[trigger] out@[k]).0 == keys@[k] && out@[k].1.0 == self@[keys@[k].0],
                forall|k: int| 0 <= k < keys@.len() ==> self@.dom().contains(#[trigger] keys@[k].0),
            decreases keys@.len() - i,
        {
            let k = keys[i];
            let leader = self.inner.find(k);
            out.push((k, leader));
            i = i + 1;
        }
        proof {
            assert forall|key: u32| #[trigger] self@.dom().contains(key) implies exists|k: int|
                0 <= k < out@.len() && out@[k].0.0 == key by {
                let k = choose|k: int| 0 <= k < keys@.len() && keys@[k].0 == key;
                assert(out@[k].0 == keys@[k]);
            }
        }
        out
    }

    /// The number of ids.
    pub fn size(&self) -> (r: usize)
        requires
            self.wf(),
        ensures
            r == self@.dom().len(),
    {
        self.inner.len()
    }

    /// Creates a new set holding `t`, unless `t` is already present.
    pub fn insert(&mut self, t: Id)
        requires
            old(self).wf(),
            old(self)@.dom().contains(t.0) || old(self).ids_used() < 0x1_0000_0000,
        ensures
            final(self).wf(),
            final(self)@ == with_key(old(self)@, t.0),
            final(self).ids_used() == old(self).ids_used() + (if old(self)@.dom().contains(t.0) {
                0nat
            } else {
                1nat
            }),
    {
        self.inner.insert(t);
    }

    /// The leader of the set that `current` is in, or `None` if `current`
    /// was never inserted.
    pub fn find(&self, current: &Id) -> (r: Option<Id>)
        requires
            self.wf(),
        ensures
            r == (if self@.dom().contains(current.0) {
                Some(Id(self@[current.0]))
            } else {
                None::<Id>
            }),
    {
        if self.inner.contains(current) {
            Some(self.inner.find(*current))
        } else {
            None
        }
    }

    /// How many ids the set led by `l` holds.
    fn count_class(&self, l: Id) -> (r: usize)
        requires
            self.wf(),
        ensures
            r == class_size(self@, l.0),
    {
        let keys = self.inner.iter();
        let ghost m = self@;
        let ghost mut seen: Set<u32> = Set::empty();
        let mut count: usize = 0;
        let mut i: usize = 0;
        while i < keys.len()
            invariant
                self.wf(),
                m == self@,
                0 <= i <= keys@.len(),
                forall|k1: int, k2: int| 0 <= k1 < k2 < keys@.len() ==> keys@[k1].0 < keys@[k2].0,
                forall|k: int| 0 <= k < keys@.len() ==> m.dom().contains(#[trigger] keys@[k].0),
                seen.finite(),
                count == seen.len(),
                count <= i,
                forall|v: u32| #[trigger] seen.contains(v) <==> exists|j: int|
                    0 <= j < i && keys@[j].0 == v && m[v] == l.0,
            decreases keys@.len() - i,
        {
            let k = keys[i];
            let leader = self.inner.find(k);
            if leader.0 == l.0 {
                proof {
                    assert(!seen.contains(k.0)) by {
                        if seen.contains(k.0) {
                            let j = choose|j: int| 0 <= j < i && keys@[j].0 == k.0 && m[k.0] == l.0;
                            assert(keys@[j].0 < keys@[i as int].0);
                        }
                    }
                    seen = seen.insert(k.0);
                    assert forall|v: u32| #[trigger] seen.contains(v) <==> exists|j: int|
                        0 <= j < i + 1 && keys@[j].0 == v && m[v] == l.0 by {
                        if v == k.0 {
                            assert(keys@[i as int].0 == v);
                        }
                    }
                }
                count = count + 1;
            } else {
                proof {
                    assert forall|v: u32| #[trigger] seen.contains(v) <==> exists|j: int|
                        0 <= j < i + 1 && keys@[j].0 == v && m[v] == l.0 by {
                        if exists|j: int| 0 <= j < i + 1 && keys@[j].0 == v && m[v] == l.0 {
                            let j = choose|j: int| 0 <= j < i + 1 && keys@[j].0 == v && m[v] == l.0;
                            if j == i {
                                assert(keys@[i as int].0 == k.0);
                            }
                        }
                    }
                }
            }
            i = i + 1;
        }
        proof {
            assert forall|v: u32| #[trigger] seen.contains(v) <==> class_of(m, l.0).contains(v) by {
                if m.dom().contains(v) && m[v] == l.0 {
                    let j = choose|j: int| 0 <= j < keys@.len() && keys@[j].0 == v;
                    assert(keys@[j].0 == v);
                }
            }
            assert(seen =~= class_of(m, l.0));
            assert(seen.len() == class_size(self@, l.0));
        }
        count
    }

    /// Unions the sets of `x` and `y`; the leader of the bigger set leads
    /// the result, the leader of `x`'s set when both are equally big.
    /// Returns `None` if either id is missing, and otherwise
    /// `Some((new leader, other former leader))`.
    pub fn union(&mut self, x: &Id, y: &Id) -> (r: Option<(Id, Id)>)
        requires
            old(self).wf(),
        ensures
            final(self).wf(),
            final(self).ids_used() == old(self).ids_used(),
            r is None <==> !(old(self)@.dom().contains(x.0) && old(self)@.dom().contains(y.0)),
            r is None ==> final(self)@ == old(self)@,
            r is Some ==> ({
                let a = old(self)@[x.0];
                let b = old(self)@[y.0];
                let (to, from) = r->0;
                let b_bigger = class_size(old(self)@, b) > class_size(old(self)@, a);
                &&& to.0 == (if b_bigger { b } else { a })
                &&& from.0 == (if b_bigger { a } else { b })
                &&& final(self)@ == merged_key_leaders(old(self)@, to.0, from.0)
            }),
    {
        if !self.inner.contains(x) || !self.inner.contains(y) {
            return None;
        }
        proof {
            self.inner.lemma_view_closed();
        }
        let a = self.inner.find(*x);
        let b = self.inner.find(*y);
        let size_a = self.count_class(a);
        let size_b = self.count_class(b);
        let (to, from) = if size_b > size_a {
            (b, a)
        } else {
            (a, b)
        };
        if to.0 == from.0 {
            proof {
                assert(merged_key_leaders(self@, to.0, from.0) =~= self@);
            }
        } else {
            self.inner.join_leaders(to, from);
        }
        Some((to, from))
    }

    /// Removes a single id that does not lead its set; its set stays.
    /// Fails (returns `None`) for a leader and for an id never inserted.
    /// Each id of `keys_to_check` must belong to the set of `t`; they are
    /// pointed directly at the leader before `t` goes.
    pub fn remove(&mut self, t: &Id, keys_to_check: Option<Vec<Id>>) -> (r: Option<()>)
        requires
            old(self).wf(),
            old(self)@.dom().contains(t.0) && old(self)@[t.0] != t.0 ==> (
            keys_to_check matches Some(keys) ==> forall|j: int|
                0 <= j < keys@.len() ==> old(self)@.dom().contains(#[trigger] keys@[j].0)
                    && old(self)@[keys@[j].0] == old(self)@[t.0]),
        ensures
            final(self).wf(),
            final(self).ids_used() == old(self).ids_used(),
            r is Some <==> old(self)@.dom().contains(t.0) && old(self)@[t.0] != t.0,
            r is Some ==> final(self)@ == old(self)@.remove(t.0),
            r is None ==> final(self)@ == old(self)@,
    {
        if !self.inner.contains(t) {
            return None;
        }
        let leader = self.inner.find_mut(*t);
        if leader == *t {
            return None;
        }
        if let Some(keys) = keys_to_check {
            let ghost v = self@;
            let mut j: usize = 0;
            while j < keys.len()
                invariant
                    self.wf(),
                    self@ == v,
                    self.ids_used() == old(self).ids_used(),
                    v == old(self)@,
                    0 <= j <= keys@.len(),
                    forall|i: int|
                        0 <= i < keys@.len() ==> v.dom().contains(#[trigger] keys@[i].0) && v[keys@[i].0]
                            == v[t.0],
                decreases keys@.len() - j,
            {
                let k = keys[j];
                let inner = self.inner.find_mut(k);
                proof {
                    assert(inner.0 == v[t.0]);
                }
                j = j + 1;
            }
        }
        self.inner.remove(t)
    }
}

} // verus!

verus! {

impl Default for ColoredUnionFind {
    fn default() -> (r: Self)
        ensures
            r.wf(),
            r@ == Map::<u32, u32>::empty(),
            r.ids_used() == 0,
    {
        ColoredUnionFind::new()
    }
}

} // verus!
