//! A union-find over arbitrary ids, built on the dense [`SimpleUnionFind`]
//! through a translation table.

use vstd::prelude::*;

use crate::Id;
use crate::unionfind::{merged_leaders, SimpleUnionFind, UnionFind, MutUnionFind};
use crate::bimap_support::{bimap_pairs, bimap_ok, bimap_new, bimap_len, bimap_contains_left, bimap_get_by_left, bimap_get_by_right, bimap_insert, bimap_remove_by_left, bimap_left_values};
use bimap::BiBTreeMap;

verus! {

/// The leader map of keys after the class led by `from` is merged into the
/// class led by `to`.
pub open spec fn merged_key_leaders(m: Map<u32, u32>, to: u32, from: u32) -> Map<u32, u32> {
    Map::new(|k: u32| m.dom().contains(k), |k: u32| if m[k] == from { to } else { m[k] })
}

/// Every key's leader is a key and leads itself.
pub open spec fn key_leaders_closed(m: Map<u32, u32>) -> bool {
    forall|k: u32|
        m.dom().contains(k) ==> m.dom().contains(#[trigger] m[k]) && m[m[k]] == m[k]
}

/// A union of keys relates exactly what was related before, plus every pair
/// drawn from the two merged sets; the two given keys end up with one
/// leader, and the key set does not change.
pub proof fn law_key_union_exact(m: Map<u32, u32>, a: u32, b: u32, x: u32, y: u32)
    requires
        key_leaders_closed(m),
        m.dom().contains(a),
        m.dom().contains(b),
        m.dom().contains(x),
        m.dom().contains(y),
    ensures
        ({
            let to = if m[a] <= m[b] { m[a] } else { m[b] };
            let from = if m[a] <= m[b] { m[b] } else { m[a] };
            let r = merged_key_leaders(m, to, from);
            &&& r.dom() == m.dom()
            &&& r[a] == r[b]
            &&& (r[x] == r[y] <==> (m[x] == m[y] || ((m[x] == m[a] || m[x] == m[b]) && (m[y]
                == m[a] || m[y] == m[b]))))
            &&& key_leaders_closed(r)
        }),
{
    let to = if m[a] <= m[b] { m[a] } else { m[b] };
    let from = if m[a] <= m[b] { m[b] } else { m[a] };
    let r = merged_key_leaders(m, to, from);
    assert(m[m[a]] == m[a]);
    assert(m[m[b]] == m[b]);
    assert(m[m[x]] == m[x]);
    assert(m[m[y]] == m[y]);
    assert(r.dom() =~= m.dom());
    assert forall|k: u32| r.dom().contains(k) implies r.dom().contains(#[trigger] r[k]) && r[r[k]]
        == r[k] by {
        assert(m.dom().contains(m[k]));
        assert(m[m[k]] == m[k]);
    }
}

/// Adding a key keeps every other key's leader, and the new key leads itself.
pub proof fn law_with_key(m: Map<u32, u32>, key: u32)
    requires
        key_leaders_closed(m),
    ensures
        key_leaders_closed(with_key(m, key)),
        with_key(m, key).dom().contains(key),
        forall|k: u32| m.dom().contains(k) ==> #[trigger] with_key(m, key)[k] == m[k],
        !m.dom().contains(key) ==> with_key(m, key)[key] == key,
{
    let w = with_key(m, key);
    assert forall|k: u32| w.dom().contains(k) implies w.dom().contains(#[trigger] w[k]) && w[w[k]]
        == w[k] by {
        if k != key || m.dom().contains(key) {
            assert(m.dom().contains(m[k]));
        }
    }
}

/// The leader map after `key` is added as a set of its own, if it was absent.
pub open spec fn with_key(m: Map<u32, u32>, key: u32) -> Map<u32, u32> {
    if m.dom().contains(key) {
        m
    } else {
        m.insert(key, key)
    }
}

/// A union-find over arbitrary `Id` keys: each key is translated to a dense
/// index of an inner [`SimpleUnionFind`], and the leader of a set is the key
/// of the inner leader.
///
/// Its view maps each key to the key that leads its set.
pub struct UnionFindWrapper {
    uf: SimpleUnionFind,
    trns: BiBTreeMap<u32, usize>,
    lead: Ghost<Map<u32, u32>>,
}

impl View for UnionFindWrapper {
    type V = Map<u32, u32>;

    closed spec fn view(&self) -> Map<u32, u32> {
        self.lead@
    }
}

impl UnionFindWrapper {
    spec fn pairs(&self) -> Map<u32, usize> {
        bimap_pairs(self.trns)
    }

    /// How many inner indices have been handed out; each insertion of a new
    /// key uses one, and removal does not return it.
    pub closed spec fn ids_used(&self) -> nat {
        self.uf@.len()
    }

    /// The keys and the inner union-find agree: the leader of a key is the
    /// key of the inner leader of its index, and every inner leader has a key.
    pub closed spec fn wf(&self) -> bool {
        let p = self.pairs();
        &&& self.uf.wf()
        &&& self.uf@.len() <= 0x1_0000_0000
        &&& bimap_ok(p)
        &&& p.dom() == self.lead@.dom()
        &&& forall|k: u32| #[trigger] p.dom().contains(k) ==> (p[k] as int) < self.uf@.len()
        &&& forall|k: u32|
            p.dom().contains(k) ==> p.dom().contains(#[trigger] self.lead@[k]) && p[self.lead@[k]]
                == self.uf@[p[k] as int] as usize
        &&& forall|i: int|
            0 <= i < self.uf@.len() && #[trigger] self.uf@[i] == i ==> exists|k: u32|
                p.dom().contains(k) && #[trigger] p[k] == i
    }

    /// Leaders lead themselves, and are keys of the structure.
    pub proof fn lemma_view_closed(&self)
        requires
            self.wf(),
        ensures
            self@.dom().finite(),
            self.ids_used() <= 0x1_0000_0000,
            forall|k: u32| self@.dom().contains(k) ==> self@.dom().contains(#[trigger] self@[k]),
            forall|k: u32| self@.dom().contains(k) ==> #[trigger] self@[self@[k]] == self@[k],
    {
        self.uf.lemma_view_closed();
        let p = self.pairs();
        assert forall|k: u32| self@.dom().contains(k) implies self@.dom().contains(
            #[trigger] self@[k],
        ) && self@[self@[k]] == self@[k] by {
            let l = self.lead@[k];
            assert(p.dom().contains(k));
            assert(p.dom().contains(l));
            assert(p.dom().contains(self.lead@[l]));
            assert((p[k] as int) < self.uf@.len());
            assert(p[self.lead@[l]] == p[l]);
        }
    }

    /// An empty union-find.
    pub fn new() -> (r: Self)
        ensures
            r.wf(),
            r@ == Map::<u32, u32>::empty(),
            r.ids_used() == 0,
    {
        let r = UnionFindWrapper {
            uf: SimpleUnionFind::new(),
            trns: bimap_new(),
            lead: Ghost(Map::empty()),
        };
        proof {
            assert(r.pairs().dom() =~= r.lead@.dom());
        }
        r
    }

    /// The number of keys.
    pub fn len(&self) -> (r: usize)
        requires
            self.wf(),
        ensures
            r == self@.dom().len(),
    {
        bimap_len(&self.trns)
    }

    /// Whether `key` is in the structure.
    pub fn contains(&self, key: &Id) -> (r: bool)
        requires
            self.wf(),
        ensures
            r == self@.dom().contains(key.0),
    {
        bimap_contains_left(&self.trns, key.0)
    }

    /// The key paired with an inner leader index.
    fn key_of_root(&self, root: Id) -> (r: u32)
        requires
            self.wf(),
            (root.0 as int) < self.uf@.len(),
            self.uf@[root.0 as int] == root.0,
        ensures
            self.pairs().dom().contains(r),
            self.pairs()[r] == root.0 as usize,
    {
        let got = bimap_get_by_right(&self.trns, root.0 as usize);
        proof {
            let i = root.0 as int;
            assert(self.uf@[i] == i);
            let k = choose|k: u32| self.pairs().dom().contains(k) && #[trigger] self.pairs()[k] == i;
            assert(self.pairs().dom().contains(k));
        }
        got.unwrap()
    }

    /// Adds `key` as a set of its own, unless it is already present.
    pub fn insert(&mut self, key: Id)
        requires
            old(self).wf(),
            old(self)@.dom().contains(key.0) || old(self).ids_used() < 0x1_0000_0000,
        ensures
            final(self).wf(),
            final(self)@ == with_key(old(self)@, key.0),
            final(self).ids_used() == old(self).ids_used() + (if old(self)@.dom().contains(key.0) {
                0nat
            } else {
                1nat
            }),
    {
        if bimap_contains_left(&self.trns, key.0) {
            return;
        }
        let ghost old_self = *self;
        let ghost op = old_self.pairs();
        let id = self.uf.make_set();
        bimap_insert(&mut self.trns, key.0, id.0 as usize);
        proof {
            self.lead@ = old_self.lead@.insert(key.0, key.0);
            let p = self.pairs();
            let n = self.uf@.len();
            assert forall|k: u32| #[trigger] op.dom().contains(k) implies op[k] != id.0 as usize by {
                assert((op[k] as int) < old_self.uf@.len());
            }
            assert(p.dom() =~= self.lead@.dom());
            assert forall|k: u32| #[trigger] p.dom().contains(k) implies (p[k] as int) < n by {
                if k != key.0 {
                    assert(op.dom().contains(k));
                }
            }
            assert forall|k: u32| p.dom().contains(k) implies p.dom().contains(
                #[trigger] self.lead@[k],
            ) && p[self.lead@[k]] == self.uf@[p[k] as int] as usize by {
                if k != key.0 {
                    assert(op.dom().contains(k));
                    let l = old_self.lead@[k];
                    assert(op.dom().contains(l));
                    assert((op[k] as int) < old_self.uf@.len());
                    assert(op[l] != id.0 as usize);
                    assert(l != key.0);
                    assert(p.dom().contains(l));
                    assert(p[l] == op[l]);
                }
            }
            assert forall|i: int|
                0 <= i < n && #[trigger] self.uf@[i] == i implies exists|k: u32|
                p.dom().contains(k) && #[trigger] p[k] == i by {
                if i == id.0 as int {
                    assert(p[key.0] == i);
                } else {
                    assert(old_self.uf@[i] == i);
                    let k = choose|k: u32| op.dom().contains(k) && #[trigger] op[k] == i;
                    assert(k != key.0);
                    assert(p.dom().contains(k));
                    assert(p[k] == i);
                }
            }
        }
    }

    /// Finds the key that leads the set of `key`; a key that is not present
    /// is its own leader.
    pub fn find(&self, key: Id) -> (r: Id)
        requires
            self.wf(),
        ensures
            r.0 == (if self@.dom().contains(key.0) { self@[key.0] } else { key.0 }),
    {
        match bimap_get_by_left(&self.trns, key.0) {
            None => key,
            Some(idx) => {
                proof {
                    assert(self.pairs().dom().contains(key.0));
                }
                let root = self.uf.find(Id::from(idx));
                let k = self.key_of_root(root);
                proof {
                    self.lemma_same_index(k, self.lead@[key.0]);
                }
                Id(k)
            }
        }
    }

    /// Two keys with the same index are the same key.
    proof fn lemma_same_index(&self, a: u32, b: u32)
        requires
            self.wf(),
            self.pairs().dom().contains(a),
            self.pairs().dom().contains(b),
            self.pairs()[a] == self.pairs()[b],
        ensures
            a == b,
    {
    }

    /// As [`find`](Self::find), and shortens the inner paths on the way.
    pub fn find_mut(&mut self, key: Id) -> (r: Id)
        requires
            old(self).wf(),
        ensures
            final(self).wf(),
            final(self)@ == old(self)@,
            final(self).ids_used() == old(self).ids_used(),
            r.0 == (if old(self)@.dom().contains(key.0) { old(self)@[key.0] } else { key.0 }),
    {
        match bimap_get_by_left(&self.trns, key.0) {
            None => key,
            Some(idx) => {
                proof {
                    assert(self.pairs().dom().contains(key.0));
                }
                let root = self.uf.find_mut(Id::from(idx));
                let k = self.key_of_root(root);
                proof {
                    self.lemma_same_index(k, self.lead@[key.0]);
                }
                Id(k)
            }
        }
    }

    /// Unions the sets of `key1` and `key2`, adding either key first if it is
    /// absent. The smaller of the two leading keys leads the merged set.
    /// Returns (new leader, the other former leader).
    pub fn union(&mut self, key1: Id, key2: Id) -> (r: (Id, Id))
        requires
            old(self).wf(),
            old(self).ids_used() + (if old(self)@.dom().contains(key1.0) {
                0nat
            } else {
                1nat
            }) + (if old(self)@.dom().contains(key2.0) || key2 == key1 {
                0nat
            } else {
                1nat
            }) <= 0x1_0000_0000,
        ensures
            final(self).wf(),
            final(self).ids_used() == old(self).ids_used() + (if old(self)@.dom().contains(key1.0) {
                0nat
            } else {
                1nat
            }) + (if old(self)@.dom().contains(key2.0) || key2 == key1 {
                0nat
            } else {
                1nat
            }),
            ({
                let w = with_key(with_key(old(self)@, key1.0), key2.0);
                let a = w[key1.0];
                let b = w[key2.0];
                &&& r.0.0 == (if a <= b { a } else { b })
                &&& r.1.0 == (if a <= b { b } else { a })
                &&& final(self)@ == merged_key_leaders(w, r.0.0, r.1.0)
            }),
    {
        if !bimap_contains_left(&self.trns, key1.0) {
            self.insert(key1);
        }
        if !bimap_contains_left(&self.trns, key2.0) {
            self.insert(key2);
        }
        let ghost w = self@;
        let idx1 = bimap_get_by_left(&self.trns, key1.0).unwrap();
        let idx2 = bimap_get_by_left(&self.trns, key2.0).unwrap();
        proof {
            assert((self.pairs()[key1.0] as int) < self.uf@.len());
            assert((self.pairs()[key2.0] as int) < self.uf@.len());
        }
        let mut k1 = self.uf.find_mut(Id::from(idx1));
        let mut k2 = self.uf.find_mut(Id::from(idx2));
        let mut key_a = self.key_of_root(k1);
        let mut key_b = self.key_of_root(k2);
        proof {
            self.lemma_same_index(key_a, self.lead@[key1.0]);
            self.lemma_same_index(key_b, self.lead@[key2.0]);
        }
        if key_a > key_b {
            let t = k1;
            k1 = k2;
            k2 = t;
            let tk = key_a;
            key_a = key_b;
            key_b = tk;
        }
        let ghost old_self = *self;
        proof {
            old_self.lemma_view_closed();
            old_self.uf.lemma_view_closed();
            assert(old_self.pairs()[key_a] == k1.0 as usize);
            assert(old_self.pairs()[key_b] == k2.0 as usize);
        }
        let (root1, root2) = self.uf.union_no_swap(k1, k2);
        proof {
            self.lead@ = merged_key_leaders(w, key_a, key_b);
            Self::lemma_union_step(old_self, *self, key_a, key_b);
        }
        (Id(key_a), Id(key_b))
    }

    /// Merges the set led by `key_b` into the set led by `key_a`, so that
    /// `key_a` leads the result.
    pub fn join_leaders(&mut self, key_a: Id, key_b: Id)
        requires
            old(self).wf(),
            old(self)@.dom().contains(key_a.0),
            old(self)@.dom().contains(key_b.0),
            old(self)@[key_a.0] == key_a.0,
            old(self)@[key_b.0] == key_b.0,
        ensures
            final(self).wf(),
            final(self).ids_used() == old(self).ids_used(),
            final(self)@ == merged_key_leaders(old(self)@, key_a.0, key_b.0),
    {
        let ghost old_self = *self;
        let idx1 = bimap_get_by_left(&self.trns, key_a.0).unwrap();
        let idx2 = bimap_get_by_left(&self.trns, key_b.0).unwrap();
        proof {
            old_self.lemma_view_closed();
            old_self.uf.lemma_view_closed();
            assert((self.pairs()[key_a.0] as int) < self.uf@.len());
            assert((self.pairs()[key_b.0] as int) < self.uf@.len());
            assert(self.pairs()[key_a.0] == self.uf@[self.pairs()[key_a.0] as int] as usize);
            assert(self.pairs()[key_b.0] == self.uf@[self.pairs()[key_b.0] as int] as usize);
        }
        let _ = self.uf.union_no_swap(Id::from(idx1), Id::from(idx2));
        proof {
            self.lead@ = merged_key_leaders(old_self@, key_a.0, key_b.0);
            Self::lemma_union_step(old_self, *self, key_a.0, key_b.0);
        }
    }

    /// Merging the inner sets of two leading keys keeps the structure
    /// consistent with the merged key leaders.
    proof fn lemma_union_step(pre: Self, post: Self, key_a: u32, key_b: u32)
        requires
            pre.wf(),
            post.uf.wf(),
            post.trns == pre.trns,
            pre@.dom().contains(key_a),
            pre@.dom().contains(key_b),
            pre@[key_a] == key_a,
            pre@[key_b] == key_b,
            post.uf@.len() == pre.uf@.len(),
            post.uf@ == merged_leaders(
                pre.uf@,
                pre.pairs()[key_a] as u32,
                pre.pairs()[key_b] as u32,
            ),
            post.lead@ == merged_key_leaders(pre.lead@, key_a, key_b),
        ensures
            post.wf(),
    {
        let p = pre.pairs();
        let n = pre.uf@.len();
        let ra = p[key_a] as u32;
        let rb = p[key_b] as u32;
        assert(post.pairs() == p);
        assert(p.dom() =~= post.lead@.dom());
        assert((p[key_a] as int) < n);
        assert((p[key_b] as int) < n);
        assert forall|k: u32| p.dom().contains(k) implies p.dom().contains(
            #[trigger] post.lead@[k],
        ) && p[post.lead@[k]] == post.uf@[p[k] as int] as usize by {
            let l = pre.lead@[k];
            assert(p.dom().contains(l));
            assert((p[k] as int) < n);
            assert(p[l] == pre.uf@[p[k] as int] as usize);
            if l != key_b && pre.uf@[p[k] as int] == rb {
                pre.lemma_same_index(l, key_b);
            }
        }
        assert forall|i: int|
            0 <= i < n && #[trigger] post.uf@[i] == i implies exists|k: u32|
            p.dom().contains(k) && #[trigger] p[k] == i by {
            if pre.uf@[i] == rb {
                assert(p[key_a] == i);
            } else {
                assert(pre.uf@[i] == i);
                let k = choose|k: u32| p.dom().contains(k) && #[trigger] p[k] == i;
                assert(p[k] == i);
            }
        }
    }

    /// Dropping a key that does not lead its set keeps the structure
    /// consistent.
    proof fn lemma_remove_step(pre: Self, post: Self, t: u32)
        requires
            pre.wf(),
            post.uf == pre.uf,
            bimap_pairs(post.trns) == bimap_pairs(pre.trns).remove(t),
            bimap_ok(bimap_pairs(post.trns)),
            pre@.dom().contains(t),
            pre@[t] != t,
            post.lead@ == pre.lead@.remove(t),
        ensures
            post.wf(),
    {
        let op = pre.pairs();
        let p = post.pairs();
        let n = pre.uf@.len();
        pre.lemma_view_closed();
        assert(p.dom() =~= post.lead@.dom());
        assert forall|k: u32| p.dom().contains(k) implies p.dom().contains(
            #[trigger] post.lead@[k],
        ) && p[post.lead@[k]] == post.uf@[p[k] as int] as usize by {
            assert(op.dom().contains(k));
            let l = pre.lead@[k];
            assert(pre@.dom().contains(k));
            if l == t {
                assert(pre@[l] == l);
            }
            assert(op.dom().contains(l));
        }
        assert forall|i: int|
            0 <= i < n && #[trigger] post.uf@[i] == i implies exists|k: u32|
            p.dom().contains(k) && #[trigger] p[k] == i by {
            assert(pre.uf@[i] == i);
            let k = choose|k: u32| op.dom().contains(k) && #[trigger] op[k] == i;
            if k == t {
                assert((op[k] as int) < n);
                assert(op[pre.lead@[k]] == pre.uf@[op[k] as int] as usize);
                pre.lemma_same_index(pre.lead@[k], k);
            }
            assert(p.dom().contains(k));
            assert(p[k] == i);
        }
    }

    /// Removes a single key that does not lead its set; the set itself stays.
    /// Fails (returns `None`) for a leader, and for a key that is absent.
    pub fn remove(&mut self, t: &Id) -> (r: Option<()>)
        requires
            old(self).wf(),
        ensures
            final(self).wf(),
            final(self).ids_used() == old(self).ids_used(),
            r is Some <==> old(self)@.dom().contains(t.0) && old(self)@[t.0] != t.0,
            r is Some ==> final(self)@ == old(self)@.remove(t.0),
            r is None ==> final(self)@ == old(self)@,
    {
        let leader = self.find_mut(*t);
        if leader == *t {
            return None;
        }
        let ghost old_self = *self;
        bimap_remove_by_left(&mut self.trns, t.0);
        proof {
            self.lead@ = old_self.lead@.remove(t.0);
            Self::lemma_remove_step(old_self, *self, t.0);
        }
        Some(())
    }

    /// The keys, in increasing order.
    pub fn iter(&self) -> (r: Vec<Id>)
        requires
            self.wf(),
        ensures
            forall|k1: int, k2: int| 0 <= k1 < k2 < r@.len() ==> r@[k1].0 < r@[k2].0,
            forall|k: int| 0 <= k < r@.len() ==> self@.dom().contains(#[trigger] r@[k].0),
            forall|key: u32| #[trigger]
                self@.dom().contains(key) ==> exists|k: int| 0 <= k < r@.len() && r@[k].0 == key,
    {
        let lefts = bimap_left_values(&self.trns);
        let mut out: Vec<Id> = Vec::new();
        let mut i: usize = 0;
        while i < lefts.len()
            invariant
                0 <= i <= lefts@.len(),
                out@.len() == i,
                forall|k: int| 0 <= k < i ==> (#[trigger] out@[k]).0 == lefts@[k],
            decreases lefts@.len() - i,
        {
            out.push(Id(lefts[i]));
            i = i + 1;
        }
        proof {
            assert forall|key: u32| #[trigger] self@.dom().contains(key) implies exists|k: int|
                0 <= k < out@.len() && out@[k].0 == key by {
                assert(self.pairs().dom().contains(key));
                assert(lefts@.contains(key));
                let k = choose|k: int| 0 <= k < lefts@.len() && lefts@[k] == key;
                assert(out@[k].0 == key);
            }
        }
        out
    }
}

} // verus!

verus! {

impl UnionFind<Id> for UnionFindWrapper {
    open spec fn uf_wf(&self) -> bool {
        self.wf()
    }

    open spec fn accepts(&self, k: Id) -> bool {
        true
    }

    open spec fn can_union(&self, a: Id, b: Id) -> bool {
        self.ids_used() + (if self@.dom().contains(a.0) {
            0nat
        } else {
            1nat
        }) + (if self@.dom().contains(b.0) || b == a {
            0nat
        } else {
            1nat
        }) <= 0x1_0000_0000
    }

    open spec fn leader_of(&self, k: Id) -> Id {
        if self@.dom().contains(k.0) {
            Id(self@[k.0])
        } else {
            k
        }
    }

    open spec fn count(&self) -> nat {
        self@.dom().len()
    }

    fn len(&self) -> (r: usize) {
        UnionFindWrapper::len(self)
    }

    fn find(&self, current: Id) -> (r: Id) {
        UnionFindWrapper::find(self, current)
    }

    fn union(&mut self, root1: Id, root2: Id) -> (r: (Id, Id)) {
        let r = UnionFindWrapper::union(self, root1, root2);
        proof {
            self.lemma_view_closed();
        }
        r
    }

    fn iter(&self) -> (r: Vec<Id>)
        ensures
            forall|k1: int, k2: int| 0 <= k1 < k2 < r@.len() ==> r@[k1].0 < r@[k2].0,
            forall|k: int| 0 <= k < r@.len() ==> self@.dom().contains(#[trigger] r@[k].0),
            forall|key: u32| #[trigger]
                self@.dom().contains(key) ==> exists|k: int| 0 <= k < r@.len() && r@[k].0 == key,
    {
        UnionFindWrapper::iter(self)
    }
}

impl MutUnionFind<Id> for UnionFindWrapper {
    fn find_mut(&mut self, current: Id) -> (r: Id) {
        UnionFindWrapper::find_mut(self, current)
    }
}

} // verus!

verus! {

impl Default for UnionFindWrapper {
    fn default() -> (r: Self)
        ensures
            r.wf(),
            r@ == Map::<u32, u32>::empty(),
            r.ids_used() == 0,
    {
        UnionFindWrapper::new()
    }
}

} // verus!
