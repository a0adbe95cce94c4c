use vstd::prelude::*;

use crate::Id;

pub use crate::keyed_union_find::{merged_key_leaders, with_key, UnionFindWrapper};

verus! {

/// The leader map after the class led by `from` is merged into the class led
/// by `to`: every element whose leader was `from` is now led by `to`.
pub open spec fn merged_leaders(s: Seq<u32>, to: u32, from: u32) -> Seq<u32> {
    Seq::new(s.len(), |i: int| if s[i] == from { to } else { s[i] })
}

/// Every element's leader is in range and leads itself.
pub open spec fn leaders_closed(s: Seq<u32>) -> bool {
    forall|i: int|
        0 <= i < s.len() ==> (#[trigger] s[i] as int) < s.len() && s[s[i] as int] == s[i]
}

/// Finding twice is finding once: the leader of an element's leader is that
/// same leader.
pub proof fn law_find_idempotent(uf: &SimpleUnionFind, i: int)
    requires
        uf.wf(),
        0 <= i < uf@.len(),
    ensures
        (uf@[i] as int) < uf@.len(),
        uf@[uf@[i] as int] == uf@[i],
{
    uf.lemma_view_closed();
    assert(uf@[uf@[i] as int] == uf@[i]);
}

/// A union relates exactly what was related before, plus every pair drawn
/// from the two merged sets; in particular the two given elements end up
/// with one leader, the leader of the first.
pub proof fn law_union_exact(s: Seq<u32>, a: int, b: int, x: int, y: int)
    requires
        leaders_closed(s),
        0 <= a < s.len(),
        0 <= b < s.len(),
        0 <= x < s.len(),
        0 <= y < s.len(),
    ensures
        ({
            let m = merged_leaders(s, s[a], s[b]);
            &&& m[a] == s[a]
            &&& m[b] == s[a]
            &&& (m[x] == m[y] <==> (s[x] == s[y] || ((s[x] == s[a] || s[x] == s[b]) && (s[y]
                == s[a] || s[y] == s[b]))))
            &&& leaders_closed(m)
        }),
{
    let m = merged_leaders(s, s[a], s[b]);
    assert(s[s[a] as int] == s[a]);
    assert(s[s[b] as int] == s[b]);
    assert(s[s[x] as int] == s[x]);
    assert(s[s[y] as int] == s[y]);
    assert forall|i: int| 0 <= i < m.len() implies (#[trigger] m[i] as int) < m.len()
        && m[m[i] as int] == m[i] by {
        assert(s[s[i] as int] == s[i]);
    }
}

/// The number of leaders among the first `k` elements.
pub open spec fn leaders_upto(s: Seq<u32>, k: int) -> nat
    decreases k,
{
    if k <= 0 {
        0
    } else {
        leaders_upto(s, k - 1) + if s[k - 1] as int == k - 1 {
            1nat
        } else {
            0nat
        }
    }
}

/// The number of sets: the elements that lead themselves.
pub open spec fn leader_count(s: Seq<u32>) -> nat {
    leaders_upto(s, s.len() as int)
}

/// Merging two different sets leaves one leader fewer.
pub proof fn lemma_merge_leader_count(s: Seq<u32>, to: u32, from: u32, k: int)
    requires
        leaders_closed(s),
        to != from,
        (to as int) < s.len(),
        (from as int) < s.len(),
        s[to as int] == to,
        s[from as int] == from,
        0 <= k <= s.len(),
    ensures
        leaders_upto(merged_leaders(s, to, from), k) + (if (from as int) < k {
            1nat
        } else {
            0nat
        }) == leaders_upto(s, k),
    decreases k,
{
    if k > 0 {
        lemma_merge_leader_count(s, to, from, k - 1);
        let i = k - 1;
        let m = merged_leaders(s, to, from);
        assert(s[s[i] as int] == s[i]);
        if s[i] == from {
            assert(m[i] == to);
        }
    }
}

/// There are no more leaders than elements.
pub proof fn lemma_leaders_upto_bound(s: Seq<u32>, k: int)
    requires
        0 <= k,
    ensures
        leaders_upto(s, k) <= k,
    decreases k,
{
    if k > 0 {
        lemma_leaders_upto_bound(s, k - 1);
    }
}

/// The element reached from `x` after following `k` parent pointers.
pub open spec fn walk(parents: Seq<u32>, x: int, k: nat) -> int
    decreases k,
{
    if k == 0 {
        x
    } else {
        parents[walk(parents, x, (k - 1) as nat)] as int
    }
}

/// The parent pointers after every element on the path from `x` is pointed
/// at `r`.
pub open spec fn compressed(parents: Seq<u32>, x: int, r: u32) -> Seq<u32> {
    Seq::new(parents.len(), |v: int| if on_path(parents, x, v) { r } else { parents[v] })
}

/// Whether `v` lies on the path of parent pointers from `x` to its root.
pub open spec fn on_path(parents: Seq<u32>, x: int, v: int) -> bool {
    exists|k: nat| #[trigger] walk(parents, x, k) == v
}

/// Once a walk reaches a root it stays there.
proof fn lemma_walk_past_root(parents: Seq<u32>, x: int, m: nat, root: int)
    requires
        walk(parents, x, m) == root,
        0 <= root < parents.len(),
        parents[root] == root,
    ensures
        forall|k: nat| k >= m ==> #[trigger] walk(parents, x, k) == root,
{
    assert forall|k: nat| k >= m implies #[trigger] walk(parents, x, k) == root by {
        lemma_walk_stays(parents, x, m, root, k);
    }
}

proof fn lemma_walk_stays(parents: Seq<u32>, x: int, m: nat, root: int, k: nat)
    requires
        walk(parents, x, m) == root,
        0 <= root < parents.len(),
        parents[root] == root,
        k >= m,
    ensures
        walk(parents, x, k) == root,
    decreases k - m,
{
    if k > m {
        lemma_walk_stays(parents, x, m, root, (k - 1) as nat);
    }
}

/// A union-find over the ids `0..len`, with path compression.
///
/// Its view is the sequence that maps each element to the leader of its set.
pub struct SimpleUnionFind {
    parents: Vec<Id>,
    /// A rank that strictly grows along every parent edge; it bounds the
    /// length of every path to a leader.
    rank: Ghost<Seq<nat>>,
    /// The leader of each element.
    leader: Ghost<Seq<u32>>,
}

impl View for SimpleUnionFind {
    type V = Seq<u32>;

    closed spec fn view(&self) -> Seq<u32> {
        self.leader@
    }
}

impl SimpleUnionFind {
    /// The parent pointer of element `i`.
    pub closed spec fn parent_spec(&self, i: int) -> u32 {
        self.parents@[i].0
    }

    /// The number of elements.
    pub closed spec fn size(&self) -> nat {
        self.parents@.len()
    }

    /// The parent pointers, as a sequence.
    pub closed spec fn parents_view(&self) -> Seq<u32> {
        Seq::new(self.parents@.len(), |i: int| self.parents@[i].0)
    }

    spec fn lead(&self, i: int) -> int {
        self.leader@[i] as int
    }

    spec fn par(&self, i: int) -> int {
        self.parents@[i].0 as int
    }

    spec fn rk(&self, i: int) -> nat {
        self.rank@[i]
    }

    /// The structure is a forest whose roots are the leaders of the view.
    pub closed spec fn wf(&self) -> bool {
        let n = self.parents@.len();
        &&& n <= 0x1_0000_0000
        &&& self.rank@.len() == n
        &&& self.leader@.len() == n
        &&& forall|i: int| 0 <= i < n ==> #[trigger] self.par(i) < n
        &&& forall|i: int| 0 <= i < n ==> #[trigger] self.lead(i) < n
        &&& forall|i: int| 0 <= i < n ==> self.par(#[trigger] self.lead(i)) == self.lead(i)
        &&& forall|i: int| 0 <= i < n ==> self.lead(#[trigger] self.par(i)) == self.lead(i)
        &&& forall|i: int| 0 <= i < n && #[trigger] self.par(i) == i ==> self.lead(i) == i
        &&& forall|i: int|
            0 <= i < n && #[trigger] self.par(i) != i ==> self.rk(i) < self.rk(self.par(i))
        &&& forall|i: int| 0 <= i < n ==> self.rk(i) <= self.rk(#[trigger] self.lead(i))
    }

    /// Every element's leader is itself a leader, and leaders are in range.
    pub proof fn lemma_view_closed(&self)
        requires
            self.wf(),
        ensures
            self@.len() == self.size(),
            forall|i: int| 0 <= i < self@.len() ==> (#[trigger] self@[i] as int) < self@.len(),
            forall|i: int| 0 <= i < self@.len() ==> #[trigger] self@[self@[i] as int] == self@[i],
            self@.len() <= 0x1_0000_0000,
    {
        assert forall|i: int| 0 <= i < self@.len() implies #[trigger] self@[self@[i] as int]
            == self@[i] by {
            assert(self.lead(i) < self.size());
            assert(self.par(self.lead(i)) == self.lead(i));
        }
        assert forall|i: int| 0 <= i < self@.len() implies (#[trigger] self@[i] as int)
            < self@.len() by {
            assert(self.lead(i) < self.size());
        }
    }

    /// An empty union-find.
    pub fn new() -> (r: Self)
        ensures
            r.wf(),
            r@ == Seq::<u32>::empty(),
            r.parents_view() == Seq::<u32>::empty(),
    {
        let r = SimpleUnionFind { parents: Vec::new(), rank: Ghost(Seq::empty()), leader: Ghost(Seq::empty()) };
        proof {
            assert(r.parents_view() =~= Seq::<u32>::empty());
        }
        r
    }

    /// The parent pointer of `query`.
    pub fn parent(&self, query: Id) -> (r: Id)
        requires
            self.wf(),
            (query.0 as int) < self.size(),
        ensures
            r.0 == self.parent_spec(query.0 as int),
            r.0 == self.parents_view()[query.0 as int],
            (r.0 as int) < self.size(),
            self@[r.0 as int] == self@[query.0 as int],
    {
        let r = self.parents[query.0 as usize];
        assert(self.par(query.0 as int) < self.size());
        assert(self.lead(self.par(query.0 as int)) == self.lead(query.0 as int));
        r
    }

    /// The number of elements.
    pub fn len(&self) -> (r: usize)
        requires
            self.wf(),
        ensures
            r == self@.len(),
    {
        self.parents.len()
    }

    /// Adds a new element in a set of its own and returns it.
    pub fn make_set(&mut self) -> (id: Id)
        requires
            old(self).wf(),
            old(self)@.len() < 0x1_0000_0000,
        ensures
            final(self).wf(),
            id.0 == old(self)@.len(),
            final(self)@ == old(self)@.push(id.0),
            final(self).parents_view() == old(self).parents_view().push(id.0),
            old(self).parents_view().len() == old(self)@.len(),
    {
        let ghost old_self = *self;
        let n = self.parents.len();
        let id = Id(n as u32);
        self.parents.push(id);
        proof {
            self.rank@ = self.rank@.push(0);
            self.leader@ = self.leader@.push(n as u32);
            let m = self.parents@.len();
            assert forall|i: int| 0 <= i < m implies #[trigger] self.par(i) < m by {
                if i < n {
                    assert(old_self.par(i) < n);
                }
            }
            assert forall|i: int| 0 <= i < m implies #[trigger] self.lead(i) < m by {
                if i < n {
                    assert(old_self.lead(i) < n);
                }
            }
            assert forall|i: int| 0 <= i < m implies self.par(#[trigger] self.lead(i)) == self.lead(
                i,
            ) by {
                if i < n {
                    assert(old_self.lead(i) < n);
                    assert(old_self.par(old_self.lead(i)) == old_self.lead(i));
                }
            }
            assert forall|i: int| 0 <= i < m implies self.lead(#[trigger] self.par(i)) == self.lead(
                i,
            ) by {
                if i < n {
                    assert(old_self.par(i) < n);
                    assert(old_self.lead(old_self.par(i)) == old_self.lead(i));
                }
            }
            assert forall|i: int| 0 <= i < m && #[trigger] self.par(i) != i implies self.rk(i)
                < self.rk(self.par(i)) by {
                assert(old_self.par(i) < n);
                assert(old_self.rk(i) < old_self.rk(old_self.par(i)));
            }
            assert forall|i: int| 0 <= i < m && #[trigger] self.par(i) == i implies self.lead(i)
                == i by {
                if i < n {
                    assert(old_self.par(i) == i);
                }
            }
            assert forall|i: int| 0 <= i < m implies self.rk(i) <= self.rk(#[trigger] self.lead(i)) by {
                if i < n {
                    assert(old_self.lead(i) < n);
                    assert(old_self.rk(i) <= old_self.rk(old_self.lead(i)));
                }
            }
        }
        proof {
            assert(self.parents_view() =~= old_self.parents_view().push(id.0));
        }
        id
    }

    /// Finds the leader of the set that `current` is in; an id outside the
    /// union-find is returned as it is.
    pub fn find(&self, current: Id) -> (r: Id)
        requires
            self.wf(),
        ensures
            (current.0 as int) < self@.len() ==> r.0 == self@[current.0 as int] && (r.0 as int)
                < self@.len() && self@[r.0 as int] == r.0,
            (current.0 as int) >= self@.len() ==> r == current,
    {
        if current.0 as usize >= self.parents.len() {
            return current;
        }
        let mut cur = current;
        while cur != self.parent(cur)
            invariant
                self.wf(),
                (cur.0 as int) < self@.len(),
                self@[cur.0 as int] == self@[current.0 as int],
            decreases self.rk(self.lead(cur.0 as int)) - self.rk(cur.0 as int),
        {
            let next = self.parent(cur);
            proof {
                let c = cur.0 as int;
                assert(self.par(c) != c);
                assert(self.rk(c) < self.rk(self.par(c)));
                assert(self.rk(self.par(c)) <= self.rk(self.lead(self.par(c))));
                assert(self.rk(c) <= self.rk(self.lead(c)));
            }
            cur = next;
        }
        proof {
            assert(self.par(cur.0 as int) == cur.0);
            assert(self.lead(cur.0 as int) == cur.0);
        }
        cur
    }

    /// Points element `c` directly at `root`, which must be its leader.
    fn point_to_leader(&mut self, c: Id, root: Id)
        requires
            old(self).wf(),
            (c.0 as int) < old(self)@.len(),
            old(self)@[c.0 as int] == root.0,
        ensures
            final(self).wf(),
            final(self)@ == old(self)@,
            final(self).size() == old(self).size(),
            final(self).parent_spec(c.0 as int) == root.0,
            forall|i: int|
                0 <= i < old(self).size() && i != c.0 ==> final(self).parent_spec(i)
                    == old(self).parent_spec(i),
    {
        let ghost old_self = *self;
        let ghost ci = c.0 as int;
        let ghost r = root.0 as int;
        proof {
            assert(old_self.lead(ci) < old_self.size());
            assert(old_self.par(r) == r);
            assert(old_self.lead(r) == r);
            if old_self.par(ci) != ci {
                assert(old_self.rk(ci) < old_self.rk(old_self.par(ci)));
                assert(old_self.rk(old_self.par(ci)) <= old_self.rk(
                    old_self.lead(old_self.par(ci)),
                ));
            }
        }
        self.parents.set(c.0 as usize, root);
        proof {
            let n = self.size();
            assert forall|i: int| 0 <= i < n implies #[trigger] self.par(i) < n by {
                if i != ci {
                    assert(self.par(i) == old_self.par(i));
                }
            }
            assert forall|i: int| 0 <= i < n implies #[trigger] self.lead(i) < n by {
                assert(old_self.lead(i) < n);
            }
            assert forall|i: int| 0 <= i < n implies self.par(#[trigger] self.lead(i)) == self.lead(
                i,
            ) by {
                assert(old_self.lead(i) < n);
                assert(old_self.par(old_self.lead(i)) == old_self.lead(i));
                if old_self.lead(i) == ci {
                    assert(old_self.lead(ci) == ci);
                }
            }
            assert forall|i: int| 0 <= i < n implies self.lead(#[trigger] self.par(i)) == self.lead(
                i,
            ) by {
                if i != ci {
                    assert(self.par(i) == old_self.par(i));
                    assert(old_self.lead(old_self.par(i)) == old_self.lead(i));
                }
            }
            assert forall|i: int| 0 <= i < n && #[trigger] self.par(i) == i implies self.lead(i)
                == i by {
                if i != ci {
                    assert(old_self.par(i) == i);
                }
            }
            assert forall|i: int| 0 <= i < n && #[trigger] self.par(i) != i implies self.rk(i)
                < self.rk(self.par(i)) by {
                if i != ci {
                    assert(self.par(i) == old_self.par(i));
                    assert(old_self.rk(i) < old_self.rk(old_self.par(i)));
                } else {
                    assert(old_self.rk(ci) <= old_self.rk(old_self.lead(ci)));
                }
            }
            assert forall|i: int| 0 <= i < n implies self.rk(i) <= self.rk(#[trigger] self.lead(i)) by {
                assert(old_self.rk(i) <= old_self.rk(old_self.lead(i)));
            }
        }
    }

    /// Finds the leader of the set that `current` is in, and points every
    /// element on the way directly at it.
    pub fn find_mut(&mut self, current: Id) -> (r: Id)
        requires
            old(self).wf(),
            (current.0 as int) < old(self)@.len(),
        ensures
            final(self).wf(),
            final(self)@ == old(self)@,
            r.0 == old(self)@[current.0 as int],
            (r.0 as int) < old(self)@.len(),
            old(self)@[r.0 as int] == r.0,
            final(self).parents_view().len() == old(self).parents_view().len(),
            forall|v: int|
                0 <= v < old(self).parents_view().len() ==> #[trigger] final(self).parents_view()[v] == (
                if on_path(old(self).parents_view(), current.0 as int, v) {
                    r.0
                } else {
                    old(self).parents_view()[v]
                }),
    {
        let ghost start = current.0 as int;
        let ghost p0 = self.parents_view();
        let ghost n = p0.len();
        let mut collected: Vec<Id> = Vec::new();
        let mut cur = current;
        while cur != self.parent(cur)
            invariant
                self.wf(),
                self.parents_view() == p0,
                n == self@.len(),
                0 <= start < self@.len(),
                (cur.0 as int) < self@.len(),
                self@[cur.0 as int] == self@[start],
                cur.0 == walk(p0, start, collected@.len() as nat),
                forall|j: int|
                    0 <= j < collected@.len() ==> (#[trigger] collected@[j].0 as int) < self@.len()
                        && self@[collected@[j].0 as int] == self@[start]
                        && collected@[j].0 == walk(p0, start, j as nat),
            decreases self.rk(self.lead(cur.0 as int)) - self.rk(cur.0 as int),
        {
            let next = self.parent(cur);
            proof {
                let c = cur.0 as int;
                assert(self.rk(c) < self.rk(self.par(c)));
                assert(self.rk(self.par(c)) <= self.rk(self.lead(self.par(c))));
                assert(walk(p0, start, (collected@.len() + 1) as nat) == p0[c] as int);
            }
            collected.push(cur);
            cur = next;
        }
        proof {
            assert(self.par(cur.0 as int) == cur.0);
            assert(self.lead(cur.0 as int) == cur.0);
        }
        let ghost v = self@;
        let ghost m = collected@.len();
        let ghost cs = collected@;
        let mut k: usize = 0;
        while k < collected.len()
            invariant
                self.wf(),
                self@ == v,
                collected@ == cs,
                m == cs.len(),
                0 <= start < v.len(),
                (cur.0 as int) < v.len(),
                v[cur.0 as int] == cur.0,
                v[start] == cur.0,
                0 <= k <= m,
                self.parents_view().len() == n,
                forall|j: int|
                    0 <= j < m ==> (#[trigger] cs[j].0 as int) < v.len()
                        && v[cs[j].0 as int] == v[start],
                forall|i: int|
                    0 <= i < n ==> #[trigger] self.parents_view()[i] == (if exists|j: int|
                        0 <= j < k && (#[trigger] cs[j]).0 == i {
                        cur.0
                    } else {
                        p0[i]
                    }),
            decreases m - k,
        {
            let c = collected[k];
            let ghost before = self.parents_view();
            self.point_to_leader(c, cur);
            proof {
                assert forall|i: int| 0 <= i < n implies #[trigger] self.parents_view()[i] == (if exists|j: int|
                    0 <= j < k + 1 && (#[trigger] cs[j]).0 == i {
                    cur.0
                } else {
                    p0[i]
                }) by {
                    assert(self.parents_view()[i] == self.parent_spec(i));
                    if i == c.0 {
                        assert(cs[k as int].0 == i);
                    } else {
                        assert(self.parent_spec(i) == before[i]);
                        if exists|j: int| 0 <= j < k + 1 && (#[trigger] cs[j]).0 == i {
                            let j = choose|j: int| 0 <= j < k + 1 && (#[trigger] cs[j]).0 == i;
                            assert(j != k);
                        }
                    }
                }
            }
            k = k + 1;
        }
        proof {
            let root = cur.0 as int;
            lemma_walk_past_root(p0, start, m as nat, root);
            assert forall|w: int|
                0 <= w < n implies #[trigger] self.parents_view()[w] == (if on_path(p0, start, w) {
                cur.0
            } else {
                p0[w]
            }) by {
                if on_path(p0, start, w) {
                    let kk = choose|kk: nat| #[trigger] walk(p0, start, kk) == w;
                    if kk < m {
                        assert(cs[kk as int].0 == w);
                    } else {
                        assert(walk(p0, start, kk) == root);
                        assert(p0[root] == cur.0);
                    }
                } else {
                    if exists|j: int| 0 <= j < m && (#[trigger] cs[j]).0 == w {
                        let j = choose|j: int| 0 <= j < m && (#[trigger] cs[j]).0 == w;
                        assert(walk(p0, start, j as nat) == w);
                    }
                }
            }
        }
        cur
    }

    /// Unions the sets of `root1` and `root2`, making the leader of `root1`
    /// the leader of the merged set. Returns (new leader, the other former
    /// leader).
    pub fn union(&mut self, root1: Id, root2: Id) -> (r: (Id, Id))
        requires
            old(self).wf(),
            (root1.0 as int) < old(self)@.len(),
            (root2.0 as int) < old(self)@.len(),
        ensures
            final(self).wf(),
            r.0.0 == old(self)@[root1.0 as int],
            r.1.0 == old(self)@[root2.0 as int],
            final(self)@ == merged_leaders(old(self)@, r.0.0, r.1.0),
            ({
                let p1 = compressed(old(self).parents_view(), root1.0 as int, r.0.0);
                let p2 = compressed(p1, root2.0 as int, r.1.0);
                final(self).parents_view() == (if r.0 == r.1 {
                    p2
                } else {
                    p2.update(r.1.0 as int, r.0.0)
                })
            }),
    {
        self.union_no_swap(root1, root2)
    }

    /// Unions the sets of `root1` and `root2`, keeping the leader of `root1`.
    /// Returns (leader of `root1`, former leader of `root2`).
    pub fn union_no_swap(&mut self, root1: Id, root2: Id) -> (r: (Id, Id))
        requires
            old(self).wf(),
            (root1.0 as int) < old(self)@.len(),
            (root2.0 as int) < old(self)@.len(),
        ensures
            final(self).wf(),
            r.0.0 == old(self)@[root1.0 as int],
            r.1.0 == old(self)@[root2.0 as int],
            final(self)@ == merged_leaders(old(self)@, r.0.0, r.1.0),
            ({
                let p1 = compressed(old(self).parents_view(), root1.0 as int, r.0.0);
                let p2 = compressed(p1, root2.0 as int, r.1.0);
                final(self).parents_view() == (if r.0 == r.1 {
                    p2
                } else {
                    p2.update(r.1.0 as int, r.0.0)
                })
            }),
    {
        let ghost pv0 = self.parents_view();
        let ghost arg1 = root1.0 as int;
        let ghost arg2 = root2.0 as int;
        let root1 = self.find_mut(root1);
        proof {
            assert(self.parents_view() =~= compressed(pv0, arg1, root1.0));
        }
        let ghost pv1 = self.parents_view();
        let root2 = self.find_mut(root2);
        proof {
            assert(self.parents_view() =~= compressed(pv1, arg2, root2.0));
        }
        let ghost pv2 = self.parents_view();
        let ghost old_self = *self;
        let ghost a = root1.0 as int;
        let ghost b = root2.0 as int;
        proof {
            assert(old_self.lead(a) == a);
            assert(old_self.lead(b) == b);
            assert(old_self.par(a) == a);
            assert(old_self.par(b) == b);
        }
        if root1 == root2 {
            proof {
                assert(merged_leaders(old_self@, root1.0, root2.0) =~= old_self@);
            }
            return (root1, root2);
        }
        self.parents.set(root2.0 as usize, root1);
        proof {
            assert(self.parents_view() =~= pv2.update(root2.0 as int, root1.0));
        }
        proof {
            let n = self.size();
            let ra = old_self.rk(a);
            let rb = old_self.rk(b);
            let new_rank: nat = if ra > rb { ra } else { rb + 1 };
            assert(0 <= a < old_self.rank@.len());
            self.rank@ = old_self.rank@.update(a, new_rank);
            self.leader@ = merged_leaders(old_self@, root1.0, root2.0);
            assert forall|i: int| 0 <= i < n implies #[trigger] self.par(i) < n by {
                if i != b {
                    assert(self.par(i) == old_self.par(i));
                }
            }
            assert forall|i: int| 0 <= i < n implies #[trigger] self.lead(i) < n by {
                assert(old_self.lead(i) < n);
            }
            assert forall|i: int| 0 <= i < n implies self.par(#[trigger] self.lead(i)) == self.lead(
                i,
            ) by {
                assert(old_self.lead(i) < n);
                assert(old_self.par(old_self.lead(i)) == old_self.lead(i));
            }
            assert forall|i: int| 0 <= i < n implies self.lead(#[trigger] self.par(i)) == self.lead(
                i,
            ) by {
                if i != b {
                    assert(self.par(i) == old_self.par(i));
                    assert(old_self.par(i) < n);
                    assert(old_self.lead(old_self.par(i)) == old_self.lead(i));
                }
            }
            assert forall|i: int| 0 <= i < n && #[trigger] self.par(i) == i implies self.lead(i)
                == i by {
                if i != b {
                    assert(old_self.par(i) == i);
                    assert(old_self.lead(i) == i);
                }
            }
            assert forall|i: int| 0 <= i < n && #[trigger] self.par(i) != i implies self.rk(i)
                < self.rk(self.par(i)) by {
                if i != b {
                    assert(self.par(i) == old_self.par(i));
                    assert(old_self.rk(i) < old_self.rk(old_self.par(i)));
                    assert(old_self.par(i) != a || i != a);
                }
            }
            assert forall|i: int| 0 <= i < n implies self.rk(i) <= self.rk(#[trigger] self.lead(i)) by {
                assert(old_self.rk(i) <= old_self.rk(old_self.lead(i)));
                assert(old_self.lead(i) < n);
            }
        }
        (root1, root2)
    }

    /// The leaders, in increasing order.
    pub fn iter(&self) -> (r: Vec<Id>)
        requires
            self.wf(),
        ensures
            forall|k: int| 0 <= k < r@.len() ==> (#[trigger] r@[k].0 as int) < self@.len()
                && self@[r@[k].0 as int] == r@[k].0,
            forall|k1: int, k2: int| 0 <= k1 < k2 < r@.len() ==> r@[k1].0 < r@[k2].0,
            forall|i: int|
                0 <= i < self@.len() && self@[i] == i ==> exists|k: int|
                    0 <= k < r@.len() && (#[trigger] r@[k]).0 == i,
    {
        let mut out: Vec<Id> = Vec::new();
        let n = self.parents.len();
        let mut i: usize = 0;
        while i < n
            invariant
                self.wf(),
                n == self@.len(),
                0 <= i <= n,
                forall|k: int| 0 <= k < out@.len() ==> (#[trigger] out@[k].0 as int) < i
                    && self@[out@[k].0 as int] == out@[k].0,
                forall|k1: int, k2: int| 0 <= k1 < k2 < out@.len() ==> out@[k1].0 < out@[k2].0,
                forall|j: int|
                    0 <= j < i && self@[j] == j ==> exists|k: int|
                        0 <= k < out@.len() && (#[trigger] out@[k]).0 == j,
            decreases n - i,
        {
            let p = self.parents[i];
            proof {
                let ii = i as int;
                if self.par(ii) == ii {
                    assert(self.lead(ii) == ii);
                } else {
                    if self.lead(ii) == ii {
                        assert(self.par(self.lead(ii)) == self.lead(ii));
                    }
                }
            }
            if p.0 as usize == i {
                let ghost old_out = out@;
                out.push(p);
                proof {
                    assert forall|j: int|
                        0 <= j < i + 1 && self@[j] == j implies exists|k: int|
                        0 <= k < out@.len() && (#[trigger] out@[k]).0 == j by {
                        if j == i {
                            assert(out@[old_out.len() as int].0 == j);
                        } else {
                            let k = choose|k: int| 0 <= k < old_out.len() && (#[trigger] old_out[k]).0 == j;
                            assert(out@[k] == old_out[k]);
                        }
                    }
                }
            }
            i = i + 1;
        }
        out
    }
}

} // verus!

verus! {

/// The operations of a union-find over keys of type `K`.
pub trait UnionFind<K>: Sized {
    /// The structure is consistent.
    spec fn uf_wf(&self) -> bool;

    /// Whether `k` may be handed to `find`.
    spec fn accepts(&self, k: K) -> bool;

    /// Whether `a` and `b` may be handed to `union`.
    spec fn can_union(&self, a: K, b: K) -> bool;

    /// The leader of the set of `k`.
    spec fn leader_of(&self, k: K) -> K;

    /// The number of elements.
    spec fn count(&self) -> nat;

    /// Returns the number of elements in the union find.
    fn len(&self) -> (r: usize)
        requires
            self.uf_wf(),
        ensures
            r == self.count(),
    ;

    /// Finds the leader of the set that `current` is in.
    fn find(&self, current: K) -> (r: K)
        requires
            self.uf_wf(),
            self.accepts(current),
        ensures
            r == self.leader_of(current),
    ;

    /// Unions the sets of the two keys. Returns (new leader, other former
    /// leader).
    fn union(&mut self, root1: K, root2: K) -> (r: (K, K))
        requires
            old(self).uf_wf(),
            old(self).can_union(root1, root2),
        ensures
            final(self).uf_wf(),
            final(self).accepts(root1),
            final(self).accepts(root2),
            final(self).leader_of(root1) == r.0,
            final(self).leader_of(root2) == r.0,
    ;

    /// The elements that this union-find enumerates.
    fn iter(&self) -> (r: Vec<K>)
        requires
            self.uf_wf(),
        ensures
            forall|k: int| 0 <= k < r@.len() ==> self.accepts(#[trigger] r@[k]),
    ;
}

/// A union-find whose `find` may shorten paths as it goes.
pub trait MutUnionFind<K>: UnionFind<K> {
    /// Finds the leader of the set that `current` is in, updating parents to
    /// compress the path; no set changes.
    fn find_mut(&mut self, current: K) -> (r: K)
        requires
            old(self).uf_wf(),
            old(self).accepts(current),
        ensures
            final(self).uf_wf(),
            r == old(self).leader_of(current),
            forall|k: K|
                #[trigger] old(self).accepts(k) ==> final(self).accepts(k) && final(self).leader_of(
                    k,
                ) == old(self).leader_of(k),
    ;
}

impl UnionFind<Id> for SimpleUnionFind {
    open spec fn uf_wf(&self) -> bool {
        self.wf()
    }

    open spec fn accepts(&self, k: Id) -> bool {
        (k.0 as int) < self@.len()
    }

    open spec fn can_union(&self, a: Id, b: Id) -> bool {
        (a.0 as int) < self@.len() && (b.0 as int) < self@.len()
    }

    open spec fn leader_of(&self, k: Id) -> Id {
        Id(self@[k.0 as int])
    }

    open spec fn count(&self) -> nat {
        self@.len()
    }

    fn len(&self) -> (r: usize) {
        SimpleUnionFind::len(self)
    }

    fn find(&self, current: Id) -> (r: Id) {
        SimpleUnionFind::find(self, current)
    }

    fn union(&mut self, root1: Id, root2: Id) -> (r: (Id, Id)) {
        let ghost pre = self@;
        let r = SimpleUnionFind::union(self, root1, root2);
        proof {
            self.lemma_view_closed();
        }
        r
    }

    fn iter(&self) -> (r: Vec<Id>)
        ensures
            forall|k: int| 0 <= k < r@.len() ==> (#[trigger] r@[k].0 as int) < self@.len()
                && self@[r@[k].0 as int] == r@[k].0,
            forall|k1: int, k2: int| 0 <= k1 < k2 < r@.len() ==> r@[k1].0 < r@[k2].0,
            forall|i: int|
                0 <= i < self@.len() && self@[i] == i ==> exists|k: int|
                    0 <= k < r@.len() && (#[trigger] r@[k]).0 == i,
    {
        SimpleUnionFind::iter(self)
    }
}

impl MutUnionFind<Id> for SimpleUnionFind {
    fn find_mut(&mut self, current: Id) -> (r: Id) {
        SimpleUnionFind::find_mut(self, current)
    }
}

/// Data inside a union-find that is combined when two sets merge.
pub trait Merge: Sized {
    /// Combines `other` into `self`.
    fn merge(&mut self, other: Self);
}

impl Merge for () {
    fn merge(&mut self, _other: ()) {
    }
}

} // verus!

verus! {

impl Default for SimpleUnionFind {
    fn default() -> (r: Self)
        ensures
            r.wf(),
            r@ == Seq::<u32>::empty(),
    {
        SimpleUnionFind::new()
    }
}

} // verus!
