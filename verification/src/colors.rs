//! A color: a layer of assumed equalities over the ids of its parent layer,
//! with its own union-find and the black classes each colored class holds.

use vstd::prelude::*;

use indexmap::{IndexMap, IndexSet};

use crate::{ColorId, Id};
use crate::util::ids_view;
use crate::keyed_union_find::{merged_key_leaders, with_key, UnionFindWrapper, key_leaders_closed, law_with_key};
use crate::index_support::{
    classes_finite, index_map_classes, index_map_get, index_map_insert, index_map_keys,
    index_map_new, index_map_swap_remove, index_set_insert, index_set_items, index_set_new,
    index_set_values,
};

verus! {

/// The id that stands for the black layer.
pub fn black_color() -> (r: ColorId)
    ensures
        r.index() == 0,
{
    ColorId(0)
}

/// The members of the class led by `r` in a leader map.
pub open spec fn class_of(uf: Map<u32, u32>, r: u32) -> Set<u32> {
    Set::new(|x: u32| uf.dom().contains(x) && uf[x] == r)
}

/// The recorded classes are exactly the classes of the union-find with more
/// than one member: each recorded class is the set of ids its leader leads,
/// and every id that does not lead itself has its leader recorded.
pub open spec fn classes_match(uf: Map<u32, u32>, classes: Map<u32, Set<u32>>) -> bool {
    &&& forall|r: u32| #[trigger] classes.dom().contains(r) ==> classes[r] == class_of(uf, r)
    &&& forall|r: u32| #[trigger] classes.dom().contains(r) ==> exists|x: u32| #[trigger] classes[r].contains(x) && x != r
    &&& forall|x: u32| uf.dom().contains(x) && #[trigger] uf[x] != x ==> classes.dom().contains(uf[x])
}

/// A leader of a class that has another member is a key that leads itself.
pub proof fn lemma_recorded_leader(uf: Map<u32, u32>, classes: Map<u32, Set<u32>>, r: u32)
    requires
        key_leaders_closed(uf),
        classes_match(uf, classes),
        classes.dom().contains(r),
    ensures
        uf.dom().contains(r),
        uf[r] == r,
{
    let x = choose|x: u32| #[trigger] classes[r].contains(x) && x != r;
    assert(class_of(uf, r).contains(x));
    assert(uf.dom().contains(uf[x]));
}

/// The class of a leader: the recorded one, or just the leader.
pub proof fn lemma_class_of_leader(uf: Map<u32, u32>, classes: Map<u32, Set<u32>>, r: u32)
    requires
        key_leaders_closed(uf),
        classes_match(uf, classes),
        uf.dom().contains(r),
        uf[r] == r,
    ensures
        class_of(uf, r) == (if classes.dom().contains(r) {
            classes[r]
        } else {
            set![r]
        }),
{
    if !classes.dom().contains(r) {
        assert forall|x: u32| #[trigger] class_of(uf, r).contains(x) == set![r].contains(x) by {
            if class_of(uf, r).contains(x) && x != r {
                assert(uf[x] != x);
            }
        }
        assert(class_of(uf, r) =~= set![r]);
    }
}

/// Adding a key as a set of its own keeps the recorded classes matching.
pub proof fn lemma_match_with_key(uf: Map<u32, u32>, classes: Map<u32, Set<u32>>, key: u32)
    requires
        key_leaders_closed(uf),
        classes_match(uf, classes),
    ensures
        classes_match(with_key(uf, key), classes),
{
    let w = with_key(uf, key);
    law_with_key(uf, key);
    assert forall|r: u32| #[trigger] classes.dom().contains(r) implies classes[r] == class_of(w, r) by {
        lemma_recorded_leader(uf, classes, r);
        assert(class_of(w, r) =~= class_of(uf, r));
    }
    assert forall|x: u32| w.dom().contains(x) && #[trigger] w[x] != x implies classes.dom().contains(w[x]) by {
        if uf.dom().contains(x) {
            assert(uf[x] != x);
        }
    }
}

/// Merging the classes of two leaders: the recorded class of the kept
/// leader becomes the union of both, and the other leader's entry goes.
pub proof fn lemma_match_merge(w: Map<u32, u32>, classes: Map<u32, Set<u32>>, to: u32, from: u32)
    requires
        key_leaders_closed(w),
        classes_match(w, classes),
        w.dom().contains(to),
        w.dom().contains(from),
        w[to] == to,
        w[from] == from,
        to != from,
    ensures
        class_of(merged_key_leaders(w, to, from), to) == class_of(w, to).union(class_of(w, from)),
        classes_match(
            merged_key_leaders(w, to, from),
            classes.remove(from).insert(to, class_of(w, to).union(class_of(w, from))),
        ),
{
    let m = merged_key_leaders(w, to, from);
    let c = classes.remove(from).insert(to, class_of(w, to).union(class_of(w, from)));
    assert(class_of(m, to) =~= class_of(w, to).union(class_of(w, from)));
    assert forall|r: u32| #[trigger] c.dom().contains(r) implies c[r] == class_of(m, r) by {
        if r != to {
            lemma_recorded_leader(w, classes, r);
            assert(class_of(m, r) =~= class_of(w, r));
        }
    }
    assert forall|r: u32| #[trigger] c.dom().contains(r) implies exists|x: u32| #[trigger] c[r].contains(x) && x != r by {
        if r == to {
            assert(c[r].contains(from));
        } else {
            let x = choose|x: u32| #[trigger] classes[r].contains(x) && x != r;
            assert(c[r].contains(x));
        }
    }
    assert forall|x: u32| m.dom().contains(x) && #[trigger] m[x] != x implies c.dom().contains(m[x]) by {
        if w[x] != from {
            assert(w[x] != x);
            assert(classes.dom().contains(w[x]));
        }
    }
}

/// A layer of assumed equalities (a congruence relation of its own) over
/// the ids of its parent layer.
pub struct Color {
    color_id: ColorId,
    /// Ids whose classes changed, for rebuilding.
    pending: Vec<Id>,
    /// For each colored class with more than one member, its leader and the
    /// parent-layer ids it holds.
    equality_classes: IndexMap<u32, IndexSet<u32>>,
    union_find: UnionFindWrapper,
    children: Vec<ColorId>,
    parent: Option<ColorId>,
    parents: Vec<ColorId>,
}

impl Color {
    /// The leader of each id this color has seen.
    pub closed spec fn leaders(&self) -> Map<u32, u32> {
        self.union_find@
    }

    /// The recorded classes.
    pub closed spec fn classes(&self) -> Map<u32, Set<u32>> {
        index_map_classes(self.equality_classes)
    }

    /// The pending ids.
    pub closed spec fn pending_spec(&self) -> Seq<Id> {
        self.pending@
    }

    /// This color's id.
    pub closed spec fn id_spec(&self) -> ColorId {
        self.color_id
    }

    /// The parent color (`None` for a child of the black layer).
    pub closed spec fn parent_spec(&self) -> Option<ColorId> {
        self.parent
    }

    /// The ancestors, outermost first.
    pub closed spec fn parents_spec(&self) -> Seq<ColorId> {
        self.parents@
    }

    /// The children.
    pub closed spec fn children_spec(&self) -> Seq<ColorId> {
        self.children@
    }

    /// How many ids the union-find has used.
    pub closed spec fn ids_used(&self) -> nat {
        self.union_find.ids_used()
    }

    /// The union-find is consistent and the recorded classes match it.
    pub closed spec fn wf(&self) -> bool {
        &&& self.union_find.wf()
        &&& classes_finite(self.classes())
        &&& classes_match(self.leaders(), self.classes())
    }

    /// A new color with id `new_id`, child of `parent` (or of the black layer
    /// when `parent` is `None`); its ancestors are the parent's ancestors
    /// followed by the parent.
    pub fn new(new_id: ColorId, parent: Option<&Color>) -> (r: Color)
        ensures
            r.wf(),
            r.id_spec() == new_id,
            r.leaders() == Map::<u32, u32>::empty(),
            r.classes() == Map::<u32, Set<u32>>::empty(),
            r.pending_spec().len() == 0,
            r.children_spec().len() == 0,
            r.ids_used() == 0,
            match parent {
                None => r.parent_spec() is None && r.parents_spec().len() == 0,
                Some(p) => r.parent_spec() == Some(p.id_spec()) && r.parents_spec() == p.parents_spec().push(
                    p.id_spec(),
                ),
            },
    {
        let (parent_id, parents) = match parent {
            None => (None, Vec::new()),
            Some(p) => {
                let mut res = p.parents.clone();
                res.push(p.color_id);
                (Some(p.color_id), res)
            },
        };
        let r = Color {
            color_id: new_id,
            pending: Vec::new(),
            equality_classes: index_map_new(),
            union_find: UnionFindWrapper::new(),
            children: Vec::new(),
            parent: parent_id,
            parents,
        };
        proof {
            assert(r.classes() =~= Map::<u32, Set<u32>>::empty());
        }
        r
    }

    /// This color's id.
    pub fn get_id(&self) -> (r: ColorId)
        ensures
            r == self.id_spec(),
    {
        self.color_id
    }

    /// The children of this color.
    pub fn children(&self) -> (r: &[ColorId])
        ensures
            r@ == self.children_spec(),
    {
        self.children.as_slice()
    }

    /// The ancestors of this color, outermost first.
    pub fn parents(&self) -> (r: &[ColorId])
        ensures
            r@ == self.parents_spec(),
    {
        self.parents.as_slice()
    }

    /// The parent color.
    pub fn parent(&self) -> (r: Option<ColorId>)
        ensures
            r == self.parent_spec(),
    {
        self.parent
    }

    /// Whether some ids await rebuilding.
    pub fn is_dirty(&self) -> (r: bool)
        ensures
            r == (self.pending_spec().len() > 0),
    {
        self.pending.len() > 0
    }

    /// The leader of `fixed` (an id already canonical in the parent layer)
    /// in this color.
    pub fn find(&self, fixed: Id) -> (r: Id)
        requires
            self.wf(),
        ensures
            r.0 == (if self.leaders().dom().contains(fixed.0) {
                self.leaders()[fixed.0]
            } else {
                fixed.0
            }),
    {
        self.union_find.find(fixed)
    }

    /// As [`find`](Self::find), shortening paths on the way.
    pub fn find_mut(&mut self, id: Id) -> (r: Id)
        requires
            old(self).wf(),
        ensures
            final(self).wf(),
            final(self).leaders() == old(self).leaders(),
            final(self).classes() == old(self).classes(),
            final(self).pending_spec() == old(self).pending_spec(),
            final(self).ids_used() == old(self).ids_used(),
            r.0 == (if old(self).leaders().dom().contains(id.0) {
                old(self).leaders()[id.0]
            } else {
                id.0
            }),
    {
        self.union_find.find_mut(id)
    }

    /// The leaders of this color's classes with more than one member.
    pub fn current_black_reps(&self) -> (r: Vec<Id>)
        ensures
            ids_view(r@).to_set() == self.classes().dom(),
    {
        let keys = index_map_keys(&self.equality_classes);
        let mut out: Vec<Id> = Vec::new();
        let mut i: usize = 0;
        while i < keys.len()
            invariant
                0 <= i <= keys@.len(),
                ids_view(out@) == keys@.subrange(0, i as int),
            decreases keys@.len() - i,
        {
            let ghost o = ids_view(out@);
            out.push(Id(keys[i]));
            i = i + 1;
            proof {
                assert(ids_view(out@) =~= o.push(keys@[i - 1]));
                assert(ids_view(out@) =~= keys@.subrange(0, i as int));
            }
        }
        proof {
            assert(keys@.subrange(0, keys@.len() as int) =~= keys@);
        }
        out
    }

    /// The parent-layer ids in the colored class of `fixed` (an id already
    /// canonical in the parent layer), when that class has more than one
    /// member.
    pub fn base_equality_class(&self, fixed: Id) -> (r: Option<Vec<Id>>)
        requires
            self.wf(),
        ensures
            ({
                let l = if self.leaders().dom().contains(fixed.0) {
                    self.leaders()[fixed.0]
                } else {
                    fixed.0
                };
                &&& r is Some <==> self.classes().dom().contains(l)
                &&& r matches Some(v) ==> ids_view(v@).to_set() == self.classes()[l]
            }),
    {
        let l = self.find(fixed);
        match index_map_get(&self.equality_classes, l.0) {
            None => None,
            Some(set) => {
                let vals = index_set_values(&set);
                let mut out: Vec<Id> = Vec::new();
                let mut i: usize = 0;
                while i < vals.len()
                    invariant
                        0 <= i <= vals@.len(),
                        ids_view(out@) == vals@.subrange(0, i as int),
                    decreases vals@.len() - i,
                {
                    let ghost o = ids_view(out@);
                    out.push(Id(vals[i]));
                    i = i + 1;
                    proof {
                        assert(ids_view(out@) =~= o.push(vals@[i - 1]));
                        assert(ids_view(out@) =~= vals@.subrange(0, i as int));
                    }
                }
                proof {
                    assert(vals@.subrange(0, vals@.len() as int) =~= vals@);
                }
                Some(out)
            },
        }
    }

    /// Unions the colored classes of `id1` and `id2` (ids already canonical
    /// in the parent layer), adding either first if this color has not seen
    /// it. When two classes merge, the merged class is recorded under the
    /// new leader, the other leader's record goes, and the new leader is
    /// marked pending. Returns (new leader, other former leader).
    pub fn inner_colored_union(&mut self, id1: Id, id2: Id) -> (r: (Id, Id))
        requires
            old(self).wf(),
            old(self).ids_used() + (if old(self).leaders().dom().contains(id1.0) {
                0nat
            } else {
                1nat
            }) + (if old(self).leaders().dom().contains(id2.0) || id2 == id1 {
                0nat
            } else {
                1nat
            }) <= 0x1_0000_0000,
        ensures
            final(self).wf(),
            final(self).id_spec() == old(self).id_spec(),
            final(self).parent_spec() == old(self).parent_spec(),
            final(self).parents_spec() == old(self).parents_spec(),
            final(self).children_spec() == old(self).children_spec(),
            ({
                let w = with_key(with_key(old(self).leaders(), id1.0), id2.0);
                let a = w[id1.0];
                let b = w[id2.0];
                &&& r.0.0 == (if a <= b { a } else { b })
                &&& r.1.0 == (if a <= b { b } else { a })
                &&& final(self).leaders() == merged_key_leaders(w, r.0.0, r.1.0)
                &&& r.0 != r.1 ==> final(self).classes() == old(self).classes().remove(r.1.0).insert(
                    r.0.0,
                    class_of(final(self).leaders(), r.0.0),
                ) && final(self).pending_spec() == old(self).pending_spec().push(r.0)
                &&& r.0 == r.1 ==> final(self).classes() == old(self).classes()
                    && final(self).pending_spec() == old(self).pending_spec()
            }),
    {
        let ghost u0 = self.leaders();
        let ghost classes = self.classes();
        let ghost w = with_key(with_key(u0, id1.0), id2.0);
        proof {
            self.union_find.lemma_view_closed();
            lemma_match_with_key(u0, classes, id1.0);
            law_with_key(u0, id1.0);
            lemma_match_with_key(with_key(u0, id1.0), classes, id2.0);
            law_with_key(with_key(u0, id1.0), id2.0);
        }
        let (to, from) = self.union_find.union(id1, id2);
        if to != from {
            self.pending.push(to);
            proof {
                assert(w.dom().contains(to.0) && w[to.0] == to.0) by {
                    assert(w.dom().contains(id1.0));
                    assert(w.dom().contains(id2.0));
                }
                assert(w.dom().contains(from.0) && w[from.0] == from.0) by {
                    assert(w.dom().contains(id1.0));
                    assert(w.dom().contains(id2.0));
                }
                lemma_class_of_leader(w, classes, to.0);
                lemma_class_of_leader(w, classes, from.0);
                lemma_match_merge(w, classes, to.0, from.0);
            }
            let from_ids = match index_map_swap_remove(&mut self.equality_classes, from.0) {
                Some(set) => set,
                None => {
                    let mut set = index_set_new();
                    index_set_insert(&mut set, from.0);
                    proof {
                        assert(index_set_items(set) =~= set![from.0]);
                    }
                    set
                },
            };
            let mut cur = match index_map_get(&self.equality_classes, to.0) {
                Some(set) => set,
                None => {
                    let mut set = index_set_new();
                    index_set_insert(&mut set, to.0);
                    proof {
                        assert(index_set_items(set) =~= set![to.0]);
                    }
                    set
                },
            };
            proof {
                assert(index_set_items(cur) == class_of(w, to.0));
                assert(index_set_items(from_ids) == class_of(w, from.0));
            }
            let vals = index_set_values(&from_ids);
            let mut i: usize = 0;
            while i < vals.len()
                invariant
                    0 <= i <= vals@.len(),
                    index_set_items(cur) == class_of(w, to.0).union(vals@.subrange(0, i as int).to_set()),
                decreases vals@.len() - i,
            {
                let ghost before = index_set_items(cur);
                index_set_insert(&mut cur, vals[i]);
                proof {
                    vals@.subrange(0, i as int).lemma_push_to_set_commute(vals@[i as int]);
                    assert(vals@.subrange(0, i + 1) =~= vals@.subrange(0, i as int).push(vals@[i as int]));
                    assert(index_set_items(cur) =~= class_of(w, to.0).union(vals@.subrange(0, i + 1).to_set()));
                }
                i = i + 1;
            }
            proof {
                assert(vals@.subrange(0, vals@.len() as int) =~= vals@);
            }
            index_map_insert(&mut self.equality_classes, to.0, cur);
            proof {
                assert(self.classes() =~= classes.remove(from.0).insert(
                    to.0,
                    class_of(w, to.0).union(class_of(w, from.0)),
                ));
                assert(classes_finite(self.classes())) by {
                    assert forall|k: u32| #[trigger] self.classes().dom().contains(k) implies self.classes()[k].finite() by {
                        if k != to.0 {
                            assert(classes.dom().contains(k));
                        } else {
                            vals@.to_set();
                            assert(index_set_items(cur) == class_of(w, to.0).union(vals@.to_set()));
                            if classes.dom().contains(to.0) {
                                assert(classes[to.0].finite());
                            } else {
                                assert(set![to.0].finite());
                            }
                            vals@.lemma_cardinality_of_set();
                        }
                    }
                }
                assert(self.leaders() == merged_key_leaders(w, to.0, from.0));
                assert(classes_match(self.leaders(), self.classes()));
                assert(self.union_find.wf());
            }
        } else {
            proof {
                assert(merged_key_leaders(w, to.0, from.0) =~= w);
                assert(self.classes() == classes);
                assert(classes_match(self.leaders(), self.classes()));
            }
        }
        (to, from)
    }
}

} // verus!
