//! The result of a search: for each e-class, the substitutions found there.

use vstd::prelude::*;

use crate::{ColorId, Id};
use crate::subst::{Subst, subst_text};

verus! {

/// The value of one substitution: its bindings and its color.
pub type SubstV = (Seq<(Seq<char>, Id)>, Option<ColorId>);

/// The entries as values: e-class ids with the substitutions found there.
pub type Entries = Seq<(u32, Seq<SubstV>)>;

/// The ids are strictly increasing, and no class lists a substitution
/// twice.
pub open spec fn entries_wf(s: Entries) -> bool {
    &&& forall|i: int, j: int| 0 <= i < j < s.len() ==> #[trigger] s[i].0 < #[trigger] s[j].0
    &&& forall|i: int| 0 <= i < s.len() ==> (#[trigger] s[i]).1.no_duplicates()
}

/// The map from each class id to its set of substitutions.
pub open spec fn to_map(s: Entries) -> Map<u32, Set<SubstV>> {
    Map::new(
        |k: u32| exists|i: int| 0 <= i < s.len() && s[i].0 == k,
        |k: u32| s[choose|i: int| 0 <= i < s.len() && s[i].0 == k].1.to_set(),
    )
}

/// The pointwise union of two maps of substitution sets.
pub open spec fn union_map(a: Map<u32, Set<SubstV>>, b: Map<u32, Set<SubstV>>) -> Map<
    u32,
    Set<SubstV>,
> {
    Map::new(
        |k: u32| a.dom().contains(k) || b.dom().contains(k),
        |k: u32|
            (if a.dom().contains(k) {
                a[k]
            } else {
                Set::empty()
            }).union(
                if b.dom().contains(k) {
                    b[k]
                } else {
                    Set::empty()
                },
            ),
    )
}

/// The number of substitutions over all entries.
pub open spec fn total_upto(s: Entries, k: nat) -> nat
    decreases k,
{
    if k == 0 {
        0
    } else {
        total_upto(s, (k - 1) as nat) + s[k - 1].1.len()
    }
}

/// In well-formed entries, the entry with id `k` gives the map's value.
pub proof fn lemma_to_map_at(s: Entries, i: int)
    requires
        entries_wf(s),
        0 <= i < s.len(),
    ensures
        to_map(s).dom().contains(s[i].0),
        to_map(s)[s[i].0] == s[i].1.to_set(),
{
    let k = s[i].0;
    assert(exists|j: int| 0 <= j < s.len() && s[j].0 == k);
    let c = choose|j: int| 0 <= j < s.len() && s[j].0 == k;
    if c < i {
        assert(s[c].0 < s[i].0);
    }
    if c > i {
        assert(s[i].0 < s[c].0);
    }
}

/// Pointwise union is associative.
pub proof fn lemma_union_assoc(
    a: Map<u32, Set<SubstV>>,
    b: Map<u32, Set<SubstV>>,
    c: Map<u32, Set<SubstV>>,
)
    ensures
        union_map(union_map(a, b), c) == union_map(a, union_map(b, c)),
{
    let l = union_map(union_map(a, b), c);
    let r = union_map(a, union_map(b, c));
    assert(l.dom() =~= r.dom());
    assert forall|k: u32| #[trigger] l.dom().contains(k) implies l[k] == r[k] by {
        assert(l[k] =~= r[k]);
    }
    assert(l =~= r);
}

/// Nothing joined with nothing is nothing.
pub proof fn lemma_union_empty(a: Map<u32, Set<SubstV>>)
    ensures
        union_map(Map::empty(), a) == a,
{
    let l = union_map(Map::empty(), a);
    assert(l.dom() =~= a.dom());
    assert forall|k: u32| #[trigger] l.dom().contains(k) implies l[k] == a[k] by {
        assert(l[k] =~= a[k]);
    }
    assert(l =~= a);
}

/// The map of one more entry of well-formed entries.
pub proof fn lemma_to_map_prefix(e: Entries, i: int)
    requires
        entries_wf(e),
        0 <= i < e.len(),
    ensures
        to_map(e.subrange(0, i + 1)) == union_map(
            to_map(e.subrange(0, i)),
            map![e[i].0 => e[i].1.to_set()],
        ),
{
    let a = e.subrange(0, i);
    let b = e.subrange(0, i + 1);
    assert(entries_wf(a));
    assert(entries_wf(b));
    let m = map![e[i].0 => e[i].1.to_set()];
    let u = union_map(to_map(a), m);
    assert forall|k: u32| #[trigger] to_map(b).dom().contains(k) == u.dom().contains(k) by {
        if to_map(b).dom().contains(k) {
            let j = choose|j: int| 0 <= j < b.len() && b[j].0 == k;
            if j < i {
                assert(a[j] == b[j]);
            }
        }
        if to_map(a).dom().contains(k) {
            let j = choose|j: int| 0 <= j < a.len() && a[j].0 == k;
            assert(b[j] == a[j]);
        }
        if k == e[i].0 {
            assert(b[i] == e[i]);
        }
    }
    assert(to_map(b).dom() =~= u.dom());
    assert forall|k: u32| #[trigger] to_map(b).dom().contains(k) implies to_map(b)[k] == u[k] by {
        let j = choose|j: int| 0 <= j < b.len() && b[j].0 == k;
        lemma_to_map_at(b, j);
        if j < i {
            assert(a[j] == b[j]);
            lemma_to_map_at(a, j);
            assert(e[j].0 < e[i].0);
        } else {
            if to_map(a).dom().contains(k) {
                let j2 = choose|j2: int| 0 <= j2 < a.len() && a[j2].0 == k;
                assert(e[j2].0 < e[i].0);
            }
        }
        assert(to_map(b)[k] =~= u[k]);
    }
    assert(to_map(b) =~= u);
}

/// The values of a list of entries.
pub open spec fn entries_of(v: Seq<(Id, Vec<Subst>)>) -> Entries {
    v.map_values(|e: (Id, Vec<Subst>)| (e.0.0, substs_value(e.1@)))
}

/// Replacing the set of an existing class by its union with `more`.
pub proof fn lemma_update_entry(e0: Entries, p: int, k: u32, new_list: Seq<SubstV>, more: Set<SubstV>)
    requires
        entries_wf(e0),
        0 <= p < e0.len(),
        e0[p].0 == k,
        new_list.no_duplicates(),
        new_list.to_set() == e0[p].1.to_set().union(more),
    ensures
        entries_wf(e0.update(p, (k, new_list))),
        to_map(e0.update(p, (k, new_list))) == union_map(to_map(e0), map![k => more]),
{
    let e1 = e0.update(p, (k, new_list));
    let other = map![k => more];
    assert forall|a: int, b: int| 0 <= a < b < e1.len() implies #[trigger] e1[a].0
        < #[trigger] e1[b].0 by {
        assert(e0[a].0 < e0[b].0);
    }
    assert(entries_wf(e1));
    lemma_to_map_at(e1, p);
    lemma_to_map_at(e0, p);
    assert forall|kk: u32| #[trigger] to_map(e1).dom().contains(kk) == union_map(
        to_map(e0),
        other,
    ).dom().contains(kk) by {
        if to_map(e1).dom().contains(kk) {
            let i = choose|i: int| 0 <= i < e1.len() && e1[i].0 == kk;
            lemma_to_map_at(e0, i);
        }
        if to_map(e0).dom().contains(kk) {
            let i = choose|i: int| 0 <= i < e0.len() && e0[i].0 == kk;
            lemma_to_map_at(e1, i);
        }
    }
    assert(to_map(e1).dom() =~= union_map(to_map(e0), other).dom());
    assert forall|kk: u32| #[trigger] to_map(e1).dom().contains(kk) implies to_map(e1)[kk]
        == union_map(to_map(e0), other)[kk] by {
        let i = choose|i: int| 0 <= i < e1.len() && e1[i].0 == kk;
        lemma_to_map_at(e1, i);
        lemma_to_map_at(e0, i);
        assert(to_map(e1)[kk] =~= union_map(to_map(e0), other)[kk]);
    }
    assert(to_map(e1) =~= union_map(to_map(e0), other));
}

/// Inserting a new class at its place in the order.
pub proof fn lemma_insert_entry(e0: Entries, p: int, k: u32, list: Seq<SubstV>)
    requires
        entries_wf(e0),
        0 <= p <= e0.len(),
        forall|j: int| 0 <= j < p ==> (#[trigger] e0[j]).0 < k,
        forall|q: int| p <= q < e0.len() ==> #[trigger] e0[q].0 > k,
        list.no_duplicates(),
    ensures
        entries_wf(e0.insert(p, (k, list))),
        to_map(e0.insert(p, (k, list))) == union_map(to_map(e0), map![k => list.to_set()]),
{
    let e1 = e0.insert(p, (k, list));
    let other = map![k => list.to_set()];
    assert forall|a: int, b: int| 0 <= a < b < e1.len() implies #[trigger] e1[a].0
        < #[trigger] e1[b].0 by {
        if b < p {
            assert(e0[a].0 < e0[b].0);
        } else if b == p {
            assert(e0[a].0 < k);
        } else if a < p {
            assert(e0[a].0 < k);
            assert(e0[b - 1].0 > k);
        } else if a == p {
            assert(e0[b - 1].0 > k);
        } else {
            assert(e0[a - 1].0 < e0[b - 1].0);
        }
    }
    assert(entries_wf(e1));
    lemma_to_map_at(e1, p);
    assert forall|kk: u32| #[trigger] to_map(e1).dom().contains(kk) == union_map(
        to_map(e0),
        other,
    ).dom().contains(kk) by {
        if to_map(e1).dom().contains(kk) {
            let i = choose|i: int| 0 <= i < e1.len() && e1[i].0 == kk;
            if i < p {
                lemma_to_map_at(e0, i);
            } else if i > p {
                lemma_to_map_at(e0, i - 1);
            }
        }
        if to_map(e0).dom().contains(kk) {
            let i = choose|i: int| 0 <= i < e0.len() && e0[i].0 == kk;
            if i < p {
                lemma_to_map_at(e1, i);
            } else {
                lemma_to_map_at(e1, i + 1);
            }
        }
    }
    assert(to_map(e1).dom() =~= union_map(to_map(e0), other).dom());
    assert forall|kk: u32| #[trigger] to_map(e1).dom().contains(kk) implies to_map(e1)[kk]
        == union_map(to_map(e0), other)[kk] by {
        let i = choose|i: int| 0 <= i < e1.len() && e1[i].0 == kk;
        lemma_to_map_at(e1, i);
        if i == p {
            if to_map(e0).dom().contains(kk) {
                let i0 = choose|i0: int| 0 <= i0 < e0.len() && e0[i0].0 == kk;
                if i0 < p {
                    assert(e0[i0].0 < k);
                } else {
                    assert(e0[i0].0 > k);
                }
            }
            assert(to_map(e1)[kk] =~= union_map(to_map(e0), other)[kk]);
        } else if i < p {
            lemma_to_map_at(e0, i);
            assert(e0[i].0 < k);
            assert(to_map(e1)[kk] =~= union_map(to_map(e0), other)[kk]);
        } else {
            lemma_to_map_at(e0, i - 1);
            assert(e0[i - 1].0 > k);
            assert(to_map(e1)[kk] =~= union_map(to_map(e0), other)[kk]);
        }
    }
    assert(to_map(e1) =~= union_map(to_map(e0), other));
}

/// The substitutions found by a search, by e-class.
pub struct SearchMatches {
    matches: Vec<(Id, Vec<Subst>)>,
    /// How many e-nodes were bound during search (a measure of its cost).
    binds_done: u32,
}

/// The values of a list of substitutions.
pub open spec fn substs_value(v: Seq<Subst>) -> Seq<SubstV> {
    v.map_values(|s: Subst| s.value())
}

impl SearchMatches {
    /// The entries as values.
    pub closed spec fn entries(&self) -> Entries {
        entries_of(self.matches@)
    }

    /// How many e-nodes were bound during the search.
    pub closed spec fn binds(&self) -> u32 {
        self.binds_done
    }

    /// How many e-nodes were bound during the search.
    pub fn binds_done(&self) -> (r: u32)
        ensures
            r == self.binds(),
    {
        self.binds_done
    }

    /// The entries are sorted by class and free of repeats.
    pub open spec fn wf(&self) -> bool {
        entries_wf(self.entries())
    }

    /// The substitutions found in each class.
    pub open spec fn view(&self) -> Map<u32, Set<SubstV>> {
        to_map(self.entries())
    }

    /// No matches.
    pub fn new() -> (r: Self)
        ensures
            r.wf(),
            r.entries().len() == 0,
            r.binds() == 0,
    {
        let r = SearchMatches { matches: Vec::new(), binds_done: 0 };
        proof {
            assert(r.entries() =~= Seq::<(u32, Seq<SubstV>)>::empty());
        }
        r
    }

    /// The number of classes with matches.
    pub fn len(&self) -> (r: usize)
        ensures
            r == self.entries().len(),
    {
        self.matches.len()
    }

    /// The number of substitutions over all classes.
    pub fn total_substs(&self) -> (r: usize)
        requires
            total_upto(self.entries(), self.entries().len()) <= usize::MAX,
        ensures
            r == total_upto(self.entries(), self.entries().len()),
    {
        let mut sum: usize = 0;
        let mut i: usize = 0;
        proof {
            self.lemma_total_mono(0, self.entries().len());
        }
        while i < self.matches.len()
            invariant
                0 <= i <= self.matches@.len(),
                self.entries().len() == self.matches@.len(),
                sum == total_upto(self.entries(), i as nat),
                total_upto(self.entries(), self.entries().len()) <= usize::MAX,
            decreases self.matches@.len() - i,
        {
            proof {
                self.lemma_total_mono((i + 1) as nat, self.entries().len());
                assert(self.entries()[i as int].1.len() == self.matches@[i as int].1@.len());
            }
            sum = sum + self.matches[i].1.len();
            i = i + 1;
        }
        sum
    }

    proof fn lemma_total_mono(&self, a: nat, b: nat)
        requires
            a <= b <= self.entries().len(),
        ensures
            total_upto(self.entries(), a) <= total_upto(self.entries(), b),
        decreases b - a,
    {
        if a < b {
            self.lemma_total_mono(a, (b - 1) as nat);
        }
    }

    /// Adds the substitutions `more` (free of repeats) to class `eclass`,
    /// skipping those already there.
    pub fn add_class(&mut self, eclass: Id, more: Vec<Subst>)
        requires
            old(self).wf(),
            substs_value(more@).no_duplicates(),
        ensures
            final(self).wf(),
            final(self).binds() == old(self).binds(),
            final(self)@ == union_map(old(self)@, map![eclass.0 => substs_value(more@).to_set()]),
    {
        let ghost e0 = self.entries();
        let mut p: usize = 0;
        while p < self.matches.len() && self.matches[p].0.0 < eclass.0
            invariant
                0 <= p <= self.matches@.len(),
                self.entries() == e0,
                forall|j: int| 0 <= j < p ==> (#[trigger] e0[j]).0 < eclass.0,
            decreases self.matches@.len() - p,
        {
            proof {
                assert(e0[p as int].0 == self.matches@[p as int].0.0);
            }
            p = p + 1;
        }
        let ghost other = map![eclass.0 => substs_value(more@).to_set()];
        if p < self.matches.len() && self.matches[p].0.0 == eclass.0 {
            let (id, mut list) = self.matches.remove(p);
            let ghost old_list = substs_value(list@);
            proof {
                assert(e0[p as int] == (id.0, old_list));
            }
            let mut j: usize = 0;
            while j < more.len()
                invariant
                    0 <= j <= more@.len(),
                    substs_value(list@).no_duplicates(),
                    substs_value(list@).to_set() == old_list.to_set().union(
                        substs_value(more@).subrange(0, j as int).to_set(),
                    ),
                decreases more@.len() - j,
            {
                let s = &more[j];
                let mut found = false;
                let mut t: usize = 0;
                while t < list.len()
                    invariant
                        0 <= t <= list@.len(),
                        found == exists|u: int| 0 <= u < t && substs_value(list@)[u] == s.value(),
                    decreases list@.len() - t,
                {
                    if list[t].same_as(s) {
                        found = true;
                    }
                    proof {
                        assert(substs_value(list@)[t as int] == list@[t as int].value());
                        if !found {
                            assert forall|u: int| 0 <= u < t + 1 implies substs_value(list@)[u]
                                != s.value() by {
                                if u == t {
                                } else {
                                    assert(!(0 <= u < t && substs_value(list@)[u] == s.value()));
                                }
                            }
                        }
                    }
                    t = t + 1;
                }
                let ghost before = substs_value(list@);
                proof {
                    assert(substs_value(more@)[j as int] == s.value());
                    assert(substs_value(more@).subrange(0, j + 1) =~= substs_value(more@).subrange(
                        0,
                        j as int,
                    ).push(s.value()));
                    substs_value(more@).subrange(0, j as int).lemma_push_to_set_commute(s.value());
                    before.lemma_push_to_set_commute(s.value());
                }
                if !found {
                    let c = s.duplicate();
                    list.push(c);
                    proof {
                        assert(substs_value(list@) =~= before.push(s.value()));
                        assert(!before.contains(s.value()));
                        assert(substs_value(list@).to_set() =~= before.to_set().insert(s.value()));
                        assert(old_list.to_set().union(
                            substs_value(more@).subrange(0, j + 1).to_set(),
                        ) =~= old_list.to_set().union(
                            substs_value(more@).subrange(0, j as int).to_set(),
                        ).insert(s.value()));
                    }
                } else {
                    proof {
                        let u = choose|u: int| 0 <= u < list@.len() && substs_value(list@)[u] == s.value();
                        assert(before.contains(s.value()));
                        assert(old_list.to_set().union(
                            substs_value(more@).subrange(0, j + 1).to_set(),
                        ) =~= old_list.to_set().union(
                            substs_value(more@).subrange(0, j as int).to_set(),
                        ).insert(s.value()));
                        assert(before.to_set().insert(s.value()) =~= before.to_set());
                    }
                }
                j = j + 1;
            }
            let ghost new_list = substs_value(list@);
            self.matches.insert(p, (id, list));
            proof {
                assert(substs_value(more@).subrange(0, more@.len() as int) =~= substs_value(more@));
                assert(self.entries() =~= e0.update(p as int, (eclass.0, new_list)));
                lemma_update_entry(e0, p as int, eclass.0, new_list, substs_value(more@).to_set());
            }
        } else {
            let ghost mv = substs_value(more@);
            proof {
                if p < e0.len() {
                    assert(e0[p as int].0 == self.matches@[p as int].0.0);
                    assert(e0[p as int].0 > eclass.0);
                }
                assert forall|q: int| p <= q < e0.len() implies #[trigger] e0[q].0 > eclass.0 by {
                    if q > p {
                        assert(e0[p as int].0 < e0[q].0);
                    }
                }
            }
            self.matches.insert(p, (eclass, more));
            proof {
                assert(self.entries() =~= e0.insert(p as int, (eclass.0, mv)));
                lemma_insert_entry(e0, p as int, eclass.0, mv);
            }
        }
    }

    /// Joins two search results: binds add up, and each class gets the
    /// union of its substitutions in both.
    pub fn merge(self, other: Self) -> (r: Self)
        requires
            self.wf(),
            other.wf(),
            self.binds() + other.binds() <= u32::MAX,
        ensures
            r.wf(),
            r@ == union_map(self@, other@),
            r.binds() == self.binds() + other.binds(),
    {
        let ghost m0 = self@;
        let ghost oe = other.entries();
        let binds = self.binds_done + other.binds_done;
        let mut result = self;
        result.binds_done = binds;
        let SearchMatches { matches: mut items, binds_done: _ } = other;
        let total = items.len();
        let mut taken: usize = 0;
        proof {
            assert(oe.subrange(0, 0) =~= Seq::<(u32, Seq<SubstV>)>::empty());
            assert(to_map(oe.subrange(0, 0)) =~= Map::<u32, Set<SubstV>>::empty());
            lemma_union_empty(m0);
            assert(union_map(m0, Map::empty()) =~= m0) by {
                let l = union_map(m0, Map::empty());
                assert forall|k: u32| #[trigger] l.dom().contains(k) implies l[k] == m0[k] by {
                    assert(l[k] =~= m0[k]);
                }
            }
        }
        while items.len() > 0
            invariant
                result.wf(),
                result.binds() == binds,
                taken + items@.len() == total,
                total == oe.len(),
                entries_wf(oe),
                entries_of(items@) == oe.subrange(
                    taken as int,
                    total as int,
                ),
                result@ == union_map(m0, to_map(oe.subrange(0, taken as int))),
            decreases items@.len(),
        {
            let ghost before = items@;
            let (id, list) = items.remove(0);
            proof {
                let mv = entries_of(before);
                assert(mv[0] == (id.0, substs_value(list@)));
                assert(oe[taken as int] == (id.0, substs_value(list@)));
                assert(entries_of(items@) =~= oe.subrange(
                    taken + 1,
                    total as int,
                )) by {
                    assert forall|j: int| 0 <= j < items@.len() implies #[trigger] entries_of(items@)[j] == oe.subrange(taken + 1, total as int)[j] by {
                        assert(items@[j] == before[j + 1]);
                        assert(mv[j + 1] == oe[taken + 1 + j]);
                    }
                }
                lemma_to_map_prefix(oe, taken as int);
                lemma_union_assoc(
                    m0,
                    to_map(oe.subrange(0, taken as int)),
                    map![id.0 => substs_value(list@).to_set()],
                );
            }
            result.add_class(id, list);
            taken = taken + 1;
        }
        proof {
            assert(oe.subrange(0, total as int) =~= oe);
        }
        result
    }

    /// Joins a list of search results in order; `None` for an empty list.
    pub fn merge_matches(res: Vec<SearchMatches>) -> (r: Option<SearchMatches>)
        requires
            forall|i: int| 0 <= i < res@.len() ==> (#[trigger] res@[i]).wf(),
            binds_upto(res@, res@.len()) <= u32::MAX,
        ensures
            r is None <==> res@.len() == 0,
            r matches Some(m) ==> m.wf() && m@ == union_upto(res@, res@.len()) && m.binds()
                == binds_upto(res@, res@.len()),
    {
        let mut res = res;
        let ghost all = res@;
        let total = res.len();
        let mut acc: Option<SearchMatches> = None;
        let mut taken: usize = 0;
        proof {
            assert(res@ =~= all.subrange(0, all.len() as int));
            lemma_binds_mono(all, 0, all.len());
        }
        while res.len() > 0
            invariant
                taken + res@.len() == all.len(),
                total == all.len(),
                res@ == all.subrange(taken as int, all.len() as int),
                forall|i: int| 0 <= i < all.len() ==> (#[trigger] all[i]).wf(),
                binds_upto(all, all.len()) <= u32::MAX,
                acc is None <==> taken == 0,
                acc matches Some(m) ==> m.wf() && m@ == union_upto(all, taken as nat) && m.binds()
                    == binds_upto(all, taken as nat),
            decreases res@.len(),
        {
            let ghost before = res@;
            let x = res.remove(0);
            proof {
                assert(x == all[taken as int]);
                assert(res@ =~= all.subrange(taken + 1, all.len() as int));
                lemma_binds_mono(all, (taken + 1) as nat, all.len());
                if taken == 0 {
                    lemma_union_empty(x@);
                }
            }
            let ghost xv = x@;
            let ghost xb = x.binds();
            acc = match acc {
                None => Some(x),
                Some(m) => Some(m.merge(x)),
            };
            proof {
                assert(union_upto(all, (taken + 1) as nat) == union_map(union_upto(all, taken as nat), xv));
                assert(binds_upto(all, (taken + 1) as nat) == binds_upto(all, taken as nat) + xb);
            }
            taken = taken + 1;
        }
        acc
    }
}

/// The substitutions found in one e-class.
pub struct Matches<'a> {
    /// The e-class.
    pub eclass: Id,
    /// Its substitutions.
    pub substs: &'a [Subst],
}

impl<'a> Matches<'a> {
    /// The matches of `eclass`.
    pub fn new(eclass: Id, substs: &'a [Subst]) -> (r: Self)
        ensures
            r.eclass == eclass,
            r.substs@ == substs@,
    {
        Matches { eclass, substs }
    }
}

/// All substitutions of the entries, class after class.
pub open spec fn all_substs(s: Entries) -> Seq<SubstV>
    decreases s.len(),
{
    if s.len() == 0 {
        Seq::empty()
    } else {
        all_substs(s.drop_last()) + s.last().1
    }
}

impl SearchMatches {
    /// The matches of each class, in increasing class order.
    pub fn iter(&self) -> (r: Vec<Matches<'_>>)
        ensures
            r@.len() == self.entries().len(),
            forall|i: int|
                0 <= i < r@.len() ==> (#[trigger] r@[i]).eclass.0 == self.entries()[i].0
                    && substs_value(r@[i].substs@) == self.entries()[i].1,
    {
        let mut out: Vec<Matches<'_>> = Vec::new();
        let mut i: usize = 0;
        while i < self.matches.len()
            invariant
                0 <= i <= self.matches@.len(),
                self.entries().len() == self.matches@.len(),
                out@.len() == i,
                forall|j: int|
                    0 <= j < i ==> (#[trigger] out@[j]).eclass.0 == self.entries()[j].0
                        && substs_value(out@[j].substs@) == self.entries()[j].1,
            decreases self.matches@.len() - i,
        {
            let m = Matches::new(self.matches[i].0, self.matches[i].1.as_slice());
            out.push(m);
            i = i + 1;
        }
        out
    }

    /// The matches of the class with the smallest id, if any.
    pub fn first(&self) -> (r: Option<Matches<'_>>)
        ensures
            r is None <==> self.entries().len() == 0,
            r matches Some(m) ==> m.eclass.0 == self.entries()[0].0 && substs_value(m.substs@)
                == self.entries()[0].1,
    {
        if self.matches.len() == 0 {
            None
        } else {
            Some(Matches::new(self.matches[0].0, self.matches[0].1.as_slice()))
        }
    }

    /// Every substitution found, class after class in increasing class
    /// order.
    pub fn substs(&self) -> (r: Vec<&Subst>)
        ensures
            r@.map_values(|s: &Subst| s.value()) == all_substs(self.entries()),
    {
        let mut out: Vec<&Subst> = Vec::new();
        let mut i: usize = 0;
        while i < self.matches.len()
            invariant
                0 <= i <= self.matches@.len(),
                self.entries().len() == self.matches@.len(),
                out@.map_values(|s: &Subst| s.value()) == all_substs(self.entries().subrange(0, i as int)),
            decreases self.matches@.len() - i,
        {
            let list = &self.matches[i].1;
            let ghost start = out@.map_values(|s: &Subst| s.value());
            let mut j: usize = 0;
            while j < list.len()
                invariant
                    0 <= j <= list@.len(),
                    out@.map_values(|s: &Subst| s.value()) == start + substs_value(list@).subrange(0, j as int),
                decreases list@.len() - j,
            {
                let ghost before = out@.map_values(|s: &Subst| s.value());
                out.push(&list[j]);
                proof {
                    assert(out@.map_values(|s: &Subst| s.value()) =~= before.push(list@[j as int].value()));
                    assert(substs_value(list@).subrange(0, j + 1) =~= substs_value(list@).subrange(0, j as int).push(
                        list@[j as int].value(),
                    ));
                }
                j = j + 1;
            }
            proof {
                let e = self.entries();
                assert(substs_value(list@).subrange(0, list@.len() as int) =~= substs_value(list@));
                assert(e.subrange(0, i + 1).drop_last() =~= e.subrange(0, i as int));
                assert(e[i as int].1 == substs_value(list@));
            }
            i = i + 1;
        }
        proof {
            assert(self.entries().subrange(0, self.matches@.len() as int) =~= self.entries());
        }
        out
    }
}

/// The text of one class's matches: `class 3: {..}, {..}`.
pub open spec fn class_text(e: (u32, Seq<SubstV>)) -> Seq<char> {
    seq!['c', 'l', 'a', 's', 's', ' '] + crate::decimal_text(e.0 as nat) + seq![':', ' '] + crate::joined(
        e.1.map_values(|v: SubstV| subst_text(v)),
        seq![',', ' '],
    )
}

/// The text of a search result: `SearchMatches(class 1: .., class 4: ..)`.
pub open spec fn search_matches_text(s: Entries) -> Seq<char> {
    seq!['S', 'e', 'a', 'r', 'c', 'h', 'M', 'a', 't', 'c', 'h', 'e', 's', '('] + crate::joined(
        s.map_values(|e: (u32, Seq<SubstV>)| class_text(e)),
        seq![',', ' '],
    ) + seq![')']
}

impl SearchMatches {
    /// The text of this search result, classes in increasing order.
    pub fn to_string(&self) -> (r: String)
        ensures
            r@ == search_matches_text(self.entries()),
    {
        proof {
            reveal_strlit("SearchMatches(");
            reveal_strlit(")");
        }
        let mut out = String::new();
        out.append("SearchMatches(");
        let ghost parts = self.entries().map_values(|e: (u32, Seq<SubstV>)| class_text(e));
        let mut i: usize = 0;
        while i < self.matches.len()
            invariant
                0 <= i <= self.matches@.len(),
                self.entries().len() == self.matches@.len(),
                parts == self.entries().map_values(|e: (u32, Seq<SubstV>)| class_text(e)),
                out@ == seq!['S', 'e', 'a', 'r', 'c', 'h', 'M', 'a', 't', 'c', 'h', 'e', 's', '('] + crate::joined(
                    parts.subrange(0, i as int),
                    seq![',', ' '],
                ),
            decreases self.matches@.len() - i,
        {
            proof {
                reveal_strlit(", ");
                reveal_strlit("class ");
                reveal_strlit(": ");
            }
            let ghost before = out@;
            if i > 0 {
                out.append(", ");
            }
            let ghost mid = out@;
            let (id, list) = (self.matches[i].0, &self.matches[i].1);
            out.append("class ");
            let num = crate::u64_to_decimal(id.0 as u64);
            out.append(num.as_str());
            out.append(": ");
            let ghost texts = substs_value(list@).map_values(|v: SubstV| subst_text(v));
            let ghost start = out@;
            let mut j: usize = 0;
            while j < list.len()
                invariant
                    0 <= j <= list@.len(),
                    texts == substs_value(list@).map_values(|v: SubstV| subst_text(v)),
                    out@ == start + crate::joined(texts.subrange(0, j as int), seq![',', ' ']),
                decreases list@.len() - j,
            {
                proof {
                    reveal_strlit(", ");
                }
                let ghost b2 = out@;
                if j > 0 {
                    out.append(", ");
                }
                let t = list[j].to_string();
                out.append(t.as_str());
                proof {
                    let pre = texts.subrange(0, j as int);
                    let now = texts.subrange(0, j + 1);
                    assert(now.drop_last() =~= pre);
                    assert(now.last() == texts[j as int]);
                    assert(texts[j as int] == subst_text(list@[j as int].value()));
                    if j > 0 {
                        assert(out@ =~= start + (crate::joined(pre, seq![',', ' ']) + seq![',', ' '] + now.last()));
                    } else {
                        assert(out@ =~= start + now.last());
                    }
                }
                j = j + 1;
            }
            proof {
                let e = self.entries();
                assert(texts.subrange(0, list@.len() as int) =~= texts);
                assert(e[i as int] == (id.0, substs_value(list@)));
                assert(parts[i as int] == class_text(e[i as int]));
                assert(out@ =~= mid + class_text(e[i as int]));
                let pre = parts.subrange(0, i as int);
                let now = parts.subrange(0, i + 1);
                assert(now.drop_last() =~= pre);
                assert(now.last() == parts[i as int]);
                if i > 0 {
                    assert(out@ =~= seq!['S', 'e', 'a', 'r', 'c', 'h', 'M', 'a', 't', 'c', 'h', 'e', 's', '(']
                        + (crate::joined(pre, seq![',', ' ']) + seq![',', ' '] + now.last()));
                } else {
                    assert(out@ =~= seq!['S', 'e', 'a', 'r', 'c', 'h', 'M', 'a', 't', 'c', 'h', 'e', 's', '(']
                        + now.last());
                }
            }
            i = i + 1;
        }
        proof {
            assert(parts.subrange(0, self.matches@.len() as int) =~= parts);
        }
        out.append(")");
        out
    }
}

/// The union of the first `k` results.
pub open spec fn union_upto(v: Seq<SearchMatches>, k: nat) -> Map<u32, Set<SubstV>>
    decreases k,
{
    if k == 0 {
        Map::empty()
    } else {
        union_map(union_upto(v, (k - 1) as nat), v[k - 1]@)
    }
}

/// The binds of the first `k` results.
pub open spec fn binds_upto(v: Seq<SearchMatches>, k: nat) -> nat
    decreases k,
{
    if k == 0 {
        0
    } else {
        binds_upto(v, (k - 1) as nat) + v[k - 1].binds() as nat
    }
}

proof fn lemma_binds_mono(v: Seq<SearchMatches>, a: nat, b: nat)
    requires
        a <= b <= v.len(),
    ensures
        binds_upto(v, a) <= binds_upto(v, b),
    decreases b - a,
{
    if a < b {
        lemma_binds_mono(v, a, (b - 1) as nat);
    }
}

} // verus!

verus! {

impl Default for SearchMatches {
    fn default() -> (r: Self)
        ensures
            r.wf(),
            r.entries().len() == 0,
            r.binds() == 0,
    {
        SearchMatches::new()
    }
}

} // verus!
