//! The e-graph: a hash-consed set of e-nodes over a union-find of e-class
//! ids, with congruence closure restored by `rebuild`.

use vstd::prelude::*;

use crate::Id;
use crate::machine::{Instruction, Program, Reg, ScanRoot};
use crate::matching::{
    bind_pending, binds_to, branch_free, cut_regs, found_in, has_op, is_leader, lemma_found_grow, lemma_runs_cons,
    lemma_runs_end, lemma_runs_first, program_matches, read_regs, regs_in, runs_from, scan_hits, scan_all_pending,
    scan_op_pending, step_to,
};
use crate::pattern::{node_kids, nodes_view, ENodeOrVar, PatNode, PatternAst, SymbolLang};
use crate::subst::{binding_of, distinct_vars, lemma_binding_rebind, lemma_rebind_absent, Subst};
use crate::unionfind::{leader_count, leaders_closed, leaders_upto, lemma_leaders_upto_bound, lemma_merge_leader_count, merged_leaders, SimpleUnionFind};

verus! {

/// An e-node as a value: its operator and its children.
pub open spec fn node_view(n: SymbolLang) -> (Seq<char>, Seq<Id>) {
    (n.op@, n.children@)
}

/// The e-node with each child replaced by the leader of its class.
pub open spec fn canon(s: Seq<u32>, n: (Seq<char>, Seq<Id>)) -> (Seq<char>, Seq<Id>) {
    (n.0, n.1.map_values(|c: Id| Id(s[c.0 as int])))
}

/// An e-node of an expression with each child (an index into the
/// expression) replaced by the class given to that child.
pub open spec fn expr_node(n: SymbolLang, ids: Seq<Id>) -> (Seq<char>, Seq<Id>) {
    (n.op@, n.children@.map_values(|c: Id| ids[c.0 as int]))
}

/// Canonical forms agree under a leader map that only grew.
pub proof fn lemma_canon_prefix(a: Seq<u32>, b: Seq<u32>, n: (Seq<char>, Seq<Id>))
    requires
        a.is_prefix_of(b),
        kids_below(n, a.len() as int),
    ensures
        canon(a, n) == canon(b, n),
{
    assert(canon(a, n).1 =~= canon(b, n).1) by {
        assert forall|k: int| 0 <= k < n.1.len() implies #[trigger] canon(a, n).1[k] == canon(b, n).1[k] by {
            assert(n.1[k].0 < a.len());
            assert(a[n.1[k].0 as int] == b[n.1[k].0 as int]);
        }
    }
}

/// The classes given to the nodes of a pattern, `-1` where none is given.
pub open spec fn cls_view(v: Seq<Option<Id>>) -> Seq<int> {
    v.map_values(|o: Option<Id>| match o {
        Some(x) => x.0 as int,
        None => -1,
    })
}

/// Node `p` of a pattern is matched in class `cls[p]` under the bindings
/// `s`: a variable is bound to an id of that class; an e-node pattern is
/// matched by a held e-node of that class with the same operator and
/// arity, whose children are in the classes given to the pattern's
/// children.
pub open spec fn node_ok(
    l: Seq<u32>,
    memo: Seq<((Seq<char>, Seq<Id>), Id)>,
    nodes: Seq<PatNode>,
    s: Seq<(Seq<char>, Id)>,
    cls: Seq<int>,
    p: int,
) -> bool {
    &&& 0 <= p < nodes.len()
    &&& cls.len() == nodes.len()
    &&& 0 <= cls[p] < l.len()
    &&& match nodes[p] {
        PatNode::Var { name } => binding_of(s, name) matches Some(x) && (x.0 as int) < l.len() && l[x.0 as int]
            == l[cls[p]],
        PatNode::ENode { op, children, name: _ } => exists|j: int|
            0 <= j < memo.len() && #[trigger] kids_fit(l, memo[j], op, children, cls, cls[p]),
    }
}

/// The memo entry has the operator and arity of the pattern node, and its
/// children are in the classes given to the pattern node's children.
pub open spec fn kids_fit(
    l: Seq<u32>,
    e: ((Seq<char>, Seq<Id>), Id),
    op: Seq<char>,
    children: Seq<Id>,
    cls: Seq<int>,
    c: int,
) -> bool {
    &&& e.0.0 == op
    &&& e.0.1.len() == children.len()
    &&& (e.1.0 as int) < l.len()
    &&& 0 <= c < l.len()
    &&& l[e.1.0 as int] == l[c]
    &&& forall|k: int|
        0 <= k < children.len() ==> 0 <= (#[trigger] children[k]).0 < cls.len() && 0 <= cls[children[k].0 as int]
            < l.len() && (e.0.1[k].0 as int) < l.len() && l[e.0.1[k].0 as int] == l[cls[children[k].0 as int]]
}

/// The whole pattern matches class `c` under the bindings `s`: some classes
/// can be given to its nodes, the last node's being `c`, so that every node
/// is matched in its class.
pub open spec fn pattern_matched(
    l: Seq<u32>,
    memo: Seq<((Seq<char>, Seq<Id>), Id)>,
    nodes: Seq<PatNode>,
    s: Seq<(Seq<char>, Id)>,
    c: int,
) -> bool {
    exists|cls: Seq<int>| #[trigger] full_match(l, memo, nodes, s, cls, c)
}

/// The classes `cls` given to the pattern's nodes, the last one's being
/// `c`, match every node under the bindings `s`.
pub open spec fn full_match(
    l: Seq<u32>,
    memo: Seq<((Seq<char>, Seq<Id>), Id)>,
    nodes: Seq<PatNode>,
    s: Seq<(Seq<char>, Id)>,
    cls: Seq<int>,
    c: int,
) -> bool {
    &&& nodes.len() > 0
    &&& cls.len() == nodes.len()
    &&& cls[nodes.len() - 1] == c
    &&& forall|p: int| 0 <= p < nodes.len() ==> #[trigger] node_ok(l, memo, nodes, s, cls, p)
}

/// Every variable that `t` binds is bound by `s` to an id of the same class.
pub open spec fn subst_agrees(l: Seq<u32>, t: Seq<(Seq<char>, Id)>, s: Seq<(Seq<char>, Id)>) -> bool {
    forall|v: Seq<char>|
        #[trigger] binding_of(t, v) is Some ==> binding_of(s, v) is Some && l[binding_of(t, v).unwrap().0 as int]
            == l[binding_of(s, v).unwrap().0 as int]
}

/// A partial match agrees with the full match given by `s` and `cls`: the
/// classes it gave and the variables it bound are the same up to
/// equivalence.
pub open spec fn agrees(
    l: Seq<u32>,
    st: (Seq<(Seq<char>, Id)>, Seq<int>),
    s: Seq<(Seq<char>, Id)>,
    cls: Seq<int>,
) -> bool {
    &&& forall|x: int| 0 <= x < st.1.len() && st.1[x] >= 0 ==> l[(#[trigger] st.1[x])] == l[cls[x]]
    &&& subst_agrees(l, st.0, s)
}

/// A node matched stays matched when bindings are added and classes are
/// given to nodes that had none.
pub proof fn lemma_node_ok_grow(
    l: Seq<u32>,
    memo: Seq<((Seq<char>, Seq<Id>), Id)>,
    nodes: Seq<PatNode>,
    s: Seq<(Seq<char>, Id)>,
    t: Seq<(Seq<char>, Id)>,
    cls: Seq<int>,
    cls2: Seq<int>,
    p: int,
)
    requires
        node_ok(l, memo, nodes, s, cls, p),
        forall|v: Seq<char>| #[trigger] binding_of(s, v) is Some ==> binding_of(t, v) == binding_of(s, v),
        cls2.len() == cls.len(),
        forall|x: int| 0 <= x < cls.len() && cls[x] >= 0 ==> #[trigger] cls2[x] == cls[x],
    ensures
        node_ok(l, memo, nodes, t, cls2, p),
{
    match nodes[p] {
        PatNode::Var { name } => {
            assert(binding_of(s, name) is Some);
        },
        PatNode::ENode { op, children, name: _ } => {
            let j = choose|j: int| 0 <= j < memo.len() && #[trigger] kids_fit(l, memo[j], op, children, cls, cls[p]);
            assert forall|k: int| 0 <= k < children.len() implies 0 <= (#[trigger] children[k]).0 < cls2.len() && 0
                <= cls2[children[k].0 as int] < l.len() && (memo[j].0.1[k].0 as int) < l.len() && l[memo[j].0.1[k].0 as int]
                == l[cls2[children[k].0 as int]] by {
                assert(cls2[children[k].0 as int] == cls[children[k].0 as int]);
            }
            assert(cls2[p] == cls[p]);
            assert(kids_fit(l, memo[j], op, children, cls2, cls2[p]));
        },
    }
}

/// A partial match while the nodes from `i` on have been handled: classes
/// are given to the pattern's nodes (the last one's being `c`), and every
/// handled node is matched in its class.
pub open spec fn state_ok(
    l: Seq<u32>,
    memo: Seq<((Seq<char>, Seq<Id>), Id)>,
    nodes: Seq<PatNode>,
    st: (Seq<(Seq<char>, Id)>, Seq<int>),
    i: int,
    c: int,
) -> bool {
    &&& nodes.len() > 0
    &&& st.1.len() == nodes.len()
    &&& st.1[nodes.len() - 1] == c
    &&& forall|x: int| 0 <= x < st.1.len() ==> -1 <= #[trigger] st.1[x] < l.len()
    &&& forall|p: int| i <= p < nodes.len() ==> #[trigger] node_ok(l, memo, nodes, st.0, st.1, p)
    &&& binds_only(st.0, nodes, i)
    &&& forall|v: Seq<char>| #[trigger] binding_of(st.0, v) is Some ==> binding_of(st.0, v).unwrap().0 < l.len()
}

/// The bindings bind only variables of the pattern's nodes from `i` on.
pub open spec fn binds_only(s: Seq<(Seq<char>, Id)>, nodes: Seq<PatNode>, i: int) -> bool {
    forall|v: Seq<char>|
        #[trigger] binding_of(s, v) is Some ==> exists|p: int|
            i <= p < nodes.len() && #[trigger] nodes[p] == (PatNode::Var { name: v })
}

/// A partial match as values.
pub open spec fn state_view(st: (Subst, Vec<Option<Id>>)) -> (Seq<(Seq<char>, Id)>, Seq<int>) {
    (st.0@, cls_view(st.1@))
}

/// `e` is an equivalence on ids that holds the equalities of the leader map
/// `l` and is closed under congruence of the e-nodes `m`: two e-nodes with
/// the same operator whose children are related have related classes.
pub open spec fn congruence_over(
    e: spec_fn(int, int) -> bool,
    l: Seq<u32>,
    m: Seq<((Seq<char>, Seq<Id>), Id)>,
) -> bool {
    &&& forall|a: int, b: int| #[trigger] e(a, b) ==> e(b, a)
    &&& forall|a: int, b: int, c: int| #[trigger] e(a, b) && #[trigger] e(b, c) ==> e(a, c)
    &&& forall|a: int, b: int| 0 <= a < l.len() && 0 <= b < l.len() && l[a] == l[b] ==> #[trigger] e(a, b)
    &&& forall|i: int, j: int|
        0 <= i < m.len() && 0 <= j < m.len() && (#[trigger] m[i]).0.0 == (#[trigger] m[j]).0.0 && m[i].0.1.len()
            == m[j].0.1.len() && (forall|k: int| 0 <= k < m[i].0.1.len() ==> e(m[i].0.1[k].0 as int, m[j].0.1[k].0 as int))
            ==> e(m[i].1.0 as int, m[j].1.0 as int)
}

/// Every equality of the leader map `l` holds in every congruence that
/// holds the equalities of `l0` and is closed over the e-nodes `m0`: `l`
/// equates nothing that congruence closure of `l0` does not.
pub open spec fn implied(l: Seq<u32>, l0: Seq<u32>, m0: Seq<((Seq<char>, Seq<Id>), Id)>) -> bool {
    forall|e: spec_fn(int, int) -> bool|
        #[trigger] congruence_over(e, l0, m0) ==> forall|a: int, b: int|
            0 <= a < l.len() && 0 <= b < l.len() && l[a] == l[b] ==> e(a, b)
}

/// A union of two ids that every such congruence relates keeps the leader
/// map implied.
pub proof fn lemma_union_implied(
    l: Seq<u32>,
    x: int,
    y: int,
    l0: Seq<u32>,
    m0: Seq<((Seq<char>, Seq<Id>), Id)>,
)
    requires
        implied(l, l0, m0),
        leaders_closed(l),
        0 <= x < l.len(),
        0 <= y < l.len(),
        forall|e: spec_fn(int, int) -> bool| #[trigger] congruence_over(e, l0, m0) ==> e(x, y),
    ensures
        implied(merged_leaders(l, l[x], l[y]), l0, m0),
{
    let ml = merged_leaders(l, l[x], l[y]);
    assert forall|e: spec_fn(int, int) -> bool| #[trigger] congruence_over(e, l0, m0) implies forall|a: int, b: int|
        0 <= a < ml.len() && 0 <= b < ml.len() && ml[a] == ml[b] ==> e(a, b) by {
        assert forall|a: int, b: int| 0 <= a < ml.len() && 0 <= b < ml.len() && ml[a] == ml[b] implies e(a, b) by {
            assert(l[l[a] as int] == l[a]);
            assert(l[l[b] as int] == l[b]);
            assert(l[l[x] as int] == l[x]);
            assert(l[l[y] as int] == l[y]);
            assert(e(x, y));
            if l[a] == l[b] {
            } else if l[a] == l[x] && l[b] == l[y] {
                assert(e(a, x));
                assert(e(y, b));
                assert(e(a, y));
            } else if l[a] == l[y] && l[b] == l[x] {
                assert(e(a, y));
                assert(e(y, x));
                assert(e(x, b));
                assert(e(a, x));
            } else if l[a] == l[y] {
                assert(ml[a] == l[x]);
                assert(ml[b] == l[b]);
                assert(l[b] == l[x]);
            } else {
                assert(ml[a] == l[a]);
                assert(l[b] == l[y]);
                assert(ml[b] == l[x]);
            }
        }
    }
}

/// Two e-nodes that became equal under the leader map `l` are in classes
/// that every congruence over `l0` and `m0` relates.
pub proof fn lemma_equal_nodes_implied(
    l: Seq<u32>,
    memo: Seq<((Seq<char>, Seq<Id>), Id)>,
    l0: Seq<u32>,
    m0: Seq<((Seq<char>, Seq<Id>), Id)>,
    i: int,
    j: int,
)
    requires
        implied(l, l0, m0),
        0 <= i < memo.len(),
        0 <= j < memo.len(),
        memo.len() == m0.len(),
        memo[i].1 == m0[i].1,
        memo[j].1 == m0[j].1,
        canon(l, memo[i].0) == canon(l, m0[i].0),
        canon(l, memo[j].0) == canon(l, m0[j].0),
        kids_below(m0[i].0, l.len() as int),
        kids_below(m0[j].0, l.len() as int),
        memo[i].0 == memo[j].0,
    ensures
        forall|e: spec_fn(int, int) -> bool| #[trigger] congruence_over(e, l0, m0) ==> e(
            m0[i].1.0 as int,
            m0[j].1.0 as int,
        ),
{
    assert forall|e: spec_fn(int, int) -> bool| #[trigger] congruence_over(e, l0, m0) implies e(
        m0[i].1.0 as int,
        m0[j].1.0 as int,
    ) by {
        assert(canon(l, m0[i].0) == canon(l, m0[j].0));
        assert(m0[i].0.1.len() == canon(l, m0[i].0).1.len());
        assert forall|k: int| 0 <= k < m0[i].0.1.len() implies e(m0[i].0.1[k].0 as int, m0[j].0.1[k].0 as int) by {
            assert(canon(l, m0[i].0).1[k] == canon(l, m0[j].0).1[k]);
            assert(m0[i].0.1[k].0 < l.len());
            assert(m0[j].0.1[k].0 < l.len());
        }
    }
}

/// The memo entry is an e-node of `m0`, canonicalised under `l`, with its
/// class id.
pub open spec fn entry_from(
    l: Seq<u32>,
    m0: Seq<((Seq<char>, Seq<Id>), Id)>,
    x: ((Seq<char>, Seq<Id>), Id),
) -> bool {
    exists|i: int| 0 <= i < m0.len() && x == (canon(l, (#[trigger] m0[i]).0), m0[i].1)
}

/// The two e-nodes are the same.
pub open spec fn same_enode(a: (Seq<char>, Seq<Id>), b: (Seq<char>, Seq<Id>)) -> bool {
    a == b
}

/// The children of the e-node are ids below `n`.
pub open spec fn kids_below(n: (Seq<char>, Seq<Id>), bound: int) -> bool {
    forall|k: int| 0 <= k < n.1.len() ==> (#[trigger] n.1[k]).0 < bound
}

/// Each memo entry as a value.
pub open spec fn memo_values(m: Seq<(SymbolLang, Id)>) -> Seq<((Seq<char>, Seq<Id>), Id)> {
    m.map_values(|e: (SymbolLang, Id)| (node_view(e.0), e.1))
}

/// An e-graph over the symbol language.
///
/// Its model is the leader of each class id (`leaders`) and the memo: the
/// e-nodes it holds, each with the id of its class.
pub struct EGraph {
    unionfind: SimpleUnionFind,
    memo: Vec<(SymbolLang, Id)>,
    pending: Vec<Id>,
}

impl EGraph {
    /// The leader of the class of each id.
    pub closed spec fn leaders(&self) -> Seq<u32> {
        self.unionfind@
    }

    /// The e-nodes held, each with the id of its class.
    pub closed spec fn memo_spec(&self) -> Seq<((Seq<char>, Seq<Id>), Id)> {
        memo_values(self.memo@)
    }

    /// Whether ids `a` and `b` are known to be equal.
    pub open spec fn equiv(&self, a: int, b: int) -> bool {
        self.leaders()[a] == self.leaders()[b]
    }

    /// The ids are consistent: every memo entry names ids of the e-graph.
    pub closed spec fn wf(&self) -> bool {
        &&& self.unionfind.wf()
        &&& forall|i: int|
            0 <= i < self.memo@.len() ==> (#[trigger] self.memo@[i]).1.0 < self.unionfind@.len()
                && kids_below(node_view(self.memo@[i].0), self.unionfind@.len() as int)
    }

    /// The e-graph holds the e-node `n` in the class of `id`.
    pub open spec fn represents(&self, n: (Seq<char>, Seq<Id>), id: Id) -> bool {
        exists|j: int|
            0 <= j < self.memo_spec().len() && same_enode(#[trigger] self.memo_spec()[j].0, n) && self.equiv(
                self.memo_spec()[j].1.0 as int,
                id.0 as int,
            )
    }

    /// Looking up the e-node `n` finds the class `r`: the e-graph holds `n`,
    /// with its children canonical, in a class led by `r`.
    pub open spec fn finds(&self, n: (Seq<char>, Seq<Id>), r: Id) -> bool {
        exists|i: int|
            0 <= i < self.memo_spec().len() && #[trigger] self.memo_spec()[i].0 == canon(self.leaders(), n)
                && (self.memo_spec()[i].1.0 as int) < self.leaders().len() && self.leaders()[self.memo_spec()[i].1.0 as int]
                == r.0
    }

    /// In a hash-consed e-graph an e-node is found in one class only: what
    /// `add` returns when the e-node is already held is the class in which a
    /// previous `add` or `lookup` found it.
    pub proof fn law_found_once(&self, n: (Seq<char>, Seq<Id>), r: Id, r2: Id)
        requires
            self.hashconsed(),
            self.finds(n, r),
            self.finds(n, r2),
        ensures
            r == r2,
    {
        let i = choose|i: int|
            0 <= i < self.memo_spec().len() && #[trigger] self.memo_spec()[i].0 == canon(self.leaders(), n)
                && (self.memo_spec()[i].1.0 as int) < self.leaders().len() && self.leaders()[self.memo_spec()[i].1.0 as int]
                == r.0;
        let j = choose|j: int|
            0 <= j < self.memo_spec().len() && #[trigger] self.memo_spec()[j].0 == canon(self.leaders(), n)
                && (self.memo_spec()[j].1.0 as int) < self.leaders().len() && self.leaders()[self.memo_spec()[j].1.0 as int]
                == r2.0;
        if i < j {
            assert(self.memo_spec()[i].0 != self.memo_spec()[j].0);
        } else if j < i {
            assert(self.memo_spec()[j].0 != self.memo_spec()[i].0);
        }
    }

    /// Every e-node's children are leaders.
    pub open spec fn canonical(&self) -> bool {
        forall|i: int, k: int|
            0 <= i < self.memo_spec().len() && 0 <= k < self.memo_spec()[i].0.1.len() ==> self.leaders()[(
            #[trigger] self.memo_spec()[i].0.1[k]).0 as int] == self.memo_spec()[i].0.1[k].0
    }

    /// Congruence: e-nodes that are equal up to the classes of their
    /// children are in one class.
    pub open spec fn congruent(&self) -> bool {
        forall|i: int, j: int|
            0 <= i < self.memo_spec().len() && 0 <= j < self.memo_spec().len() && canon(
                self.leaders(),
                #[trigger] self.memo_spec()[i].0,
            ) == canon(self.leaders(), #[trigger] self.memo_spec()[j].0) ==> self.equiv(
                self.memo_spec()[i].1.0 as int,
                self.memo_spec()[j].1.0 as int,
            )
    }

    /// Hash-consing: no e-node is held twice.
    pub open spec fn hashconsed(&self) -> bool {
        forall|i: int, j: int|
            0 <= i < j < self.memo_spec().len() ==> #[trigger] self.memo_spec()[i].0 != #[trigger] self.memo_spec()[j].0
    }

    /// The e-graph is rebuilt: canonical, congruence-closed and hash-consed.
    pub open spec fn clean(&self) -> bool {
        &&& self.canonical()
        &&& self.congruent()
        &&& self.hashconsed()
    }

    /// Leaders are ids of the e-graph and lead themselves.
    pub proof fn lemma_leaders_closed(&self)
        requires
            self.wf(),
        ensures
            leaders_closed(self.leaders()),
            self.leaders().len() <= 0x1_0000_0000,
            forall|i: int|
                0 <= i < self.memo_spec().len() ==> (#[trigger] self.memo_spec()[i]).1.0 < self.leaders().len()
                    && kids_below(self.memo_spec()[i].0, self.leaders().len() as int),
    {
        self.unionfind.lemma_view_closed();
        assert forall|i: int| 0 <= i < self.memo_spec().len() implies (
        #[trigger] self.memo_spec()[i]).1.0 < self.leaders().len() && kids_below(
            self.memo_spec()[i].0,
            self.leaders().len() as int,
        ) by {
            assert(self.memo_spec()[i] == (node_view(self.memo@[i].0), self.memo@[i].1));
        }
    }

    /// An empty e-graph.
    pub fn new() -> (r: Self)
        ensures
            r.wf(),
            r.clean(),
            r.leaders() == Seq::<u32>::empty(),
            r.memo_spec() == Seq::<((Seq<char>, Seq<Id>), Id)>::empty(),
    {
        let r = EGraph { unionfind: SimpleUnionFind::new(), memo: Vec::new(), pending: Vec::new() };
        proof {
            assert(r.memo_spec() =~= Seq::<((Seq<char>, Seq<Id>), Id)>::empty());
        }
        r
    }

    /// The number of ids handed out.
    pub fn id_len(&self) -> (r: usize)
        requires
            self.wf(),
        ensures
            r == self.leaders().len(),
    {
        self.unionfind.len()
    }

    /// The number of e-nodes held.
    pub fn total_size(&self) -> (r: usize)
        ensures
            r == self.memo_spec().len(),
    {
        self.memo.len()
    }

    /// Whether the e-graph holds no e-node.
    pub fn is_empty(&self) -> (r: bool)
        ensures
            r == (self.memo_spec().len() == 0),
    {
        self.memo.len() == 0
    }

    /// The number of e-classes: the ids that lead themselves.
    pub fn number_of_classes(&self) -> (r: usize)
        requires
            self.wf(),
        ensures
            r == leader_count(self.leaders()),
    {
        let n = self.unionfind.len();
        let mut count: usize = 0;
        let mut i: usize = 0;
        while i < n
            invariant
                self.wf(),
                n == self.leaders().len(),
                0 <= i <= n,
                count == leaders_upto(self.leaders(), i as int),
            decreases n - i,
        {
            proof {
                lemma_leaders_upto_bound(self.leaders(), i as int);
            }
            let l = self.unionfind.find(Id(i as u32));
            if l.0 as usize == i {
                count = count + 1;
            }
            i = i + 1;
        }
        count
    }

    /// The leader of the class of `id`; an id outside the e-graph is
    /// returned as it is.
    pub fn find(&self, id: Id) -> (r: Id)
        requires
            self.wf(),
        ensures
            (id.0 as int) < self.leaders().len() ==> r.0 == self.leaders()[id.0 as int],
            (id.0 as int) >= self.leaders().len() ==> r == id,
    {
        self.unionfind.find(id)
    }

    /// The e-node with each child replaced by its leader.
    fn canonize(&self, enode: &SymbolLang) -> (r: SymbolLang)
        requires
            self.wf(),
            kids_below(node_view(*enode), self.leaders().len() as int),
        ensures
            node_view(r) == canon(self.leaders(), node_view(*enode)),
    {
        let mut children: Vec<Id> = Vec::new();
        let mut i: usize = 0;
        while i < enode.children.len()
            invariant
                self.wf(),
                kids_below(node_view(*enode), self.leaders().len() as int),
                0 <= i <= enode.children@.len(),
                children@ == enode.children@.subrange(0, i as int).map_values(
                    |c: Id| Id(self.leaders()[c.0 as int]),
                ),
            decreases enode.children@.len() - i,
        {
            let c = enode.children[i];
            proof {
                assert(node_view(*enode).1[i as int].0 < self.leaders().len());
            }
            let l = self.unionfind.find(c);
            children.push(l);
            proof {
                assert(children@ =~= enode.children@.subrange(0, i + 1).map_values(
                    |c: Id| Id(self.leaders()[c.0 as int]),
                ));
            }
            i = i + 1;
        }
        proof {
            assert(enode.children@.subrange(0, enode.children@.len() as int) =~= enode.children@);
        }
        SymbolLang { op: enode.op.clone(), children }
    }

    /// The index of the memo entry holding exactly `enode`, if any.
    fn memo_index(&self, enode: &SymbolLang) -> (r: Option<usize>)
        ensures
            r matches Some(i) ==> i < self.memo_spec().len() && self.memo_spec()[i as int].0 == node_view(
                *enode,
            ),
            r is None ==> forall|i: int|
                0 <= i < self.memo_spec().len() ==> #[trigger] self.memo_spec()[i].0 != node_view(*enode),
    {
        let mut i: usize = 0;
        while i < self.memo.len()
            invariant
                0 <= i <= self.memo@.len(),
                forall|j: int| 0 <= j < i ==> #[trigger] self.memo_spec()[j].0 != node_view(*enode),
            decreases self.memo@.len() - i,
        {
            proof {
                assert(self.memo_spec()[i as int] == (node_view(self.memo@[i as int].0), self.memo@[i as int].1));
            }
            if same_node(&self.memo[i].0, enode) {
                return Some(i);
            }
            i = i + 1;
        }
        None
    }

    /// The class of `enode` once its children are canonical, if the
    /// e-graph holds that e-node.
    pub fn lookup(&self, enode: &mut SymbolLang) -> (r: Option<Id>)
        requires
            self.wf(),
            kids_below(node_view(*old(enode)), self.leaders().len() as int),
        ensures
            node_view(*final(enode)) == canon(self.leaders(), node_view(*old(enode))),
            r is None ==> forall|i: int|
                0 <= i < self.memo_spec().len() ==> #[trigger] self.memo_spec()[i].0 != canon(
                    self.leaders(),
                    node_view(*old(enode)),
                ),
            r matches Some(x) ==> exists|i: int|
                0 <= i < self.memo_spec().len() && #[trigger] self.memo_spec()[i].0 == canon(
                    self.leaders(),
                    node_view(*old(enode)),
                ) && x.0 == self.leaders()[self.memo_spec()[i].1.0 as int],
    {
        let c = self.canonize(enode);
        let ghost cv = node_view(c);
        *enode = c;
        match self.memo_index(enode) {
            None => None,
            Some(i) => {
                proof {
                    self.lemma_leaders_closed();
                    assert(self.memo_spec()[i as int] == (node_view(self.memo@[i as int].0), self.memo@[i as int].1));
                }
                Some(self.unionfind.find(self.memo[i].1))
            },
        }
    }

    /// Adds an e-node, hash-consed: if the e-graph holds the e-node (with
    /// canonical children) its class is returned, and otherwise a new class
    /// holding it is made. Adding to a clean e-graph keeps it clean.
    pub fn add(&mut self, enode: SymbolLang) -> (r: Id)
        requires
            old(self).wf(),
            kids_below(node_view(enode), old(self).leaders().len() as int),
            old(self).leaders().len() < 0x1_0000_0000,
        ensures
            final(self).wf(),
            (r.0 as int) < final(self).leaders().len(),
            final(self).leaders()[r.0 as int] == r.0,
            old(self).leaders().is_prefix_of(final(self).leaders()),
            ({
                let c = canon(old(self).leaders(), node_view(enode));
                if exists|i: int| 0 <= i < old(self).memo_spec().len() && #[trigger] old(self).memo_spec()[i].0 == c {
                    &&& final(self).leaders() == old(self).leaders()
                    &&& final(self).memo_spec() == old(self).memo_spec()
                    &&& exists|i: int|
                        0 <= i < old(self).memo_spec().len() && #[trigger] old(self).memo_spec()[i].0 == c
                            && r.0 == old(self).leaders()[old(self).memo_spec()[i].1.0 as int]
                } else {
                    &&& r.0 == old(self).leaders().len()
                    &&& final(self).leaders() == old(self).leaders().push(r.0)
                    &&& final(self).memo_spec() == old(self).memo_spec().push((c, r))
                }
            }),
            old(self).clean() ==> final(self).clean(),
            final(self).finds(node_view(enode), r),
    {
        let c = self.canonize(&enode);
        match self.memo_index(&c) {
            Some(i) => {
                proof {
                    self.lemma_leaders_closed();
                    assert(self.memo_spec()[i as int] == (node_view(self.memo@[i as int].0), self.memo@[i as int].1));
                }
                let r = self.unionfind.find(self.memo[i].1);
                proof {
                    assert(self.memo_spec()[i as int].0 == canon(self.leaders(), node_view(enode)));
                }
                r
            },
            None => {
                let ghost old_self = *self;
                let id = self.unionfind.make_set();
                proof {
                    old_self.lemma_leaders_closed();
                    assert forall|k: int| 0 <= k < c.children@.len() implies (#[trigger] c.children@[k]).0
                        < old_self.leaders().len() by {
                        assert(enode.children@[k].0 < old_self.leaders().len());
                    }
                }
                self.memo.push((c, id));
                self.pending.push(id);
                proof {
                    let n = self.leaders().len();
                    assert(self.memo_spec() =~= old_self.memo_spec().push((node_view(c), id)));
                    assert forall|i: int| 0 <= i < self.memo@.len() implies (#[trigger] self.memo@[i]).1.0 < n
                        && kids_below(node_view(self.memo@[i].0), n as int) by {
                        if i < old_self.memo@.len() {
                            assert(self.memo@[i] == old_self.memo@[i]);
                        }
                    }
                    if old_self.clean() {
                        let l0 = old_self.leaders();
                        let l1 = self.leaders();
                        let m0 = old_self.memo_spec();
                        let m1 = self.memo_spec();
                        assert forall|i: int, k: int|
                            0 <= i < m1.len() && 0 <= k < m1[i].0.1.len() implies l1[(#[trigger] m1[i].0.1[k]).0 as int]
                            == m1[i].0.1[k].0 by {
                            if i < m0.len() {
                                assert(m1[i] == m0[i]);
                                assert(l0[m0[i].0.1[k].0 as int] == m0[i].0.1[k].0);
                            } else {
                                assert(m1[i].0.1[k] == Id(l0[enode.children@[k].0 as int]));
                                assert(enode.children@[k].0 < l0.len());
                            }
                        }
                        assert forall|i: int| 0 <= i < m0.len() implies canon(l1, #[trigger] m0[i].0) == m0[i].0 by {
                            assert(canon(l1, m0[i].0).1 =~= m0[i].0.1) by {
                                assert forall|k: int| 0 <= k < m0[i].0.1.len() implies #[trigger] canon(l1, m0[i].0).1[k]
                                    == m0[i].0.1[k] by {
                                    assert(l0[m0[i].0.1[k].0 as int] == m0[i].0.1[k].0);
                                }
                            }
                        }
                        assert(canon(l1, node_view(c)) == node_view(c)) by {
                            assert(canon(l1, node_view(c)).1 =~= node_view(c).1) by {
                                assert forall|k: int| 0 <= k < c.children@.len() implies #[trigger] canon(l1, node_view(c)).1[k]
                                    == c.children@[k] by {
                                    assert(c.children@[k] == Id(l0[enode.children@[k].0 as int]));
                                    assert(enode.children@[k].0 < l0.len());
                                }
                            }
                        }
                        assert forall|i: int, j: int|
                            0 <= i < m1.len() && 0 <= j < m1.len() && canon(l1, #[trigger] m1[i].0) == canon(
                                l1,
                                #[trigger] m1[j].0,
                            ) implies l1[m1[i].1.0 as int] == l1[m1[j].1.0 as int] by {
                            if i < m0.len() && j < m0.len() {
                                assert(m1[i] == m0[i]);
                                assert(m1[j] == m0[j]);
                                assert(canon(l0, m0[i].0) == m0[i].0) by {
                                    assert(canon(l0, m0[i].0).1 =~= m0[i].0.1);
                                }
                                assert(canon(l0, m0[j].0) == m0[j].0) by {
                                    assert(canon(l0, m0[j].0).1 =~= m0[j].0.1);
                                }
                            } else if i < m0.len() {
                                assert(m1[i] == m0[i]);
                                assert(m0[i].0 != node_view(c));
                            } else if j < m0.len() {
                                assert(m1[j] == m0[j]);
                                assert(m0[j].0 != node_view(c));
                            }
                        }
                        assert forall|i: int, j: int| 0 <= i < j < m1.len() implies #[trigger] m1[i].0
                            != #[trigger] m1[j].0 by {
                            if j < m0.len() {
                                assert(m1[i] == m0[i]);
                                assert(m1[j] == m0[j]);
                            } else {
                                assert(m1[i] == m0[i]);
                            }
                        }
                    }
                }
                proof {
                    let w = old_self.memo_spec().len() as int;
                    assert(self.memo_spec()[w] == (node_view(c), id));
                    lemma_canon_prefix(old_self.leaders(), self.leaders(), node_view(enode));
                    assert(self.memo_spec()[w].0 == canon(self.leaders(), node_view(enode)));
                    assert(self.leaders()[id.0 as int] == id.0);
                }
                id
            },
        }
    }

    /// The first `ids.len()` e-nodes of the expression are held, each in the
    /// class given to it, and the next one is not held.
    pub open spec fn lookup_stops(&self, expr: Seq<SymbolLang>, ids: Seq<Id>) -> bool {
        &&& ids.len() < expr.len()
        &&& forall|j: int|
            0 <= j < ids.len() ==> self.represents(canon(self.leaders(), expr_node(expr[j], ids)), #[trigger] ids[j])
        &&& forall|w: int|
            0 <= w < self.memo_spec().len() ==> #[trigger] self.memo_spec()[w].0 != canon(
                self.leaders(),
                expr_node(expr[ids.len() as int], ids),
            )
    }

    /// The classes of the e-nodes of an expression (children before their
    /// parents), each looked up with its children replaced by the classes
    /// found for them; `None` as soon as one e-node is not held.
    pub fn lookup_expr_ids(&self, expr: &[SymbolLang]) -> (r: Option<Vec<Id>>)
        requires
            self.wf(),
            forall|i: int, k: int|
                0 <= i < expr@.len() && 0 <= k < expr@[i].children@.len() ==> (
                #[trigger] expr@[i].children@[k]).0 < i,
        ensures
            r matches Some(ids) ==> ids@.len() == expr@.len() && forall|i: int|
                0 <= i < expr@.len() ==> ((#[trigger] ids@[i]).0 as int) < self.leaders().len()
                    && self.leaders()[ids@[i].0 as int] == ids@[i].0 && self.represents(
                    canon(self.leaders(), expr_node(expr@[i], ids@)),
                    ids@[i],
                ),
            r is None ==> exists|ids: Seq<Id>| #[trigger] self.lookup_stops(expr@, ids),
    {
        proof {
            self.lemma_leaders_closed();
        }
        let mut ids: Vec<Id> = Vec::new();
        let mut i: usize = 0;
        while i < expr.len()
            invariant
                self.wf(),
                leaders_closed(self.leaders()),
                0 <= i <= expr@.len(),
                ids@.len() == i,
                forall|a: int, k: int|
                    0 <= a < expr@.len() && 0 <= k < expr@[a].children@.len() ==> (
                    #[trigger] expr@[a].children@[k]).0 < a,
                forall|j: int|
                    0 <= j < i ==> (#[trigger] ids@[j].0 as int) < self.leaders().len() && self.leaders()[ids@[j].0 as int]
                        == ids@[j].0,
                forall|j: int|
                    0 <= j < i ==> self.represents(
                        canon(self.leaders(), expr_node(expr@[j], ids@)),
                        #[trigger] ids@[j],
                    ),
            decreases expr@.len() - i,
        {
            let node = &expr[i];
            let mut children: Vec<Id> = Vec::new();
            let mut k: usize = 0;
            while k < node.children.len()
                invariant
                    0 <= k <= node.children@.len(),
                    node == expr@[i as int],
                    0 <= i < expr@.len(),
                    ids@.len() == i,
                    forall|a: int, t: int|
                        0 <= a < expr@.len() && 0 <= t < expr@[a].children@.len() ==> (
                        #[trigger] expr@[a].children@[t]).0 < a,
                    children@ == node.children@.subrange(0, k as int).map_values(|c: Id| ids@[c.0 as int]),
                decreases node.children@.len() - k,
            {
                let c = node.children[k];
                proof {
                    assert(expr@[i as int].children@[k as int].0 < i);
                }
                children.push(ids[c.0 as usize]);
                proof {
                    assert(children@ =~= node.children@.subrange(0, k + 1).map_values(|c: Id| ids@[c.0 as int]));
                }
                k = k + 1;
            }
            proof {
                assert(node.children@.subrange(0, node.children@.len() as int) =~= node.children@);
            }
            let enode = SymbolLang { op: node.op.clone(), children };
            proof {
                assert(node_view(enode) == expr_node(expr@[i as int], ids@));
                assert forall|t: int| 0 <= t < node_view(enode).1.len() implies (#[trigger] node_view(enode).1[t]).0
                    < self.leaders().len() by {
                    assert(expr@[i as int].children@[t].0 < i);
                    let cj = expr@[i as int].children@[t].0 as int;
                    assert(node_view(enode).1[t] == ids@[cj]);
                }
            }
            let ghost ev = node_view(enode);
            let mut enode = enode;
            match self.lookup(&mut enode) {
                None => {
                    proof {
                        assert(ids@.len() < expr@.len());
                        assert(self.lookup_stops(expr@, ids@));
                    }
                    return None;
                },
                Some(id) => {
                    proof {
                        let w = choose|w: int|
                            0 <= w < self.memo_spec().len() && #[trigger] self.memo_spec()[w].0 == canon(
                                self.leaders(),
                                ev,
                            ) && id.0 == self.leaders()[self.memo_spec()[w].1.0 as int];
                        assert(same_enode(self.memo_spec()[w].0, canon(self.leaders(), ev)));
                        assert(self.memo_spec()[w].1.0 < self.leaders().len());
                    }
                    let ghost ids_before = ids@;
                    ids.push(id);
                    proof {
                        assert forall|j: int| 0 <= j < i + 1 implies expr_node(expr@[j], ids@) == expr_node(
                            expr@[j],
                            ids_before,
                        ) by {
                            assert(expr_node(expr@[j], ids@).1 =~= expr_node(expr@[j], ids_before).1) by {
                                assert forall|t: int| 0 <= t < expr@[j].children@.len() implies #[trigger] expr_node(
                                    expr@[j],
                                    ids@,
                                ).1[t] == expr_node(expr@[j], ids_before).1[t] by {
                                    assert(expr@[j].children@[t].0 < j);
                                }
                            }
                        }
                        assert forall|j: int| 0 <= j < i + 1 implies self.represents(
                            canon(self.leaders(), expr_node(expr@[j], ids@)),
                            #[trigger] ids@[j],
                        ) by {
                            if j < i {
                                assert(ids@[j] == ids_before[j]);
                            }
                        }
                        assert forall|j: int| 0 <= j < i + 1 implies (#[trigger] ids@[j].0 as int) < self.leaders().len()
                            && self.leaders()[ids@[j].0 as int] == ids@[j].0 by {
                            if j < i {
                                assert(ids@[j] == ids_before[j]);
                            }
                        }
                    }
                },
            }
            i = i + 1;
        }
        Some(ids)
    }

    /// The class of the last e-node of an expression, if every e-node of it
    /// is held (see `lookup_expr_ids`).
    pub fn lookup_expr(&self, expr: &[SymbolLang]) -> (r: Option<Id>)
        requires
            self.wf(),
            forall|i: int, k: int|
                0 <= i < expr@.len() && 0 <= k < expr@[i].children@.len() ==> (
                #[trigger] expr@[i].children@[k]).0 < i,
        ensures
            expr@.len() == 0 ==> r is None,
            r matches Some(x) ==> exists|ids: Seq<Id>|
                ids.len() == expr@.len() && #[trigger] ids.last() == x && forall|i: int|
                    0 <= i < expr@.len() ==> self.represents(
                        canon(self.leaders(), expr_node(expr@[i], ids)),
                        #[trigger] ids[i],
                    ),
            r is None && expr@.len() > 0 ==> exists|ids: Seq<Id>| #[trigger] self.lookup_stops(expr@, ids),
    {
        match self.lookup_expr_ids(expr) {
            Some(ids) => {
                if ids.len() == 0 {
                    None
                } else {
                    let x = ids[ids.len() - 1];
                    proof {
                        assert(ids@.last() == x);
                        assert(forall|i: int|
                            0 <= i < expr@.len() ==> self.represents(
                                canon(self.leaders(), expr_node(expr@[i], ids@)),
                                #[trigger] ids@[i],
                            ));
                        assert(ids@.len() == expr@.len() && ids@.last() == x);
                    }
                    Some(x)
                }
            },
            None => None,
        }
    }

    /// Adds an expression, given as its e-nodes with children before their
    /// parents, and returns the class of its last e-node. Afterwards the
    /// e-graph holds each e-node, with each child replaced by the class
    /// given to that child, in the class given to the e-node.
    pub fn add_expr(&mut self, expr: &[SymbolLang]) -> (r: Id)
        requires
            old(self).wf(),
            expr@.len() > 0,
            forall|i: int, k: int|
                0 <= i < expr@.len() && 0 <= k < expr@[i].children@.len() ==> (
                #[trigger] expr@[i].children@[k]).0 < i,
            old(self).leaders().len() + expr@.len() < 0x1_0000_0000,
        ensures
            final(self).wf(),
            old(self).leaders().is_prefix_of(final(self).leaders()),
            old(self).clean() ==> final(self).clean(),
            (r.0 as int) < final(self).leaders().len(),
            final(self).leaders()[r.0 as int] == r.0,
            exists|ids: Seq<Id>|
                ids.len() == expr@.len() && #[trigger] ids.last() == r && forall|i: int|
                    0 <= i < expr@.len() ==> final(self).represents(
                        canon(final(self).leaders(), expr_node(expr@[i], ids)),
                        #[trigger] ids[i],
                    ),
    {
        let mut ids: Vec<Id> = Vec::new();
        let mut i: usize = 0;
        let ghost l0 = self.leaders();
        while i < expr.len()
            invariant
                self.wf(),
                0 <= i <= expr@.len(),
                ids@.len() == i,
                l0.is_prefix_of(self.leaders()),
                self.leaders().len() <= l0.len() + i,
                old(self).clean() ==> self.clean(),
                l0 == old(self).leaders(),
                l0.len() + expr@.len() < 0x1_0000_0000,
                forall|a: int, k: int|
                    0 <= a < expr@.len() && 0 <= k < expr@[a].children@.len() ==> (
                    #[trigger] expr@[a].children@[k]).0 < a,
                forall|j: int|
                    0 <= j < i ==> (#[trigger] ids@[j].0 as int) < self.leaders().len() && self.leaders()[ids@[j].0 as int]
                        == ids@[j].0,
                forall|j: int|
                    0 <= j < i ==> self.represents(
                        canon(self.leaders(), expr_node(expr@[j], ids@)),
                        #[trigger] ids@[j],
                    ),
            decreases expr@.len() - i,
        {
            let node = &expr[i];
            let mut children: Vec<Id> = Vec::new();
            let mut k: usize = 0;
            while k < node.children.len()
                invariant
                    0 <= k <= node.children@.len(),
                    node == expr@[i as int],
                    0 <= i < expr@.len(),
                    ids@.len() == i,
                    forall|a: int, t: int|
                        0 <= a < expr@.len() && 0 <= t < expr@[a].children@.len() ==> (
                        #[trigger] expr@[a].children@[t]).0 < a,
                    children@ == node.children@.subrange(0, k as int).map_values(|c: Id| ids@[c.0 as int]),
                decreases node.children@.len() - k,
            {
                let c = node.children[k];
                proof {
                    assert(expr@[i as int].children@[k as int].0 < i);
                }
                children.push(ids[c.0 as usize]);
                proof {
                    assert(children@ =~= node.children@.subrange(0, k + 1).map_values(|c: Id| ids@[c.0 as int]));
                }
                k = k + 1;
            }
            proof {
                assert(node.children@.subrange(0, node.children@.len() as int) =~= node.children@);
            }
            let enode = SymbolLang { op: node.op.clone(), children };
            let ghost pre = *self;
            proof {
                assert(node_view(enode) == expr_node(expr@[i as int], ids@));
                assert forall|t: int| 0 <= t < node_view(enode).1.len() implies (#[trigger] node_view(enode).1[t]).0
                    < pre.leaders().len() by {
                    assert(expr@[i as int].children@[t].0 < i);
                    let cj = expr@[i as int].children@[t].0 as int;
                    assert(node_view(enode).1[t] == ids@[cj]);
                }
            }
            let id = self.add(enode);
            let ghost c_new = canon(pre.leaders(), node_view(enode));
            proof {
                pre.lemma_leaders_closed();
                self.lemma_leaders_closed();
                // what was held is still held, with the same canonical form
                assert forall|j: int| 0 <= j < i implies (#[trigger] ids@[j].0 as int) < self.leaders().len()
                    && self.leaders()[ids@[j].0 as int] == ids@[j].0 && self.represents(
                    canon(self.leaders(), expr_node(expr@[j], ids@)),
                    ids@[j],
                ) by {
                    assert(pre.represents(canon(pre.leaders(), expr_node(expr@[j], ids@)), ids@[j]));
                    assert(self.leaders()[ids@[j].0 as int] == pre.leaders()[ids@[j].0 as int]);
                    let en = expr_node(expr@[j], ids@);
                    assert forall|t: int| 0 <= t < en.1.len() implies (#[trigger] en.1[t]).0 < pre.leaders().len() by {
                        let cj = expr@[j].children@[t].0 as int;
                        assert(expr@[j].children@[t].0 < j);
                        assert(en.1[t] == ids@[cj]);
                    }
                    lemma_canon_prefix(pre.leaders(), self.leaders(), en);
                    let w = choose|w: int|
                        0 <= w < pre.memo_spec().len() && same_enode(#[trigger] pre.memo_spec()[w].0, canon(pre.leaders(), en))
                            && pre.equiv(pre.memo_spec()[w].1.0 as int, ids@[j].0 as int);
                    assert(pre.memo_spec().is_prefix_of(self.memo_spec()));
                    assert(self.memo_spec()[w] == pre.memo_spec()[w]);
                    assert(self.equiv(self.memo_spec()[w].1.0 as int, ids@[j].0 as int));
                }
                // the new e-node is held in the class returned
                lemma_canon_prefix(pre.leaders(), self.leaders(), node_view(enode));
                if exists|w: int| 0 <= w < pre.memo_spec().len() && #[trigger] pre.memo_spec()[w].0 == c_new {
                    let w = choose|w: int|
                        0 <= w < pre.memo_spec().len() && #[trigger] pre.memo_spec()[w].0 == c_new && id.0
                            == pre.leaders()[pre.memo_spec()[w].1.0 as int];
                    assert(self.memo_spec()[w] == pre.memo_spec()[w]);
                    assert(same_enode(self.memo_spec()[w].0, canon(self.leaders(), node_view(enode))));
                } else {
                    let w = pre.memo_spec().len() as int;
                    assert(self.memo_spec()[w] == (c_new, id));
                    assert(same_enode(self.memo_spec()[w].0, canon(self.leaders(), node_view(enode))));
                }
                assert(self.represents(canon(self.leaders(), node_view(enode)), id));
            }
            let ghost ids_before = ids@;
            ids.push(id);
            proof {
                assert forall|j: int| 0 <= j < i + 1 implies expr_node(expr@[j], ids@) == expr_node(expr@[j], ids_before) by {
                    assert(expr_node(expr@[j], ids@).1 =~= expr_node(expr@[j], ids_before).1) by {
                        assert forall|t: int| 0 <= t < expr@[j].children@.len() implies #[trigger] expr_node(expr@[j], ids@).1[t]
                            == expr_node(expr@[j], ids_before).1[t] by {
                            assert(expr@[j].children@[t].0 < j);
                        }
                    }
                }
                assert forall|j: int| 0 <= j < i + 1 implies self.represents(
                    canon(self.leaders(), expr_node(expr@[j], ids@)),
                    #[trigger] ids@[j],
                ) by {
                    if j < i {
                        assert(ids@[j] == ids_before[j]);
                    }
                }
                assert forall|j: int| 0 <= j < i + 1 implies (#[trigger] ids@[j].0 as int) < self.leaders().len()
                    && self.leaders()[ids@[j].0 as int] == ids@[j].0 by {
                    if j < i {
                        assert(ids@[j] == ids_before[j]);
                    }
                }
            }
            i = i + 1;
        }
        let r = ids[ids.len() - 1];
        proof {
            assert(ids@.last() == r);
            assert(ids@[ids@.len() - 1] == r);
        }
        r
    }

    /// Handles node `i` of a pattern for one partial match, adding to `out`
    /// the partial matches that extend it over node `i`.
    fn match_at(
        &self,
        nodes: &[ENodeOrVar],
        i: usize,
        sub: Subst,
        cls: Vec<Option<Id>>,
        ci: Id,
        eclass: Id,
        out: &mut Vec<(Subst, Vec<Option<Id>>)>,
    )
        requires
            self.wf(),
            i < nodes@.len(),
            state_ok(self.leaders(), self.memo_spec(), nodes_view(nodes@), state_view((sub, cls)), i + 1, eclass.0 as int),
            i < cls@.len(),
            cls@[i as int] == Some(ci),
            forall|k: int|
                0 <= k < node_kids(nodes_view(nodes@)[i as int]).len() ==> (#[trigger] node_kids(
                    nodes_view(nodes@)[i as int],
                )[k]).0 < i,
        ensures
            old(out)@.is_prefix_of(final(out)@),
            forall|q: int|
                old(out)@.len() <= q < final(out)@.len() ==> state_ok(
                    self.leaders(),
                    self.memo_spec(),
                    nodes_view(nodes@),
                    state_view(#[trigger] final(out)@[q]),
                    i as int,
                    eclass.0 as int,
                ),
            forall|ss: Seq<(Seq<char>, Id)>, cc: Seq<int>|
                #[trigger] full_match(self.leaders(), self.memo_spec(), nodes_view(nodes@), ss, cc, eclass.0 as int)
                    && agrees(self.leaders(), state_view((sub, cls)), ss, cc) ==> exists|q: int|
                    old(out)@.len() <= q < final(out)@.len() && #[trigger] agrees(
                        self.leaders(),
                        state_view(final(out)@[q]),
                        ss,
                        cc,
                    ),
    {
        let ghost l = self.leaders();
        let ghost m = self.memo_spec();
        let ghost nv = nodes_view(nodes@);
        let ghost sv = state_view((sub, cls));
        proof {
            self.lemma_leaders_closed();
            assert(nv[i as int] == nodes@[i as int]@);
            assert(sv.1[i as int] == ci.0 as int);
        }
        match &nodes[i] {
            ENodeOrVar::Var(v) => {
                match sub.get(v) {
                    Some(x) => {
                        let x = *x;
                        let ghost out0 = out@;
                        if (x.0 as usize) < self.unionfind.len() && self.unionfind.find(x).0 == self.unionfind.find(ci).0 {
                            proof {
                                assert(node_ok(l, m, nv, sv.0, sv.1, i as int));
                            }
                            out.push((sub, cls));
                            proof {
                                assert forall|ss: Seq<(Seq<char>, Id)>, cc: Seq<int>|
                                    #[trigger] full_match(l, m, nv, ss, cc, eclass.0 as int) && agrees(l, sv, ss, cc) implies exists|q: int|
                                    out0.len() <= q < out@.len() && #[trigger] agrees(l, state_view(out@[q]), ss, cc) by {
                                    assert(state_view(out@[out0.len() as int]) == sv);
                                }
                            }
                        } else {
                            proof {
                                assert forall|ss: Seq<(Seq<char>, Id)>, cc: Seq<int>|
                                    #[trigger] full_match(l, m, nv, ss, cc, eclass.0 as int) && agrees(l, sv, ss, cc) implies false by {
                                    assert(node_ok(l, m, nv, ss, cc, i as int));
                                    assert(binding_of(sv.0, v@) == Some(x));
                                    assert(binding_of(sv.0, v@).unwrap().0 < l.len());
                                    assert(l[ci.0 as int] == l[cc[i as int]]);
                                }
                            }
                        }
                    },
                    None => {
                        let mut t = sub.duplicate();
                        t.insert(v.clone(), ci);
                        proof {
                            assert forall|w: Seq<char>| #[trigger] binding_of(sv.0, w) is Some implies binding_of(t@, w)
                                == binding_of(sv.0, w) by {
                                lemma_binding_rebind(sv.0, v@, ci, w);
                            }
                            lemma_binding_rebind(sv.0, v@, ci, v@);
                            assert forall|w: Seq<char>| #[trigger] binding_of(t@, w) is Some implies exists|p: int|
                                i <= p < nv.len() && #[trigger] nv[p] == (PatNode::Var { name: w }) by {
                                lemma_binding_rebind(sv.0, v@, ci, w);
                                if w == v@ {
                                    assert(nv[i as int] == (PatNode::Var { name: w }));
                                } else {
                                    assert(binding_of(sv.0, w) is Some);
                                }
                            }
                            assert forall|p: int| i <= p < nv.len() implies #[trigger] node_ok(l, m, nv, t@, sv.1, p) by {
                                if p > i {
                                    lemma_node_ok_grow(l, m, nv, sv.0, t@, sv.1, sv.1, p);
                                }
                            }
                            assert(-1 <= sv.1[i as int] < l.len());
                            assert forall|w: Seq<char>| #[trigger] binding_of(t@, w) is Some implies binding_of(t@, w).unwrap().0
                                < l.len() by {
                                lemma_binding_rebind(sv.0, v@, ci, w);
                            }
                        }
                        let ghost out0 = out@;
                        out.push((t, cls));
                        proof {
                            assert forall|ss: Seq<(Seq<char>, Id)>, cc: Seq<int>|
                                #[trigger] full_match(l, m, nv, ss, cc, eclass.0 as int) && agrees(l, sv, ss, cc) implies exists|q: int|
                                out0.len() <= q < out@.len() && #[trigger] agrees(l, state_view(out@[q]), ss, cc) by {
                                let q = out0.len() as int;
                                assert(state_view(out@[q]) == (t@, sv.1));
                                assert(node_ok(l, m, nv, ss, cc, i as int));
                                assert(l[ci.0 as int] == l[cc[i as int]]);
                                assert forall|w: Seq<char>| #[trigger] binding_of(t@, w) is Some implies binding_of(ss, w) is Some
                                    && l[binding_of(t@, w).unwrap().0 as int] == l[binding_of(ss, w).unwrap().0 as int] by {
                                    lemma_binding_rebind(sv.0, v@, ci, w);
                                }
                                assert(agrees(l, state_view(out@[q]), ss, cc));
                            }
                        }
                    },
                }
            },
            ENodeOrVar::ENode(node, _) => {
                let ghost out0 = out@;
                proof {
                    assert(node_kids(nv[i as int]) == node.children@);
                    assert forall|k: int| 0 <= k < node.children@.len() implies (#[trigger] node.children@[k]).0 < i by {
                        assert(node_kids(nv[i as int])[k] == node.children@[k]);
                    }
                }
                proof {
                    assert(nv[i as int]->children == node.children@);
                    assert(nv[i as int]->op == node.op@);
                    assert forall|ss: Seq<(Seq<char>, Id)>, cc: Seq<int>|
                        #[trigger] full_match(l, m, nv, ss, cc, eclass.0 as int) && agrees(l, sv, ss, cc) implies (exists|q: int|
                        out0.len() <= q < out@.len() && #[trigger] agrees(l, state_view(out@[q]), ss, cc)) || (exists|j: int|
                        0 <= j < m.len() && #[trigger] kids_fit(l, m[j], node.op@, node.children@, cc, cc[i as int])) by {
                        assert(node_ok(l, m, nv, ss, cc, i as int));
                    }
                }
                let mut w: usize = 0;
                while w < self.memo.len()
                    invariant
                        self.wf(),
                        l == self.leaders(),
                        m == self.memo_spec(),
                        leaders_closed(l),
                        forall|j: int|
                            0 <= j < m.len() ==> (#[trigger] m[j]).1.0 < l.len() && kids_below(m[j].0, l.len() as int),
                        nv == nodes_view(nodes@),
                        i < nv.len(),
                        nv[i as int] == nodes@[i as int]@,
                        nodes@[i as int] matches ENodeOrVar::ENode(nn, _) && nn == *node,
                        sv == (sub@, cls_view(cls@)),
                        sv.1[i as int] == ci.0 as int,
                        state_ok(l, m, nv, sv, i + 1, eclass.0 as int),
                        forall|k: int|
                            0 <= k < node.children@.len() ==> (#[trigger] node.children@[k]).0 < i,
                        0 <= w <= m.len(),
                        out0.is_prefix_of(out@),
                        forall|q: int|
                            out0.len() <= q < out@.len() ==> state_ok(
                                l,
                                m,
                                nv,
                                state_view(#[trigger] out@[q]),
                                i as int,
                                eclass.0 as int,
                            ),
                        forall|ss: Seq<(Seq<char>, Id)>, cc: Seq<int>|
                            #[trigger] full_match(l, m, nv, ss, cc, eclass.0 as int) && agrees(l, sv, ss, cc) ==> (exists|q: int|
                                out0.len() <= q < out@.len() && #[trigger] agrees(l, state_view(out@[q]), ss, cc)) || (exists|j: int|
                                w <= j < m.len() && #[trigger] kids_fit(l, m[j], node.op@, node.children@, cc, cc[i as int])),
                    decreases m.len() - w,
                {
                    let ghost out_w = out@;
                    proof {
                        assert(m[w as int] == (node_view(self.memo@[w as int].0), self.memo@[w as int].1));
                    }
                    let entry = &self.memo[w];
                    if entry.0.op == node.op && entry.0.children.len() == node.children.len()
                        && self.unionfind.find(entry.1).0 == self.unionfind.find(ci).0 {
                        let mut cls2 = copy_cls(&cls);
                        let mut ok = true;
                        let mut k: usize = 0;
                        while k < node.children.len()
                            invariant
                                self.wf(),
                                l == self.leaders(),
                                leaders_closed(l),
                                sv.1.len() == nv.len(),
                                sv.1[i as int] == ci.0 as int,
                                forall|x: int| 0 <= x < sv.1.len() ==> -1 <= #[trigger] sv.1[x] < l.len(),
                                cls_view(cls2@).len() == sv.1.len(),
                                forall|x: int| 0 <= x < sv.1.len() ==> -1 <= #[trigger] cls_view(cls2@)[x] < l.len(),
                                forall|x: int| 0 <= x < sv.1.len() && sv.1[x] >= 0 ==> #[trigger] cls_view(cls2@)[x] == sv.1[x],
                                node.children@.len() == m[w as int].0.1.len(),
                                kids_below(m[w as int].0, l.len() as int),
                                m[w as int].0 == node_view(entry.0),
                                i < nv.len(),
                                forall|t: int| 0 <= t < node.children@.len() ==> (#[trigger] node.children@[t]).0 < i,
                                0 <= k <= node.children@.len(),
                                m == self.memo_spec(),
                                nv == nodes_view(nodes@),
                                sv == (sub@, cls_view(cls@)),
                                forall|ss: Seq<(Seq<char>, Id)>, cc: Seq<int>|
                                    #[trigger] full_match(l, m, nv, ss, cc, eclass.0 as int) && agrees(l, sv, ss, cc) && kids_fit(
                                        l,
                                        m[w as int],
                                        node.op@,
                                        node.children@,
                                        cc,
                                        cc[i as int],
                                    ) ==> ok && forall|x: int|
                                        0 <= x < cls_view(cls2@).len() && cls_view(cls2@)[x] >= 0 ==> l[(
                                        #[trigger] cls_view(cls2@)[x])] == l[cc[x]],
                                ok ==> forall|t: int|
                                    0 <= t < k ==> 0 <= (#[trigger] node.children@[t]).0 < cls_view(cls2@).len() && 0
                                        <= cls_view(cls2@)[node.children@[t].0 as int] < l.len() && (m[w as int].0.1[t].0 as int)
                                        < l.len() && l[m[w as int].0.1[t].0 as int] == l[cls_view(cls2@)[node.children@[t].0 as int]],
                            ensures
                                forall|ss: Seq<(Seq<char>, Id)>, cc: Seq<int>|
                                    #[trigger] full_match(l, m, nv, ss, cc, eclass.0 as int) && agrees(l, sv, ss, cc) && kids_fit(
                                        l,
                                        m[w as int],
                                        node.op@,
                                        node.children@,
                                        cc,
                                        cc[i as int],
                                    ) ==> ok && forall|x: int|
                                        0 <= x < cls_view(cls2@).len() && cls_view(cls2@)[x] >= 0 ==> l[(
                                        #[trigger] cls_view(cls2@)[x])] == l[cc[x]],
                                cls_view(cls2@).len() == sv.1.len(),
                                forall|x: int| 0 <= x < sv.1.len() ==> -1 <= #[trigger] cls_view(cls2@)[x] < l.len(),
                                forall|x: int| 0 <= x < sv.1.len() && sv.1[x] >= 0 ==> #[trigger] cls_view(cls2@)[x] == sv.1[x],
                                ok ==> forall|t: int|
                                    0 <= t < node.children@.len() ==> 0 <= (#[trigger] node.children@[t]).0 < cls_view(cls2@).len() && 0
                                        <= cls_view(cls2@)[node.children@[t].0 as int] < l.len() && (m[w as int].0.1[t].0 as int)
                                        < l.len() && l[m[w as int].0.1[t].0 as int] == l[cls_view(cls2@)[node.children@[t].0 as int]],
                            decreases node.children@.len() - k,
                        {
                            let c = node.children[k];
                            let kid = entry.0.children[k];
                            proof {
                                assert(node_view(entry.0).1[k as int] == kid);
                                assert(kid.0 < l.len());
                                assert(c.0 < i);
                            }
                            let ghost before = cls2@;
                            match cls2[c.0 as usize] {
                                None => {
                                    cls2.set(c.0 as usize, Some(kid));
                                    proof {
                                        let cb = cls_view(before);
                                        assert(cls_view(cls2@) =~= cb.update(c.0 as int, kid.0 as int));
                                        assert(cb[c.0 as int] == -1);
                                        assert forall|x: int| 0 <= x < sv.1.len() && sv.1[x] >= 0 implies #[trigger] cls_view(
                                            cls2@,
                                        )[x] == sv.1[x] by {
                                            assert(cb[x] == sv.1[x]);
                                        }
                                        assert forall|x: int| 0 <= x < sv.1.len() implies -1 <= #[trigger] cls_view(cls2@)[x]
                                            < l.len() by {
                                            assert(-1 <= cb[x] < l.len());
                                        }
                                        assert forall|ss: Seq<(Seq<char>, Id)>, cc: Seq<int>|
                                            #[trigger] full_match(l, m, nv, ss, cc, eclass.0 as int) && agrees(l, sv, ss, cc)
                                                && kids_fit(l, m[w as int], node.op@, node.children@, cc, cc[i as int]) implies ok
                                            && forall|x: int|
                                            0 <= x < cls_view(cls2@).len() && cls_view(cls2@)[x] >= 0 ==> l[(
                                            #[trigger] cls_view(cls2@)[x])] == l[cc[x]] by {
                                            assert(node.children@[k as int] == c);
                                            assert(m[w as int].0.1[k as int] == kid);
                                            assert forall|x: int|
                                                0 <= x < cls_view(cls2@).len() && cls_view(cls2@)[x] >= 0 implies l[(
                                                #[trigger] cls_view(cls2@)[x])] == l[cc[x]] by {
                                                if x != c.0 {
                                                    assert(cls_view(cls2@)[x] == cb[x]);
                                                }
                                            }
                                        }
                                        if ok {
                                            assert forall|t: int|
                                                0 <= t < k + 1 implies 0 <= (#[trigger] node.children@[t]).0 < cls_view(cls2@).len()
                                                && 0 <= cls_view(cls2@)[node.children@[t].0 as int] < l.len() && (m[w as int].0.1[t].0 as int)
                                                < l.len() && l[m[w as int].0.1[t].0 as int] == l[cls_view(
                                                cls2@,
                                            )[node.children@[t].0 as int]] by {
                                                if t < k {
                                                    assert(cb[node.children@[t].0 as int] >= 0);
                                                    assert(node.children@[t].0 != c.0);
                                                } else {
                                                    assert(m[w as int].0.1[t] == kid);
                                                }
                                            }
                                        }
                                    }
                                },
                                Some(y) => {
                                    proof {
                                        assert(cls_view(before)[c.0 as int] == y.0 as int);
                                        assert(0 <= y.0 < l.len());
                                    }
                                    if self.unionfind.find(y).0 != self.unionfind.find(kid).0 {
                                        proof {
                                            assert forall|ss: Seq<(Seq<char>, Id)>, cc: Seq<int>|
                                                #[trigger] full_match(l, m, nv, ss, cc, eclass.0 as int) && agrees(l, sv, ss, cc)
                                                    && kids_fit(l, m[w as int], node.op@, node.children@, cc, cc[i as int]) implies false by {
                                                assert(node.children@[k as int] == c);
                                                assert(m[w as int].0.1[k as int] == kid);
                                                assert(cls_view(cls2@)[c.0 as int] == y.0 as int);
                                            }
                                        }
                                        ok = false;
                                        break;
                                    }
                                    proof {
                                        if ok {
                                            assert forall|t: int|
                                                0 <= t < k + 1 implies 0 <= (#[trigger] node.children@[t]).0 < cls_view(cls2@).len()
                                                && 0 <= cls_view(cls2@)[node.children@[t].0 as int] < l.len() && (m[w as int].0.1[t].0 as int)
                                                < l.len() && l[m[w as int].0.1[t].0 as int] == l[cls_view(
                                                cls2@,
                                            )[node.children@[t].0 as int]] by {
                                                if t == k {
                                                    assert(m[w as int].0.1[t] == kid);
                                                }
                                            }
                                        }
                                    }
                                },
                            }
                            k = k + 1;
                        }
                        if ok {
                            let t = sub.duplicate();
                            let ghost cv2 = cls_view(cls2@);
                            proof {
                                assert(cv2[i as int] == sv.1[i as int]);
                                assert(nv[i as int]->children == node.children@);
                                assert(nv[i as int]->op == node.op@);
                                assert(m[w as int].0.0 == node.op@);
                                assert(l[m[w as int].1.0 as int] == l[ci.0 as int]);
                                assert(kids_fit(l, m[w as int], nv[i as int]->op, nv[i as int]->children, cv2, cv2[i as int]));
                                assert(node_ok(l, m, nv, t@, cv2, i as int));
                                assert forall|p: int| i <= p < nv.len() implies #[trigger] node_ok(l, m, nv, t@, cv2, p) by {
                                    if p > i {
                                        lemma_node_ok_grow(l, m, nv, sv.0, t@, sv.1, cv2, p);
                                    }
                                }
                            }
                            out.push((t, cls2));
                            proof {
                                assert forall|ss: Seq<(Seq<char>, Id)>, cc: Seq<int>|
                                    #[trigger] full_match(l, m, nv, ss, cc, eclass.0 as int) && agrees(l, sv, ss, cc) && kids_fit(
                                        l,
                                        m[w as int],
                                        node.op@,
                                        node.children@,
                                        cc,
                                        cc[i as int],
                                    ) implies exists|q: int|
                                    out_w.len() <= q < out@.len() && #[trigger] agrees(l, state_view(out@[q]), ss, cc) by {
                                    let q = out_w.len() as int;
                                    assert(state_view(out@[q]) == (t@, cv2));
                                    assert(agrees(l, state_view(out@[q]), ss, cc));
                                }
                            }
                        } else {
                            proof {
                                assert forall|ss: Seq<(Seq<char>, Id)>, cc: Seq<int>|
                                    #[trigger] full_match(l, m, nv, ss, cc, eclass.0 as int) && agrees(l, sv, ss, cc) && kids_fit(
                                        l,
                                        m[w as int],
                                        node.op@,
                                        node.children@,
                                        cc,
                                        cc[i as int],
                                    ) implies exists|q: int|
                                    out_w.len() <= q < out@.len() && #[trigger] agrees(l, state_view(out@[q]), ss, cc) by {
                                }
                            }
                        }
                    } else {
                        proof {
                            assert forall|ss: Seq<(Seq<char>, Id)>, cc: Seq<int>|
                                #[trigger] full_match(l, m, nv, ss, cc, eclass.0 as int) && agrees(l, sv, ss, cc) && kids_fit(
                                    l,
                                    m[w as int],
                                    node.op@,
                                    node.children@,
                                    cc,
                                    cc[i as int],
                                ) implies exists|q: int|
                                out_w.len() <= q < out@.len() && #[trigger] agrees(l, state_view(out@[q]), ss, cc) by {
                                assert(l[ci.0 as int] == l[cc[i as int]]);
                                assert(m[w as int].0.0 == node.op@);
                            }
                        }
                    }
                    proof {
                        assert forall|ss: Seq<(Seq<char>, Id)>, cc: Seq<int>|
                            #[trigger] full_match(l, m, nv, ss, cc, eclass.0 as int) && agrees(l, sv, ss, cc) implies (exists|q: int|
                            out0.len() <= q < out@.len() && #[trigger] agrees(l, state_view(out@[q]), ss, cc)) || (exists|j: int|
                            w + 1 <= j < m.len() && #[trigger] kids_fit(l, m[j], node.op@, node.children@, cc, cc[i as int])) by {
                            if exists|q: int| out0.len() <= q < out_w.len() && #[trigger] agrees(l, state_view(out_w[q]), ss, cc) {
                                let q = choose|q: int| out0.len() <= q < out_w.len() && #[trigger] agrees(l, state_view(out_w[q]), ss, cc);
                                assert(out@[q] == out_w[q]);
                            } else if kids_fit(l, m[w as int], node.op@, node.children@, cc, cc[i as int]) {
                            } else {
                                let j = choose|j: int|
                                    w <= j < m.len() && #[trigger] kids_fit(l, m[j], node.op@, node.children@, cc, cc[i as int]);
                                assert(j != w);
                            }
                        }
                    }
                    w = w + 1;
                }
            },
        }
    }

    /// Handles node `i` of a pattern for one partial match, adding to `out`
    /// the partial matches that extend it over node `i`. A node that no
    /// parent gave a class is tried in every class.
    fn match_step(
        &self,
        nodes: &[ENodeOrVar],
        i: usize,
        st: (Subst, Vec<Option<Id>>),
        eclass: Id,
        out: &mut Vec<(Subst, Vec<Option<Id>>)>,
    )
        requires
            self.wf(),
            i < nodes@.len(),
            state_ok(self.leaders(), self.memo_spec(), nodes_view(nodes@), state_view(st), i + 1, eclass.0 as int),
            forall|k: int|
                0 <= k < node_kids(nodes_view(nodes@)[i as int]).len() ==> (#[trigger] node_kids(
                    nodes_view(nodes@)[i as int],
                )[k]).0 < i,
        ensures
            old(out)@.is_prefix_of(final(out)@),
            forall|q: int|
                old(out)@.len() <= q < final(out)@.len() ==> state_ok(
                    self.leaders(),
                    self.memo_spec(),
                    nodes_view(nodes@),
                    state_view(#[trigger] final(out)@[q]),
                    i as int,
                    eclass.0 as int,
                ),
            forall|ss: Seq<(Seq<char>, Id)>, cc: Seq<int>|
                #[trigger] full_match(self.leaders(), self.memo_spec(), nodes_view(nodes@), ss, cc, eclass.0 as int)
                    && agrees(self.leaders(), state_view(st), ss, cc) ==> exists|q: int|
                    old(out)@.len() <= q < final(out)@.len() && #[trigger] agrees(
                        self.leaders(),
                        state_view(final(out)@[q]),
                        ss,
                        cc,
                    ),
    {
        let ghost l = self.leaders();
        let ghost m = self.memo_spec();
        let ghost nv = nodes_view(nodes@);
        let ghost sv = state_view(st);
        proof {
            self.lemma_leaders_closed();
        }
        let (sub, cls) = st;
        proof {
            assert(sv == state_view((sub, cls)));
        }
        match cls[i] {
            Some(ci) => {
                self.match_at(nodes, i, sub, cls, ci, eclass, out);
            },
            None => {
                let n = self.unionfind.len();
                let ghost out0 = out@;
                let mut id: usize = 0;
                while id < n
                    invariant
                        self.wf(),
                        l == self.leaders(),
                        m == self.memo_spec(),
                        nv == nodes_view(nodes@),
                        n == l.len(),
                        leaders_closed(l),
                        i < nodes@.len(),
                        sv == state_view((sub, cls)),
                        cls@[i as int] is None,
                        state_ok(l, m, nv, sv, i + 1, eclass.0 as int),
                        forall|k: int|
                            0 <= k < node_kids(nv[i as int]).len() ==> (#[trigger] node_kids(nv[i as int])[k]).0 < i,
                        0 <= id <= n,
                        out0.is_prefix_of(out@),
                        forall|q: int|
                            out0.len() <= q < out@.len() ==> state_ok(
                                l,
                                m,
                                nv,
                                state_view(#[trigger] out@[q]),
                                i as int,
                                eclass.0 as int,
                            ),
                        forall|ss: Seq<(Seq<char>, Id)>, cc: Seq<int>|
                            #[trigger] full_match(l, m, nv, ss, cc, eclass.0 as int) && agrees(l, sv, ss, cc) ==> (exists|q: int|
                                out0.len() <= q < out@.len() && #[trigger] agrees(l, state_view(out@[q]), ss, cc)) || id
                                <= l[cc[i as int]],
                    decreases n - id,
                {
                    let cid = Id(id as u32);
                    let ghost out_id = out@;
                    if self.unionfind.find(cid).0 as usize == id {
                        let mut cls2 = copy_cls(&cls);
                        cls2.set(i, Some(cid));
                        let sub2 = sub.duplicate();
                        proof {
                            let cv2 = cls_view(cls2@);
                            assert(cv2 =~= sv.1.update(i as int, id as int));
                            assert(sv.1[i as int] == -1);
                            assert forall|p: int| i + 1 <= p < nv.len() implies #[trigger] node_ok(l, m, nv, sub2@, cv2, p) by {
                                lemma_node_ok_grow(l, m, nv, sv.0, sub2@, sv.1, cv2, p);
                            }
                            assert forall|x: int| 0 <= x < cv2.len() implies -1 <= #[trigger] cv2[x] < l.len() by {
                                if x != i {
                                    assert(cv2[x] == sv.1[x]);
                                }
                            }
                            assert(state_ok(l, m, nv, state_view((sub2, cls2)), i + 1, eclass.0 as int));
                        }
                        let ghost before = out@;
                        self.match_at(nodes, i, sub2, cls2, cid, eclass, out);
                        proof {
                            assert forall|q: int| out0.len() <= q < out@.len() implies state_ok(
                                l,
                                m,
                                nv,
                                state_view(#[trigger] out@[q]),
                                i as int,
                                eclass.0 as int,
                            ) by {
                                if q < before.len() {
                                    assert(out@[q] == before[q]);
                                }
                            }
                            let cv2 = cls_view(cls2@);
                            assert(cv2 =~= sv.1.update(i as int, id as int));
                            assert forall|ss: Seq<(Seq<char>, Id)>, cc: Seq<int>|
                                #[trigger] full_match(l, m, nv, ss, cc, eclass.0 as int) && agrees(l, sv, ss, cc) implies (exists|q: int|
                                out0.len() <= q < out@.len() && #[trigger] agrees(l, state_view(out@[q]), ss, cc)) || id + 1
                                <= l[cc[i as int]] by {
                                assert(node_ok(l, m, nv, ss, cc, i as int));
                                if exists|q: int| out0.len() <= q < out_id.len() && #[trigger] agrees(l, state_view(out_id[q]), ss, cc) {
                                    let q = choose|q: int| out0.len() <= q < out_id.len() && #[trigger] agrees(l, state_view(out_id[q]), ss, cc);
                                    assert(out@[q] == out_id[q]);
                                } else if l[cc[i as int]] == id {
                                    assert(l[id as int] == id);
                                    assert(agrees(l, state_view((sub2, cls2)), ss, cc));
                                    let q = choose|q: int| before.len() <= q < out@.len() && #[trigger] agrees(l, state_view(out@[q]), ss, cc);
                                    assert(out0.len() <= q);
                                }
                            }
                        }
                    } else {
                        proof {
                            assert forall|ss: Seq<(Seq<char>, Id)>, cc: Seq<int>|
                                #[trigger] full_match(l, m, nv, ss, cc, eclass.0 as int) && agrees(l, sv, ss, cc) implies (exists|q: int|
                                out0.len() <= q < out@.len() && #[trigger] agrees(l, state_view(out@[q]), ss, cc)) || id + 1
                                <= l[cc[i as int]] by {
                                assert(node_ok(l, m, nv, ss, cc, i as int));
                                if l[cc[i as int]] == id {
                                    assert(l[l[cc[i as int]] as int] == l[cc[i as int]]);
                                }
                            }
                        }
                    }
                    id = id + 1;
                }
                proof {
                    assert forall|ss: Seq<(Seq<char>, Id)>, cc: Seq<int>|
                        #[trigger] full_match(l, m, nv, ss, cc, eclass.0 as int) && agrees(l, sv, ss, cc) implies exists|q: int|
                        out0.len() <= q < out@.len() && #[trigger] agrees(l, state_view(out@[q]), ss, cc) by {
                        assert(node_ok(l, m, nv, ss, cc, i as int));
                        assert((l[cc[i as int]] as int) < l.len());
                    }
                }
            },
        }
    }

    /// The substitutions under which `pattern` matches the class `eclass`:
    /// each is found by giving classes to the pattern's nodes from the root
    /// down, an e-node pattern being matched by each held e-node of its
    /// class with its operator and arity.
    pub fn search_eclass(&self, pattern: &PatternAst, eclass: Id) -> (r: Vec<Subst>)
        requires
            self.wf(),
            (eclass.0 as int) < self.leaders().len(),
            pattern@.len() > 0,
            crate::pattern::kids_before(pattern@),
        ensures
            forall|q: int|
                0 <= q < r@.len() ==> pattern_matched(
                    self.leaders(),
                    self.memo_spec(),
                    pattern@,
                    (#[trigger] r@[q])@,
                    eclass.0 as int,
                ),
            forall|q: int, v: Seq<char>|
                0 <= q < r@.len() ==> (binding_of((#[trigger] r@[q])@, v) is Some
                    <==> #[trigger] crate::pattern::pattern_vars(pattern@).contains(v)),
            forall|ss: Seq<(Seq<char>, Id)>|
                #[trigger] pattern_matched(self.leaders(), self.memo_spec(), pattern@, ss, eclass.0 as int) ==> exists|q: int|
                    0 <= q < r@.len() && #[trigger] subst_agrees(self.leaders(), r@[q]@, ss),
    {
        let nodes = pattern.as_ref();
        let ghost l = self.leaders();
        let ghost m = self.memo_spec();
        let ghost nv = nodes_view(nodes@);
        let n = nodes.len();
        let mut cls0: Vec<Option<Id>> = Vec::new();
        let mut z: usize = 0;
        while z < n
            invariant
                0 <= z <= n,
                cls0@.len() == z,
                forall|x: int| 0 <= x < z ==> #[trigger] cls0@[x] is None,
            decreases n - z,
        {
            cls0.push(None);
            z = z + 1;
        }
        cls0.set(n - 1, Some(eclass));
        let empty = Subst::with_capacity(0);
        proof {
            self.lemma_leaders_closed();
            assert(cls_view(cls0@)[n - 1] == eclass.0 as int);
            assert forall|x: int| 0 <= x < n implies -1 <= #[trigger] cls_view(cls0@)[x] < l.len() by {
                if x != n - 1 {
                    assert(cls0@[x] is None);
                }
            }
            assert forall|v: Seq<char>| #[trigger] binding_of(empty@, v) is Some implies exists|p: int|
                n <= p < nv.len() && #[trigger] nv[p] == (PatNode::Var { name: v }) by {
                assert(binding_of(empty@, v) is None);
            }
            assert(state_ok(l, m, nv, state_view((empty, cls0)), n as int, eclass.0 as int));
        }
        let ghost sv0 = state_view((empty, cls0));
        let mut states: Vec<(Subst, Vec<Option<Id>>)> = Vec::new();
        states.push((empty, cls0));
        proof {
            assert forall|ss: Seq<(Seq<char>, Id)>, cc: Seq<int>|
                #[trigger] full_match(l, m, nv, ss, cc, eclass.0 as int) implies exists|q: int|
                0 <= q < states@.len() && #[trigger] agrees(l, state_view(states@[q]), ss, cc) by {
                assert(state_view(states@[0]) == sv0);
                assert forall|x: int| 0 <= x < sv0.1.len() && sv0.1[x] >= 0 implies l[(#[trigger] sv0.1[x])] == l[cc[x]] by {
                    if x != n - 1 {
                        assert(cls0@[x] is None);
                    }
                }
                assert forall|v: Seq<char>| #[trigger] binding_of(sv0.0, v) is Some implies binding_of(ss, v) is Some
                    && l[binding_of(sv0.0, v).unwrap().0 as int] == l[binding_of(ss, v).unwrap().0 as int] by {
                    assert(binding_of(empty@, v) is None);
                }
                assert(agrees(l, state_view(states@[0]), ss, cc));
            }
        }
        let mut i: usize = n;
        while i > 0
            invariant
                self.wf(),
                l == self.leaders(),
                m == self.memo_spec(),
                nv == nodes_view(nodes@),
                nv == pattern@,
                crate::pattern::kids_before(nv),
                0 <= i <= n,
                n == nv.len(),
                forall|q: int|
                    0 <= q < states@.len() ==> state_ok(l, m, nv, state_view(#[trigger] states@[q]), i as int, eclass.0 as int),
                forall|ss: Seq<(Seq<char>, Id)>, cc: Seq<int>|
                    #[trigger] full_match(l, m, nv, ss, cc, eclass.0 as int) ==> exists|q: int|
                        0 <= q < states@.len() && #[trigger] agrees(l, state_view(states@[q]), ss, cc),
            decreases i,
        {
            i = i - 1;
            let mut next: Vec<(Subst, Vec<Option<Id>>)> = Vec::new();
            while states.len() > 0
                invariant
                    self.wf(),
                    l == self.leaders(),
                    m == self.memo_spec(),
                    nv == nodes_view(nodes@),
                    0 <= i < n,
                    n == nv.len(),
                    forall|k: int|
                        0 <= k < node_kids(nv[i as int]).len() ==> (#[trigger] node_kids(nv[i as int])[k]).0 < i,
                    forall|q: int|
                        0 <= q < states@.len() ==> state_ok(
                            l,
                            m,
                            nv,
                            state_view(#[trigger] states@[q]),
                            i + 1,
                            eclass.0 as int,
                        ),
                    forall|q: int|
                        0 <= q < next@.len() ==> state_ok(l, m, nv, state_view(#[trigger] next@[q]), i as int, eclass.0 as int),
                    forall|ss: Seq<(Seq<char>, Id)>, cc: Seq<int>|
                        #[trigger] full_match(l, m, nv, ss, cc, eclass.0 as int) ==> (exists|q: int|
                            0 <= q < states@.len() && #[trigger] agrees(l, state_view(states@[q]), ss, cc)) || (exists|q: int|
                            0 <= q < next@.len() && #[trigger] agrees(l, state_view(next@[q]), ss, cc)),
                decreases states@.len(),
            {
                let ghost before = states@;
                let st = states.pop().unwrap();
                proof {
                    assert(st == before[before.len() - 1]);
                    assert forall|q: int| 0 <= q < states@.len() implies state_ok(
                        l,
                        m,
                        nv,
                        state_view(#[trigger] states@[q]),
                        i + 1,
                        eclass.0 as int,
                    ) by {
                        assert(states@[q] == before[q]);
                    }
                }
                let ghost next0 = next@;
                let ghost stv = state_view(st);
                self.match_step(nodes, i, st, eclass, &mut next);
                proof {
                    assert forall|q: int| 0 <= q < next@.len() implies state_ok(
                        l,
                        m,
                        nv,
                        state_view(#[trigger] next@[q]),
                        i as int,
                        eclass.0 as int,
                    ) by {
                        if q < next0.len() {
                            assert(next@[q] == next0[q]);
                        }
                    }
                    assert forall|ss: Seq<(Seq<char>, Id)>, cc: Seq<int>|
                        #[trigger] full_match(l, m, nv, ss, cc, eclass.0 as int) implies (exists|q: int|
                        0 <= q < states@.len() && #[trigger] agrees(l, state_view(states@[q]), ss, cc)) || (exists|q: int|
                        0 <= q < next@.len() && #[trigger] agrees(l, state_view(next@[q]), ss, cc)) by {
                        if exists|q: int| 0 <= q < before.len() && #[trigger] agrees(l, state_view(before[q]), ss, cc) {
                            let q = choose|q: int| 0 <= q < before.len() && #[trigger] agrees(l, state_view(before[q]), ss, cc);
                            if q < states@.len() {
                                assert(states@[q] == before[q]);
                            } else {
                                assert(stv == state_view(before[q]));
                                let q2 = choose|q2: int| next0.len() <= q2 < next@.len() && #[trigger] agrees(l, state_view(next@[q2]), ss, cc);
                                assert(0 <= q2 < next@.len());
                            }
                        } else {
                            let q = choose|q: int| 0 <= q < next0.len() && #[trigger] agrees(l, state_view(next0[q]), ss, cc);
                            assert(next@[q] == next0[q]);
                        }
                    }
                }
            }
            states = next;
        }
        let mut out: Vec<Subst> = Vec::new();
        while states.len() > 0
            invariant
                l == self.leaders(),
                m == self.memo_spec(),
                nv == pattern@,
                n == nv.len(),
                n > 0,
                forall|q: int|
                    0 <= q < states@.len() ==> state_ok(l, m, nv, state_view(#[trigger] states@[q]), 0, eclass.0 as int),
                forall|q: int| 0 <= q < out@.len() ==> pattern_matched(l, m, nv, (#[trigger] out@[q])@, eclass.0 as int),
                forall|q: int, v: Seq<char>|
                    0 <= q < out@.len() ==> (binding_of((#[trigger] out@[q])@, v) is Some
                        <==> #[trigger] crate::pattern::pattern_vars(nv).contains(v)),
                forall|ss: Seq<(Seq<char>, Id)>, cc: Seq<int>|
                    #[trigger] full_match(l, m, nv, ss, cc, eclass.0 as int) ==> (exists|q: int|
                        0 <= q < states@.len() && #[trigger] agrees(l, state_view(states@[q]), ss, cc)) || (exists|q: int|
                        0 <= q < out@.len() && #[trigger] subst_agrees(l, out@[q]@, ss)),
            decreases states@.len(),
        {
            let ghost before = states@;
            let st = states.pop().unwrap();
            proof {
                assert(st == before[before.len() - 1]);
                assert forall|q: int| 0 <= q < states@.len() implies state_ok(
                    l,
                    m,
                    nv,
                    state_view(#[trigger] states@[q]),
                    0,
                    eclass.0 as int,
                ) by {
                    assert(states@[q] == before[q]);
                }
                let sv = state_view(st);
                assert(state_ok(l, m, nv, sv, 0, eclass.0 as int));
                assert(sv.1[n - 1] == eclass.0 as int);
                assert(full_match(l, m, nv, sv.0, sv.1, eclass.0 as int));
                assert(pattern_matched(l, m, nv, sv.0, eclass.0 as int));
                assert forall|v: Seq<char>| binding_of(sv.0, v) is Some <==> #[trigger] crate::pattern::pattern_vars(
                    nv,
                ).contains(v) by {
                    if binding_of(sv.0, v) is Some {
                        let p = choose|p: int| 0 <= p < nv.len() && #[trigger] nv[p] == (PatNode::Var { name: v });
                        assert(nv[p] == (PatNode::Var { name: v }));
                    }
                    if crate::pattern::pattern_vars(nv).contains(v) {
                        let x = choose|x: int| 0 <= x < nv.len() && #[trigger] nv[x] == (PatNode::Var { name: v });
                        assert(node_ok(l, m, nv, sv.0, sv.1, x));
                    }
                }
            }
            let ghost stv = state_view(st);
            let (sub, _cls) = st;
            let ghost out0 = out@;
            out.push(sub);
            proof {
                assert forall|q: int, v: Seq<char>|
                    0 <= q < out@.len() implies (binding_of((#[trigger] out@[q])@, v) is Some
                        <==> #[trigger] crate::pattern::pattern_vars(nv).contains(v)) by {
                    if q < out0.len() {
                        assert(out@[q] == out0[q]);
                    }
                }
                assert forall|ss: Seq<(Seq<char>, Id)>, cc: Seq<int>|
                    #[trigger] full_match(l, m, nv, ss, cc, eclass.0 as int) implies (exists|q: int|
                    0 <= q < states@.len() && #[trigger] agrees(l, state_view(states@[q]), ss, cc)) || (exists|q: int|
                    0 <= q < out@.len() && #[trigger] subst_agrees(l, out@[q]@, ss)) by {
                    if exists|q: int| 0 <= q < before.len() && #[trigger] agrees(l, state_view(before[q]), ss, cc) {
                        let q = choose|q: int| 0 <= q < before.len() && #[trigger] agrees(l, state_view(before[q]), ss, cc);
                        if q < states@.len() {
                            assert(states@[q] == before[q]);
                        } else {
                            assert(stv == state_view(before[q]));
                            assert(out@[out0.len() as int]@ == stv.0);
                            assert(subst_agrees(l, out@[out0.len() as int]@, ss));
                        }
                    } else {
                        let q = choose|q: int| 0 <= q < out0.len() && #[trigger] subst_agrees(l, out0[q]@, ss);
                        assert(out@[q] == out0[q]);
                    }
                }
            }
        }
        proof {
            assert forall|ss: Seq<(Seq<char>, Id)>|
                #[trigger] pattern_matched(l, m, nv, ss, eclass.0 as int) implies exists|q: int|
                0 <= q < out@.len() && #[trigger] subst_agrees(l, out@[q]@, ss) by {
                let cc = choose|cc: Seq<int>| #[trigger] full_match(l, m, nv, ss, cc, eclass.0 as int);
                assert(full_match(l, m, nv, ss, cc, eclass.0 as int));
            }
        }
        out
    }

    /// The matches of `pattern` in every class: each class (by its leader)
    /// with the substitutions under which the pattern matches it, for the
    /// classes where it matches at all, in increasing order of the leaders.
    pub fn search(&self, pattern: &PatternAst) -> (r: Vec<(Id, Vec<Subst>)>)
        requires
            self.wf(),
            pattern@.len() > 0,
            crate::pattern::kids_before(pattern@),
        ensures
            forall|q: int|
                0 <= q < r@.len() ==> ((#[trigger] r@[q]).0.0 as int) < self.leaders().len() && self.leaders()[r@[q].0.0 as int]
                    == r@[q].0.0 && r@[q].1@.len() > 0 && forall|z: int|
                    0 <= z < r@[q].1@.len() ==> pattern_matched(
                        self.leaders(),
                        self.memo_spec(),
                        pattern@,
                        (#[trigger] r@[q].1@[z])@,
                        r@[q].0.0 as int,
                    ),
            forall|q1: int, q2: int| 0 <= q1 < q2 < r@.len() ==> r@[q1].0.0 < r@[q2].0.0,
            forall|c: int, ss: Seq<(Seq<char>, Id)>|
                0 <= c < self.leaders().len() && self.leaders()[c] == c && #[trigger] pattern_matched(
                    self.leaders(),
                    self.memo_spec(),
                    pattern@,
                    ss,
                    c,
                ) ==> exists|q: int|
                    0 <= q < r@.len() && (#[trigger] r@[q]).0.0 == c && exists|z: int|
                        0 <= z < r@[q].1@.len() && #[trigger] subst_agrees(self.leaders(), r@[q].1@[z]@, ss),
    {
        let n = self.unionfind.len();
        let mut out: Vec<(Id, Vec<Subst>)> = Vec::new();
        let mut i: usize = 0;
        while i < n
            invariant
                self.wf(),
                n == self.leaders().len(),
                0 <= i <= n,
                pattern@.len() > 0,
                crate::pattern::kids_before(pattern@),
                forall|q: int|
                    0 <= q < out@.len() ==> ((#[trigger] out@[q]).0.0 as int) < i && self.leaders()[out@[q].0.0 as int]
                        == out@[q].0.0 && out@[q].1@.len() > 0 && forall|z: int|
                        0 <= z < out@[q].1@.len() ==> pattern_matched(
                            self.leaders(),
                            self.memo_spec(),
                            pattern@,
                            (#[trigger] out@[q].1@[z])@,
                            out@[q].0.0 as int,
                        ),
                forall|q1: int, q2: int| 0 <= q1 < q2 < out@.len() ==> out@[q1].0.0 < out@[q2].0.0,
                forall|c: int, ss: Seq<(Seq<char>, Id)>|
                    0 <= c < i && self.leaders()[c] == c && #[trigger] pattern_matched(
                        self.leaders(),
                        self.memo_spec(),
                        pattern@,
                        ss,
                        c,
                    ) ==> exists|q: int|
                        0 <= q < out@.len() && (#[trigger] out@[q]).0.0 == c && exists|z: int|
                            0 <= z < out@[q].1@.len() && #[trigger] subst_agrees(self.leaders(), out@[q].1@[z]@, ss),
            decreases n - i,
        {
            let id = Id(i as u32);
            let l = self.unionfind.find(id);
            let ghost out_i = out@;
            if l.0 as usize == i {
                let found = self.search_eclass(pattern, id);
                if found.len() > 0 {
                    let ghost before = out@;
                    out.push((id, found));
                    proof {
                        assert forall|c: int, ss: Seq<(Seq<char>, Id)>|
                            0 <= c < i + 1 && self.leaders()[c] == c && #[trigger] pattern_matched(
                                self.leaders(),
                                self.memo_spec(),
                                pattern@,
                                ss,
                                c,
                            ) implies exists|q: int|
                            0 <= q < out@.len() && (#[trigger] out@[q]).0.0 == c && exists|z: int|
                                0 <= z < out@[q].1@.len() && #[trigger] subst_agrees(self.leaders(), out@[q].1@[z]@, ss) by {
                            if c < i {
                                let q = choose|q: int|
                                    0 <= q < before.len() && (#[trigger] before[q]).0.0 == c && exists|z: int|
                                        0 <= z < before[q].1@.len() && #[trigger] subst_agrees(self.leaders(), before[q].1@[z]@, ss);
                                assert(out@[q] == before[q]);
                            } else {
                                let q = before.len() as int;
                                assert(out@[q].1 == found);
                                let z = choose|z: int| 0 <= z < found@.len() && #[trigger] subst_agrees(self.leaders(), found@[z]@, ss);
                                assert(subst_agrees(self.leaders(), out@[q].1@[z]@, ss));
                            }
                        }
                    }
                    proof {
                        assert forall|q: int| 0 <= q < out@.len() implies ((#[trigger] out@[q]).0.0 as int) < i + 1
                            && self.leaders()[out@[q].0.0 as int] == out@[q].0.0 && out@[q].1@.len() > 0 && forall|z: int|
                            0 <= z < out@[q].1@.len() ==> pattern_matched(
                                self.leaders(),
                                self.memo_spec(),
                                pattern@,
                                (#[trigger] out@[q].1@[z])@,
                                out@[q].0.0 as int,
                            ) by {
                            if q < before.len() {
                                assert(out@[q] == before[q]);
                            }
                        }
                    }
                } else {
                    proof {
                        assert forall|ss: Seq<(Seq<char>, Id)>|
                            !#[trigger] pattern_matched(self.leaders(), self.memo_spec(), pattern@, ss, i as int) by {
                            if pattern_matched(self.leaders(), self.memo_spec(), pattern@, ss, i as int) {
                                let z = choose|z: int| 0 <= z < found@.len() && #[trigger] subst_agrees(self.leaders(), found@[z]@, ss);
                            }
                        }
                    }
                }
            }
            i = i + 1;
        }
        out
    }

    /// The memo's entries are consistent with the e-graph's ids.
    proof fn lemma_memo_ids(&self)
        requires
            self.wf(),
        ensures
            forall|j: int|
                0 <= j < self.memo_spec().len() ==> ((#[trigger] self.memo_spec()[j]).1.0 as int) < self.leaders().len()
                    && kids_below(self.memo_spec()[j].0, self.leaders().len() as int),
            self.memo_spec().len() == self.memo@.len(),
            forall|j: int|
                0 <= j < self.memo@.len() ==> #[trigger] self.memo_spec()[j] == (
                    node_view(self.memo@[j].0),
                    self.memo@[j].1,
                ),
    {
        assert forall|j: int| 0 <= j < self.memo_spec().len() implies ((#[trigger] self.memo_spec()[j]).1.0 as int)
            < self.leaders().len() && kids_below(self.memo_spec()[j].0, self.leaders().len() as int) by {
            assert(self.memo_spec()[j] == (node_view(self.memo@[j].0), self.memo@[j].1));
        }
    }

    /// Runs the instructions from `k` on, starting from the registers
    /// `regs`, adding to `out` the registers each run ends with, until
    /// `out` holds `limit` of them.
    fn explore(&self, ins: &[Instruction], k: usize, regs: Vec<Id>, out: &mut Vec<Vec<Id>>, limit: usize)
        requires
            self.wf(),
            k <= ins@.len(),
            branch_free(ins@),
            forall|x: int| 0 <= x < regs@.len() ==> ((#[trigger] regs@[x]).0 as int) < self.leaders().len(),
        ensures
            old(out)@.is_prefix_of(final(out)@),
            forall|q: int|
                old(out)@.len() <= q < final(out)@.len() ==> runs_from(
                    self.leaders(),
                    self.memo_spec(),
                    ins@,
                    k as int,
                    regs@,
                    (#[trigger] final(out)@[q])@,
                ),
            final(out)@.len() < limit ==> forall|fin: Seq<Id>|
                #[trigger] runs_from(self.leaders(), self.memo_spec(), ins@, k as int, regs@, fin) ==> found_in(
                    final(out)@,
                    old(out)@.len() as int,
                    fin,
                ),
        decreases ins@.len() - k, 1int,
    {
        let ghost l = self.leaders();
        let ghost m = self.memo_spec();
        let ghost iv = ins@;
        let ghost out0 = out@;
        let ghost rv = regs@;
        if out.len() >= limit {
            return;
        }
        if k == ins.len() {
            out.push(regs);
            proof {
                assert forall|fin: Seq<Id>| #[trigger] runs_from(l, m, iv, k as int, rv, fin) implies found_in(
                    out@,
                    out0.len() as int,
                    fin,
                ) by {
                    lemma_runs_end(l, m, iv, rv, fin);
                    assert(out@[out0.len() as int]@ == fin);
                }
                assert forall|q: int| out0.len() <= q < out@.len() implies runs_from(
                    l,
                    m,
                    iv,
                    k as int,
                    rv,
                    (#[trigger] out@[q])@,
                ) by {
                    lemma_runs_end(l, m, iv, rv, out@[q]@);
                }
            }
            return;
        }
        proof {
            self.lemma_leaders_closed();
            assert(!(iv[k as int] is Not) && !(iv[k as int] is Or));
        }
        match &ins[k] {
            Instruction::Bind { node, eclass, out: o } => {
                self.explore_bind(ins, k, &regs, node, *eclass, *o, out, limit);
            },
            Instruction::Compare { i, j } => {
                if (i.0 as usize) < regs.len() && (j.0 as usize) < regs.len() && self.unionfind.find(regs[i.0 as usize]).0
                    == self.unionfind.find(regs[j.0 as usize]).0 {
                    self.explore_one(ins, k, Ghost(rv), regs, out, limit);
                } else {
                    proof {
                        self.lemma_no_step(iv, k as int, rv, out0, out@);
                    }
                }
            },
            Instruction::Scan { out: o, top_pat } => {
                match top_pat {
                    ScanRoot::ENode(node) => {
                        self.explore_scan_op(ins, k, &regs, node, *o, out, limit);
                    },
                    ScanRoot::Var(Some(r)) => {
                        if (r.0 as usize) < regs.len() {
                            let c = regs[r.0 as usize];
                            let mut nxt = cut_copy(&regs, o.0);
                            nxt.push(c);
                            proof {
                                assert forall|n2: Seq<Id>| step_to(l, m, iv[k as int], rv, n2) <==> n2 == nxt@ by {
                                    if n2 == nxt@ {
                                        assert(scan_hits(l, m, *top_pat, rv, c));
                                    }
                                }
                            }
                            self.explore_one(ins, k, Ghost(rv), nxt, out, limit);
                        } else {
                            proof {
                                self.lemma_no_step(iv, k as int, rv, out0, out@);
                            }
                        }
                    },
                    ScanRoot::Var(None) => {
                        self.explore_scan_all(ins, k, &regs, *o, out, limit);
                    },
                }
            },
            Instruction::ColorJump { orig, out: _ } => {
                if (orig.0 as usize) < regs.len() {
                    let c = regs[orig.0 as usize];
                    let mut nxt = regs;
                    nxt.push(c);
                    self.explore_one(ins, k, Ghost(rv), nxt, out, limit);
                } else {
                    proof {
                        self.lemma_no_step(iv, k as int, rv, out0, out@);
                    }
                }
            },
            Instruction::Nop => {
                self.explore_one(ins, k, Ghost(rv), regs, out, limit);
            },
            Instruction::Not { .. } => {},
            Instruction::Or { .. } => {},
        }
    }

    /// With no step possible at `k`, no run from `k` exists.
    proof fn lemma_no_step(
        &self,
        iv: Seq<Instruction>,
        k: int,
        rv: Seq<Id>,
        out0: Seq<Vec<Id>>,
        out1: Seq<Vec<Id>>,
    )
        requires
            0 <= k < iv.len(),
            forall|n2: Seq<Id>| !step_to(self.leaders(), self.memo_spec(), iv[k], rv, n2),
        ensures
            forall|fin: Seq<Id>|
                #[trigger] runs_from(self.leaders(), self.memo_spec(), iv, k, rv, fin) ==> found_in(out1, out0.len() as int, fin),
    {
        assert forall|fin: Seq<Id>| #[trigger] runs_from(self.leaders(), self.memo_spec(), iv, k, rv, fin) implies found_in(
            out1,
            out0.len() as int,
            fin,
        ) by {
            let n2 = lemma_runs_first(self.leaders(), self.memo_spec(), iv, k, rv, fin);
        }
    }

    /// Runs the instructions from `k` when the step at `k` has the one
    /// outcome `nxt`.
    fn explore_one(
        &self,
        ins: &[Instruction],
        k: usize,
        Ghost(rv): Ghost<Seq<Id>>,
        nxt: Vec<Id>,
        out: &mut Vec<Vec<Id>>,
        limit: usize,
    )
        requires
            self.wf(),
            k < ins@.len(),
            branch_free(ins@),
            forall|x: int| 0 <= x < nxt@.len() ==> ((#[trigger] nxt@[x]).0 as int) < self.leaders().len(),
            forall|n2: Seq<Id>| step_to(self.leaders(), self.memo_spec(), ins@[k as int], rv, n2) <==> n2 == nxt@,
        ensures
            old(out)@.is_prefix_of(final(out)@),
            forall|q: int|
                old(out)@.len() <= q < final(out)@.len() ==> runs_from(
                    self.leaders(),
                    self.memo_spec(),
                    ins@,
                    k as int,
                    rv,
                    (#[trigger] final(out)@[q])@,
                ),
            final(out)@.len() < limit ==> forall|fin: Seq<Id>|
                #[trigger] runs_from(self.leaders(), self.memo_spec(), ins@, k as int, rv, fin) ==> found_in(
                    final(out)@,
                    old(out)@.len() as int,
                    fin,
                ),
        decreases ins@.len() - k, 0int,
    {
        let ghost l = self.leaders();
        let ghost m = self.memo_spec();
        let ghost iv = ins@;
        let ghost nv = nxt@;
        let n_ins = ins.len();
        assert(k < n_ins);
        self.explore(ins, k + 1, nxt, out, limit);
        proof {
            assert(step_to(l, m, iv[k as int], rv, nv));
            assert forall|q: int| old(out)@.len() <= q < out@.len() implies runs_from(
                l,
                m,
                iv,
                k as int,
                rv,
                (#[trigger] out@[q])@,
            ) by {
                lemma_runs_cons(l, m, iv, k as int, rv, nv, out@[q]@);
            }
            if out@.len() < limit {
                assert forall|fin: Seq<Id>| #[trigger] runs_from(l, m, iv, k as int, rv, fin) implies found_in(
                    out@,
                    old(out)@.len() as int,
                    fin,
                ) by {
                    let n2 = lemma_runs_first(l, m, iv, k as int, rv, fin);
                    assert(runs_from(l, m, iv, k + 1, nv, fin));
                }
            }
        }
    }

    /// Runs a bind at `k`: each held e-node of the class in register
    /// `eclass` with the pattern e-node's operator and arity writes its
    /// children from register `o` on, and the run goes on from there.
    fn explore_bind(
        &self,
        ins: &[Instruction],
        k: usize,
        regs: &Vec<Id>,
        node: &SymbolLang,
        eclass: Reg,
        o: Reg,
        out: &mut Vec<Vec<Id>>,
        limit: usize,
    )
        requires
            self.wf(),
            k < ins@.len(),
            branch_free(ins@),
            ins@[k as int] == (Instruction::Bind { node: *node, eclass, out: o }),
            forall|x: int| 0 <= x < regs@.len() ==> ((#[trigger] regs@[x]).0 as int) < self.leaders().len(),
        ensures
            old(out)@.is_prefix_of(final(out)@),
            forall|q: int|
                old(out)@.len() <= q < final(out)@.len() ==> runs_from(
                    self.leaders(),
                    self.memo_spec(),
                    ins@,
                    k as int,
                    regs@,
                    (#[trigger] final(out)@[q])@,
                ),
            final(out)@.len() < limit ==> forall|fin: Seq<Id>|
                #[trigger] runs_from(self.leaders(), self.memo_spec(), ins@, k as int, regs@, fin) ==> found_in(
                    final(out)@,
                    old(out)@.len() as int,
                    fin,
                ),
        decreases ins@.len() - k, 0int,
    {
        let ghost l = self.leaders();
        let ghost m = self.memo_spec();
        let ghost iv = ins@;
        let ghost out0 = out@;
        let ghost rv = regs@;
        if (eclass.0 as usize) >= regs.len() {
            proof {
                self.lemma_no_step(iv, k as int, rv, out0, out@);
            }
            return;
        }
        let c = regs[eclass.0 as usize];
        let cl = self.unionfind.find(c);
        proof {
            self.lemma_leaders_closed();
            self.lemma_memo_ids();
            assert forall|fin: Seq<Id>| #[trigger] runs_from(l, m, iv, k as int, rv, fin) implies bind_pending(
                l,
                m,
                iv,
                k as int,
                rv,
                *node,
                c,
                o.0 as int,
                0,
                fin,
            ) by {
                let n2 = lemma_runs_first(l, m, iv, k as int, rv, fin);
                let j = choose|j: int|
                    0 <= j < m.len() && #[trigger] binds_to(l, m[j], *node, rv[eclass.0 as int]) && n2 == cut_regs(
                        rv,
                        o.0 as int,
                    ) + m[j].0.1;
            }
        }
        let mut w: usize = 0;
        while w < self.memo.len()
            invariant
                self.wf(),
                l == self.leaders(),
                m == self.memo_spec(),
                iv == ins@,
                k < iv.len(),
                branch_free(iv),
                iv[k as int] == (Instruction::Bind { node: *node, eclass, out: o }),
                rv == regs@,
                (eclass.0 as int) < rv.len(),
                c == rv[eclass.0 as int],
                (c.0 as int) < l.len(),
                cl.0 == l[c.0 as int],
                forall|x: int| 0 <= x < rv.len() ==> ((#[trigger] rv[x]).0 as int) < l.len(),
                forall|j: int|
                    0 <= j < m.len() ==> ((#[trigger] m[j]).1.0 as int) < l.len() && kids_below(m[j].0, l.len() as int),
                m.len() == self.memo@.len(),
                forall|j: int| 0 <= j < self.memo@.len() ==> #[trigger] m[j] == (node_view(self.memo@[j].0), self.memo@[j].1),
                0 <= w <= m.len(),
                out0.is_prefix_of(out@),
                forall|q: int| out0.len() <= q < out@.len() ==> runs_from(l, m, iv, k as int, rv, (#[trigger] out@[q])@),
                out@.len() < limit ==> forall|fin: Seq<Id>|
                    #[trigger] runs_from(l, m, iv, k as int, rv, fin) ==> found_in(out@, out0.len() as int, fin) || bind_pending(
                        l,
                        m,
                        iv,
                        k as int,
                        rv,
                        *node,
                        c,
                        o.0 as int,
                        w as int,
                        fin,
                    ),
            decreases m.len() - w,
        {
            let entry = &self.memo[w];
            let ghost out_w = out@;
            proof {
                assert(m[w as int] == (node_view(self.memo@[w as int].0), self.memo@[w as int].1));
            }
            if entry.0.op == node.op && entry.0.children.len() == node.children.len() && self.unionfind.find(entry.1).0 == cl.0 {
                let mut nxt = cut_copy(regs, o.0);
                append_ids(&mut nxt, &entry.0.children);
                let ghost nv = nxt@;
                proof {
                    assert(binds_to(l, m[w as int], *node, c));
                    assert(nv == cut_regs(rv, o.0 as int) + m[w as int].0.1);
                    assert(exists|j: int| 0 <= j < m.len() && #[trigger] binds_to(l, m[j], *node, rv[eclass.0 as int]) && nv == cut_regs(rv, o.0 as int) + m[j].0.1);
                    assert(step_to(l, m, Instruction::Bind { node: *node, eclass, out: o }, rv, nv));
                    assert(step_to(l, m, iv[k as int], rv, nv));
                    assert forall|x: int| 0 <= x < nv.len() implies ((#[trigger] nv[x]).0 as int) < l.len() by {
                        if x >= cut_regs(rv, o.0 as int).len() {
                            assert(nv[x] == m[w as int].0.1[x - cut_regs(rv, o.0 as int).len()]);
                        } else {
                            assert(nv[x] == rv[x]);
                        }
                    }
                }
                let n_ins = ins.len();
        assert(k < n_ins);
        self.explore(ins, k + 1, nxt, out, limit);
                proof {
                    assert forall|q: int| out0.len() <= q < out@.len() implies runs_from(
                        l,
                        m,
                        iv,
                        k as int,
                        rv,
                        (#[trigger] out@[q])@,
                    ) by {
                        if q < out_w.len() {
                            assert(out@[q] == out_w[q]);
                        } else {
                            lemma_runs_cons(l, m, iv, k as int, rv, nv, out@[q]@);
                        }
                    }
                    if out@.len() < limit {
                        assert forall|fin: Seq<Id>| #[trigger] runs_from(l, m, iv, k as int, rv, fin) implies found_in(
                            out@,
                            out0.len() as int,
                            fin,
                        ) || bind_pending(l, m, iv, k as int, rv, *node, c, o.0 as int, w + 1, fin) by {
                            if found_in(out_w, out0.len() as int, fin) {
                                lemma_found_grow(out_w, out@, out0.len() as int, out0.len() as int, fin);
                            } else {
                                let j = choose|j: int|
                                    w <= j < m.len() && #[trigger] binds_to(l, m[j], *node, c) && runs_from(
                                        l,
                                        m,
                                        iv,
                                        k + 1,
                                        cut_regs(rv, o.0 as int) + m[j].0.1,
                                        fin,
                                    );
                                if j == w {
                                    assert(runs_from(l, m, iv, k + 1, nv, fin));
                                    lemma_found_grow(out@, out@, out_w.len() as int, out0.len() as int, fin);
                                } else {
                                    assert(bind_pending(l, m, iv, k as int, rv, *node, c, o.0 as int, w + 1, fin));
                                }
                            }
                        }
                    }
                }
            } else {
                proof {
                    assert(!binds_to(l, m[w as int], *node, c));
                    if out@.len() < limit {
                        assert forall|fin: Seq<Id>| #[trigger] runs_from(l, m, iv, k as int, rv, fin) implies found_in(
                            out@,
                            out0.len() as int,
                            fin,
                        ) || bind_pending(l, m, iv, k as int, rv, *node, c, o.0 as int, w + 1, fin) by {
                            if !found_in(out@, out0.len() as int, fin) {
                                let j = choose|j: int|
                                    w <= j < m.len() && #[trigger] binds_to(l, m[j], *node, c) && runs_from(
                                        l,
                                        m,
                                        iv,
                                        k + 1,
                                        cut_regs(rv, o.0 as int) + m[j].0.1,
                                        fin,
                                    );
                                assert(j != w);
                            }
                        }
                    }
                }
            }
            w = w + 1;
        }
        proof {
            if out@.len() < limit {
                assert forall|fin: Seq<Id>| #[trigger] runs_from(l, m, iv, k as int, rv, fin) implies found_in(
                    out@,
                    out0.len() as int,
                    fin,
                ) by {
                    if !found_in(out@, out0.len() as int, fin) {
                        assert(bind_pending(l, m, iv, k as int, rv, *node, c, o.0 as int, m.len() as int, fin));
                    }
                }
            }
        }
    }

    /// Runs a scan for an e-node root at `k`: each class holding an e-node
    /// with the root's operator is written at register `o`, and the run
    /// goes on from there.
    fn explore_scan_op(
        &self,
        ins: &[Instruction],
        k: usize,
        regs: &Vec<Id>,
        node: &SymbolLang,
        o: Reg,
        out: &mut Vec<Vec<Id>>,
        limit: usize,
    )
        requires
            self.wf(),
            k < ins@.len(),
            branch_free(ins@),
            ins@[k as int] == (Instruction::Scan { out: o, top_pat: ScanRoot::ENode(*node) }),
            forall|x: int| 0 <= x < regs@.len() ==> ((#[trigger] regs@[x]).0 as int) < self.leaders().len(),
        ensures
            old(out)@.is_prefix_of(final(out)@),
            forall|q: int|
                old(out)@.len() <= q < final(out)@.len() ==> runs_from(
                    self.leaders(),
                    self.memo_spec(),
                    ins@,
                    k as int,
                    regs@,
                    (#[trigger] final(out)@[q])@,
                ),
            final(out)@.len() < limit ==> forall|fin: Seq<Id>|
                #[trigger] runs_from(self.leaders(), self.memo_spec(), ins@, k as int, regs@, fin) ==> found_in(
                    final(out)@,
                    old(out)@.len() as int,
                    fin,
                ),
        decreases ins@.len() - k, 0int,
    {
        let ghost l = self.leaders();
        let ghost m = self.memo_spec();
        let ghost iv = ins@;
        let ghost out0 = out@;
        let ghost rv = regs@;
        let ghost op = node.op@;
        proof {
            self.lemma_leaders_closed();
            self.lemma_memo_ids();
            assert forall|fin: Seq<Id>| #[trigger] runs_from(l, m, iv, k as int, rv, fin) implies scan_op_pending(
                l,
                m,
                iv,
                k as int,
                rv,
                op,
                o.0 as int,
                0,
                fin,
            ) by {
                let n2 = lemma_runs_first(l, m, iv, k as int, rv, fin);
                let c = choose|c: Id| #[trigger] scan_hits(l, m, ScanRoot::ENode(*node), rv, c) && n2 == cut_regs(rv, o.0 as int).push(c);
                let j = choose|j: int| 0 <= j < m.len() && #[trigger] has_op(l, m[j], op) && c.0 == l[m[j].1.0 as int];
                assert(c == Id(l[m[j].1.0 as int]));
            }
        }
        let mut w: usize = 0;
        while w < self.memo.len()
            invariant
                self.wf(),
                l == self.leaders(),
                m == self.memo_spec(),
                iv == ins@,
                k < iv.len(),
                branch_free(iv),
                iv[k as int] == (Instruction::Scan { out: o, top_pat: ScanRoot::ENode(*node) }),
                op == node.op@,
                rv == regs@,
                leaders_closed(l),
                forall|x: int| 0 <= x < rv.len() ==> ((#[trigger] rv[x]).0 as int) < l.len(),
                forall|j: int|
                    0 <= j < m.len() ==> ((#[trigger] m[j]).1.0 as int) < l.len() && kids_below(m[j].0, l.len() as int),
                m.len() == self.memo@.len(),
                forall|j: int| 0 <= j < self.memo@.len() ==> #[trigger] m[j] == (node_view(self.memo@[j].0), self.memo@[j].1),
                0 <= w <= m.len(),
                out0.is_prefix_of(out@),
                forall|q: int| out0.len() <= q < out@.len() ==> runs_from(l, m, iv, k as int, rv, (#[trigger] out@[q])@),
                out@.len() < limit ==> forall|fin: Seq<Id>|
                    #[trigger] runs_from(l, m, iv, k as int, rv, fin) ==> found_in(out@, out0.len() as int, fin)
                        || scan_op_pending(l, m, iv, k as int, rv, op, o.0 as int, w as int, fin),
            decreases m.len() - w,
        {
            let entry = &self.memo[w];
            let ghost out_w = out@;
            proof {
                assert(m[w as int] == (node_view(self.memo@[w as int].0), self.memo@[w as int].1));
            }
            if entry.0.op == node.op {
                let c = self.unionfind.find(entry.1);
                let mut nxt = cut_copy(regs, o.0);
                nxt.push(c);
                let ghost nv = nxt@;
                proof {
                    assert(has_op(l, m[w as int], op));
                    assert(c == Id(l[m[w as int].1.0 as int]));
                    assert(scan_hits(l, m, ScanRoot::ENode(*node), rv, c));
                    assert(nv == cut_regs(rv, o.0 as int).push(c));
                    assert(step_to(l, m, iv[k as int], rv, nv));
                    assert forall|x: int| 0 <= x < nv.len() implies ((#[trigger] nv[x]).0 as int) < l.len() by {
                        if x < cut_regs(rv, o.0 as int).len() {
                            assert(nv[x] == rv[x]);
                        }
                    }
                }
                let n_ins = ins.len();
        assert(k < n_ins);
        self.explore(ins, k + 1, nxt, out, limit);
                proof {
                    assert forall|q: int| out0.len() <= q < out@.len() implies runs_from(
                        l,
                        m,
                        iv,
                        k as int,
                        rv,
                        (#[trigger] out@[q])@,
                    ) by {
                        if q < out_w.len() {
                            assert(out@[q] == out_w[q]);
                        } else {
                            lemma_runs_cons(l, m, iv, k as int, rv, nv, out@[q]@);
                        }
                    }
                    if out@.len() < limit {
                        assert forall|fin: Seq<Id>| #[trigger] runs_from(l, m, iv, k as int, rv, fin) implies found_in(
                            out@,
                            out0.len() as int,
                            fin,
                        ) || scan_op_pending(l, m, iv, k as int, rv, op, o.0 as int, w + 1, fin) by {
                            if found_in(out_w, out0.len() as int, fin) {
                                lemma_found_grow(out_w, out@, out0.len() as int, out0.len() as int, fin);
                            } else {
                                let j = choose|j: int|
                                    w <= j < m.len() && #[trigger] has_op(l, m[j], op) && runs_from(
                                        l,
                                        m,
                                        iv,
                                        k + 1,
                                        cut_regs(rv, o.0 as int).push(Id(l[m[j].1.0 as int])),
                                        fin,
                                    );
                                if j == w {
                                    assert(runs_from(l, m, iv, k + 1, nv, fin));
                                    lemma_found_grow(out@, out@, out_w.len() as int, out0.len() as int, fin);
                                } else {
                                    assert(scan_op_pending(l, m, iv, k as int, rv, op, o.0 as int, w + 1, fin));
                                }
                            }
                        }
                    }
                }
            } else {
                proof {
                    assert(!has_op(l, m[w as int], op));
                    if out@.len() < limit {
                        assert forall|fin: Seq<Id>| #[trigger] runs_from(l, m, iv, k as int, rv, fin) implies found_in(
                            out@,
                            out0.len() as int,
                            fin,
                        ) || scan_op_pending(l, m, iv, k as int, rv, op, o.0 as int, w + 1, fin) by {
                            if !found_in(out@, out0.len() as int, fin) {
                                let j = choose|j: int|
                                    w <= j < m.len() && #[trigger] has_op(l, m[j], op) && runs_from(
                                        l,
                                        m,
                                        iv,
                                        k + 1,
                                        cut_regs(rv, o.0 as int).push(Id(l[m[j].1.0 as int])),
                                        fin,
                                    );
                                assert(j != w);
                            }
                        }
                    }
                }
            }
            w = w + 1;
        }
        proof {
            if out@.len() < limit {
                assert forall|fin: Seq<Id>| #[trigger] runs_from(l, m, iv, k as int, rv, fin) implies found_in(
                    out@,
                    out0.len() as int,
                    fin,
                ) by {
                    if !found_in(out@, out0.len() as int, fin) {
                        assert(scan_op_pending(l, m, iv, k as int, rv, op, o.0 as int, m.len() as int, fin));
                    }
                }
            }
        }
    }

    /// Runs a scan for any class at `k`: each leader is written at register
    /// `o`, and the run goes on from there.
    fn explore_scan_all(&self, ins: &[Instruction], k: usize, regs: &Vec<Id>, o: Reg, out: &mut Vec<Vec<Id>>, limit: usize)
        requires
            self.wf(),
            k < ins@.len(),
            branch_free(ins@),
            ins@[k as int] == (Instruction::Scan { out: o, top_pat: ScanRoot::Var(None) }),
            forall|x: int| 0 <= x < regs@.len() ==> ((#[trigger] regs@[x]).0 as int) < self.leaders().len(),
        ensures
            old(out)@.is_prefix_of(final(out)@),
            forall|q: int|
                old(out)@.len() <= q < final(out)@.len() ==> runs_from(
                    self.leaders(),
                    self.memo_spec(),
                    ins@,
                    k as int,
                    regs@,
                    (#[trigger] final(out)@[q])@,
                ),
            final(out)@.len() < limit ==> forall|fin: Seq<Id>|
                #[trigger] runs_from(self.leaders(), self.memo_spec(), ins@, k as int, regs@, fin) ==> found_in(
                    final(out)@,
                    old(out)@.len() as int,
                    fin,
                ),
        decreases ins@.len() - k, 0int,
    {
        let ghost l = self.leaders();
        let ghost m = self.memo_spec();
        let ghost iv = ins@;
        let ghost out0 = out@;
        let ghost rv = regs@;
        proof {
            self.lemma_leaders_closed();
            assert forall|fin: Seq<Id>| #[trigger] runs_from(l, m, iv, k as int, rv, fin) implies scan_all_pending(
                l,
                m,
                iv,
                k as int,
                rv,
                o.0 as int,
                0,
                fin,
            ) by {
                let n2 = lemma_runs_first(l, m, iv, k as int, rv, fin);
                let c = choose|c: Id| #[trigger] scan_hits(l, m, ScanRoot::Var(None), rv, c) && n2 == cut_regs(rv, o.0 as int).push(c);
                assert(c == Id((c.0 as int) as u32));
                assert(is_leader(l, c.0 as int));
            }
        }
        let n = self.unionfind.len();
        let mut id: usize = 0;
        while id < n
            invariant
                self.wf(),
                l == self.leaders(),
                m == self.memo_spec(),
                iv == ins@,
                k < iv.len(),
                branch_free(iv),
                iv[k as int] == (Instruction::Scan { out: o, top_pat: ScanRoot::Var(None) }),
                rv == regs@,
                n == l.len(),
                leaders_closed(l),
                forall|x: int| 0 <= x < rv.len() ==> ((#[trigger] rv[x]).0 as int) < l.len(),
                0 <= id <= n,
                out0.is_prefix_of(out@),
                forall|q: int| out0.len() <= q < out@.len() ==> runs_from(l, m, iv, k as int, rv, (#[trigger] out@[q])@),
                out@.len() < limit ==> forall|fin: Seq<Id>|
                    #[trigger] runs_from(l, m, iv, k as int, rv, fin) ==> found_in(out@, out0.len() as int, fin)
                        || scan_all_pending(l, m, iv, k as int, rv, o.0 as int, id as int, fin),
            decreases n - id,
        {
            let ghost out_w = out@;
            let cid = Id(id as u32);
            if self.unionfind.find(cid).0 as usize == id {
                let mut nxt = cut_copy(regs, o.0);
                nxt.push(cid);
                let ghost nv = nxt@;
                proof {
                    assert(is_leader(l, id as int));
                    assert(scan_hits(l, m, ScanRoot::Var(None), rv, cid));
                    assert(nv == cut_regs(rv, o.0 as int).push(cid));
                    assert(step_to(l, m, iv[k as int], rv, nv));
                    assert forall|x: int| 0 <= x < nv.len() implies ((#[trigger] nv[x]).0 as int) < l.len() by {
                        if x < cut_regs(rv, o.0 as int).len() {
                            assert(nv[x] == rv[x]);
                        }
                    }
                }
                let n_ins = ins.len();
        assert(k < n_ins);
        self.explore(ins, k + 1, nxt, out, limit);
                proof {
                    assert forall|q: int| out0.len() <= q < out@.len() implies runs_from(
                        l,
                        m,
                        iv,
                        k as int,
                        rv,
                        (#[trigger] out@[q])@,
                    ) by {
                        if q < out_w.len() {
                            assert(out@[q] == out_w[q]);
                        } else {
                            lemma_runs_cons(l, m, iv, k as int, rv, nv, out@[q]@);
                        }
                    }
                    if out@.len() < limit {
                        assert forall|fin: Seq<Id>| #[trigger] runs_from(l, m, iv, k as int, rv, fin) implies found_in(
                            out@,
                            out0.len() as int,
                            fin,
                        ) || scan_all_pending(l, m, iv, k as int, rv, o.0 as int, id + 1, fin) by {
                            if found_in(out_w, out0.len() as int, fin) {
                                lemma_found_grow(out_w, out@, out0.len() as int, out0.len() as int, fin);
                            } else {
                                let c = choose|c: int|
                                    id <= c && #[trigger] is_leader(l, c) && runs_from(
                                        l,
                                        m,
                                        iv,
                                        k + 1,
                                        cut_regs(rv, o.0 as int).push(Id(c as u32)),
                                        fin,
                                    );
                                if c == id {
                                    assert(runs_from(l, m, iv, k + 1, nv, fin));
                                    lemma_found_grow(out@, out@, out_w.len() as int, out0.len() as int, fin);
                                } else {
                                    assert(scan_all_pending(l, m, iv, k as int, rv, o.0 as int, id + 1, fin));
                                }
                            }
                        }
                    }
                }
            } else {
                proof {
                    assert(!is_leader(l, id as int));
                    if out@.len() < limit {
                        assert forall|fin: Seq<Id>| #[trigger] runs_from(l, m, iv, k as int, rv, fin) implies found_in(
                            out@,
                            out0.len() as int,
                            fin,
                        ) || scan_all_pending(l, m, iv, k as int, rv, o.0 as int, id + 1, fin) by {
                            if !found_in(out@, out0.len() as int, fin) {
                                let c = choose|c: int|
                                    id <= c && #[trigger] is_leader(l, c) && runs_from(
                                        l,
                                        m,
                                        iv,
                                        k + 1,
                                        cut_regs(rv, o.0 as int).push(Id(c as u32)),
                                        fin,
                                    );
                                assert(c != id);
                            }
                        }
                    }
                }
            }
            id = id + 1;
        }
        proof {
            if out@.len() < limit {
                assert forall|fin: Seq<Id>| #[trigger] runs_from(l, m, iv, k as int, rv, fin) implies found_in(
                    out@,
                    out0.len() as int,
                    fin,
                ) by {
                    if !found_in(out@, out0.len() as int, fin) {
                        let c = choose|c: int|
                            n <= c && #[trigger] is_leader(l, c) && runs_from(
                                l,
                                m,
                                iv,
                                k + 1,
                                cut_regs(rv, o.0 as int).push(Id(c as u32)),
                                fin,
                            );
                    }
                }
            }
        }
    }

    /// Runs `program` on the class `eclass` of a rebuilt e-graph without
    /// colors, as the matching machine does: register 0 holds `eclass`, the
    /// instructions run in turn, a bind or a scan trying each of its
    /// choices, and every run that gets through all of them gives the
    /// bindings of the program's variables, read from their registers. The
    /// search stops once `limit` matches are found.
    pub fn run_program(&self, program: &Program, eclass: Id, limit: usize) -> (r: Vec<Subst>)
        requires
            self.wf(),
            (eclass.0 as int) < self.leaders().len(),
            branch_free(program.instructions_spec()),
            forall|fin: Seq<Id>|
                #[trigger] runs_from(self.leaders(), self.memo_spec(), program.instructions_spec(), 0, seq![eclass], fin)
                    ==> regs_in(program.var_regs(), fin),
        ensures
            forall|q: int|
                0 <= q < r@.len() ==> program_matches(
                    self.leaders(),
                    self.memo_spec(),
                    program.instructions_spec(),
                    program.var_regs(),
                    eclass,
                    (#[trigger] r@[q])@,
                ),
            r@.len() < limit ==> forall|s: Seq<(Seq<char>, Id)>|
                #[trigger] program_matches(
                    self.leaders(),
                    self.memo_spec(),
                    program.instructions_spec(),
                    program.var_regs(),
                    eclass,
                    s,
                ) ==> exists|q: int| 0 <= q < r@.len() && r@[q]@ == s,
    {
        let ghost l = self.leaders();
        let ghost m = self.memo_spec();
        let ins = program.instructions();
        let ghost iv = ins@;
        let mut regs0: Vec<Id> = Vec::new();
        regs0.push(eclass);
        proof {
            assert(regs0@ == seq![eclass]);
        }
        let mut fins: Vec<Vec<Id>> = Vec::new();
        self.explore(ins, 0, regs0, &mut fins, limit);
        let ps = program.subst();
        let plen = ps.len();
        let ghost vr = ps@;
        let mut out: Vec<Subst> = Vec::new();
        let mut q: usize = 0;
        while q < fins.len()
            invariant
                l == self.leaders(),
                m == self.memo_spec(),
                iv == program.instructions_spec(),
                vr == program.var_regs(),
                vr == ps@,
                distinct_vars(vr),
                0 <= q <= fins@.len(),
                out@.len() == q,
                forall|z: int| 0 <= z < fins@.len() ==> runs_from(l, m, iv, 0, seq![eclass], (#[trigger] fins@[z])@),
                forall|fin: Seq<Id>| #[trigger] runs_from(l, m, iv, 0, seq![eclass], fin) ==> regs_in(vr, fin),
                forall|z: int| 0 <= z < q ==> (#[trigger] out@[z])@ == read_regs(vr, fins@[z]@),
                plen == vr.len(),
            decreases fins@.len() - q,
        {
            let fin = &fins[q];
            proof {
                assert(runs_from(l, m, iv, 0, seq![eclass], fins@[q as int]@));
                assert(regs_in(vr, fin@));
            }
            let mut t = Subst::with_capacity(plen);
            let mut x: usize = 0;
            while x < plen
                invariant
                    plen == vr.len(),
                    vr == ps@,
                    distinct_vars(vr),
                    regs_in(vr, fin@),
                    0 <= x <= vr.len(),
                    t@ == read_regs(vr.take(x as int), fin@),
                decreases vr.len() - x,
            {
                let (v, reg) = ps.binding_at(x);
                let id = fin[reg.0 as usize];
                proof {
                    assert((vr[x as int].1.0 as int) < fin@.len());
                    assert forall|j: int| 0 <= j < t@.len() implies #[trigger] t@[j].0 != v@ by {
                        assert(t@[j].0 == vr[j].0);
                    }
                    lemma_rebind_absent(t@, v@, id);
                }
                t.insert(v.clone(), id);
                proof {
                    assert(t@ =~= read_regs(vr.take(x + 1), fin@));
                }
                x = x + 1;
            }
            proof {
                assert(vr.take(vr.len() as int) =~= vr);
            }
            out.push(t);
            q = q + 1;
        }
        proof {
            assert forall|z: int| 0 <= z < out@.len() implies program_matches(l, m, iv, vr, eclass, (#[trigger] out@[z])@) by {
                assert(runs_from(l, m, iv, 0, seq![eclass], fins@[z]@));
            }
            if out@.len() < limit {
                assert forall|s: Seq<(Seq<char>, Id)>| #[trigger] program_matches(l, m, iv, vr, eclass, s) implies exists|z: int|
                    0 <= z < out@.len() && out@[z]@ == s by {
                    let fin = choose|fin: Seq<Id>| #[trigger] runs_from(l, m, iv, 0, seq![eclass], fin) && regs_in(vr, fin) && s == read_regs(vr, fin);
                    let z = choose|z: int| 0 <= z && 0 <= z < fins@.len() && (#[trigger] fins@[z])@ == fin;
                    assert(out@[z]@ == s);
                }
            }
        }
        out
    }

    /// Unions the classes of `id1` and `id2`; the leader of `id1` leads the
    /// result. Returns that leader, and whether the two classes were
    /// different.
    pub fn union(&mut self, id1: Id, id2: Id) -> (r: (Id, bool))
        requires
            old(self).wf(),
            (id1.0 as int) < old(self).leaders().len(),
            (id2.0 as int) < old(self).leaders().len(),
        ensures
            final(self).wf(),
            final(self).memo_spec() == old(self).memo_spec(),
            r.0.0 == old(self).leaders()[id1.0 as int],
            r.1 == (old(self).leaders()[id1.0 as int] != old(self).leaders()[id2.0 as int]),
            final(self).leaders() == merged_leaders(
                old(self).leaders(),
                old(self).leaders()[id1.0 as int],
                old(self).leaders()[id2.0 as int],
            ),
    {
        let (to, from) = self.unionfind.union(id1, id2);
        let changed = to.0 != from.0;
        if changed {
            self.pending.push(to);
        }
        (to, changed)
    }

    /// Points the children of every e-node at their leaders.
    fn canonicalize_memo(&mut self)
        requires
            old(self).wf(),
        ensures
            final(self).wf(),
            final(self).canonical(),
            final(self).leaders() == old(self).leaders(),
            final(self).memo_spec().len() == old(self).memo_spec().len(),
            forall|i: int|
                0 <= i < old(self).memo_spec().len() ==> (#[trigger] final(self).memo_spec()[i]).1 == old(
                    self,
                ).memo_spec()[i].1 && final(self).memo_spec()[i].0 == canon(
                    old(self).leaders(),
                    old(self).memo_spec()[i].0,
                ),
    {
        let ghost m0 = self.memo_spec();
        let ghost l0 = self.leaders();
        proof {
            self.lemma_leaders_closed();
        }
        let mut items: Vec<(SymbolLang, Id)> = Vec::new();
        std::mem::swap(&mut items, &mut self.memo);
        proof {
            assert(memo_values(items@) == m0);
            assert(self.memo@.len() == 0);
        }
        let mut out: Vec<(SymbolLang, Id)> = Vec::new();
        let mut i: usize = 0;
        while i < items.len()
            invariant
                self.wf(),
                self.leaders() == l0,
                leaders_closed(l0),
                memo_values(items@) == m0,
                forall|j: int|
                    0 <= j < m0.len() ==> (#[trigger] m0[j]).1.0 < l0.len() && kids_below(m0[j].0, l0.len() as int),
                0 <= i <= items@.len(),
                out@.len() == i,
                forall|j: int|
                    0 <= j < i ==> (#[trigger] memo_values(out@)[j]).1 == m0[j].1 && memo_values(out@)[j].0
                        == canon(l0, m0[j].0),
            decreases items@.len() - i,
        {
            proof {
                assert(m0[i as int] == (node_view(items@[i as int].0), items@[i as int].1));
            }
            let c = self.canonize(&items[i].0);
            let ghost before = out@;
            out.push((c, items[i].1));
            proof {
                assert forall|j: int| 0 <= j < i + 1 implies (#[trigger] memo_values(out@)[j]).1 == m0[j].1
                    && memo_values(out@)[j].0 == canon(l0, m0[j].0) by {
                    if j < i {
                        assert(out@[j] == before[j]);
                        assert(memo_values(before)[j] == memo_values(out@)[j]);
                    }
                }
            }
            i = i + 1;
        }
        self.memo = out;
        proof {
            let n = l0.len();
            let m1 = self.memo_spec();
            assert forall|i: int| 0 <= i < self.memo@.len() implies (#[trigger] self.memo@[i]).1.0 < n
                && kids_below(node_view(self.memo@[i].0), n as int) by {
                assert(m1[i] == (node_view(self.memo@[i].0), self.memo@[i].1));
                assert forall|k: int| 0 <= k < node_view(self.memo@[i].0).1.len() implies (#[trigger] node_view(
                    self.memo@[i].0,
                ).1[k]).0 < n by {
                    assert(m0[i].0.1[k].0 < n);
                }
            }
            assert forall|i: int, k: int|
                0 <= i < m1.len() && 0 <= k < m1[i].0.1.len() implies l0[(#[trigger] m1[i].0.1[k]).0 as int]
                == m1[i].0.1[k].0 by {
                assert(m0[i].0.1[k].0 < n);
            }
        }
    }

    /// Unions the classes of every two e-nodes that are equal. Returns how
    /// many unions joined different classes; when none did, equal e-nodes
    /// were already in one class.
    fn merge_congruent(
        &mut self,
        Ghost(base_l): Ghost<Seq<u32>>,
        Ghost(base_m): Ghost<Seq<((Seq<char>, Seq<Id>), Id)>>,
    ) -> (r: usize)
        requires
            old(self).wf(),
            implied(old(self).leaders(), base_l, base_m),
            base_m.len() == old(self).memo_spec().len(),
            forall|i: int|
                0 <= i < base_m.len() ==> (#[trigger] old(self).memo_spec()[i]).1 == base_m[i].1 && canon(
                    old(self).leaders(),
                    old(self).memo_spec()[i].0,
                ) == canon(old(self).leaders(), base_m[i].0) && kids_below(base_m[i].0, old(self).leaders().len() as int),
        ensures
            implied(final(self).leaders(), base_l, base_m),
            final(self).wf(),
            final(self).memo_spec() == old(self).memo_spec(),
            final(self).leaders().len() == old(self).leaders().len(),
            forall|a: int, b: int|
                0 <= a < old(self).leaders().len() && 0 <= b < old(self).leaders().len() && #[trigger] old(
                    self,
                ).equiv(a, b) ==> #[trigger] final(self).equiv(a, b),
            leader_count(final(self).leaders()) + r == leader_count(old(self).leaders()),
            r == 0 ==> final(self).leaders() == old(self).leaders(),
            r == 0 ==> forall|i: int, j: int|
                0 <= i < final(self).memo_spec().len() && 0 <= j < final(self).memo_spec().len()
                    && #[trigger] final(self).memo_spec()[i].0 == #[trigger] final(self).memo_spec()[j].0
                    ==> final(self).equiv(final(self).memo_spec()[i].1.0 as int, final(self).memo_spec()[j].1.0 as int),
    {
        let ghost l0 = self.leaders();
        let ghost m0 = self.memo_spec();
        let n = self.unionfind.len();
        let m = self.memo.len();
        proof {
            self.lemma_leaders_closed();
            lemma_leaders_upto_bound(l0, n as int);
        }
        let mut done: usize = 0;
        let mut i: usize = 0;
        while i < m
            invariant
                self.wf(),
                self.memo_spec() == m0,
                m == m0.len(),
                n == l0.len(),
                self.leaders().len() == n,
                leader_count(l0) <= n,
                forall|j: int| 0 <= j < m0.len() ==> (#[trigger] m0[j]).1.0 < n,
                forall|a: int, b: int|
                    0 <= a < n && 0 <= b < n && l0[a] == l0[b] ==> #[trigger] self.leaders()[a] == #[trigger] self.leaders()[b],
                leader_count(self.leaders()) + done == leader_count(l0),
                implied(l0, base_l, base_m),
                implied(self.leaders(), base_l, base_m),
                base_m.len() == m0.len(),
                forall|i: int|
                    0 <= i < base_m.len() ==> (#[trigger] m0[i]).1 == base_m[i].1 && canon(l0, m0[i].0) == canon(
                        l0,
                        base_m[i].0,
                    ) && kids_below(base_m[i].0, n as int),
                0 <= i <= m,
                done == 0 ==> self.leaders() == l0,
                done == 0 ==> forall|i2: int, j2: int|
                    0 <= i2 < i && 0 <= j2 < m && #[trigger] m0[i2].0 == #[trigger] m0[j2].0 ==> l0[m0[i2].1.0 as int]
                        == l0[m0[j2].1.0 as int],
            decreases m - i,
        {
            let mut j: usize = 0;
            while j < m
                invariant
                    self.wf(),
                    self.memo_spec() == m0,
                    m == m0.len(),
                    n == l0.len(),
                    self.leaders().len() == n,
                    leader_count(l0) <= n,
                    forall|j: int| 0 <= j < m0.len() ==> (#[trigger] m0[j]).1.0 < n,
                    forall|a: int, b: int|
                        0 <= a < n && 0 <= b < n && l0[a] == l0[b] ==> #[trigger] self.leaders()[a]
                            == #[trigger] self.leaders()[b],
                    leader_count(self.leaders()) + done == leader_count(l0),
                    implied(l0, base_l, base_m),
                    implied(self.leaders(), base_l, base_m),
                    base_m.len() == m0.len(),
                    forall|i: int|
                        0 <= i < base_m.len() ==> (#[trigger] m0[i]).1 == base_m[i].1 && canon(l0, m0[i].0) == canon(
                            l0,
                            base_m[i].0,
                        ) && kids_below(base_m[i].0, n as int),
                    0 <= i < m,
                    0 <= j <= m,
                    done == 0 ==> self.leaders() == l0,
                    done == 0 ==> forall|i2: int, j2: int|
                        0 <= i2 < i && 0 <= j2 < m && #[trigger] m0[i2].0 == #[trigger] m0[j2].0 ==> l0[m0[i2].1.0 as int]
                            == l0[m0[j2].1.0 as int],
                    done == 0 ==> forall|j2: int|
                        0 <= j2 < j && m0[i as int].0 == #[trigger] m0[j2].0 ==> l0[m0[i as int].1.0 as int]
                            == l0[m0[j2].1.0 as int],
                decreases m - j,
            {
                proof {
                    assert(m0[i as int] == (node_view(self.memo@[i as int].0), self.memo@[i as int].1));
                    assert(m0[j as int] == (node_view(self.memo@[j as int].0), self.memo@[j as int].1));
                }
                if same_node(&self.memo[i].0, &self.memo[j].0) {
                    let ida = self.memo[i].1;
                    let idb = self.memo[j].1;
                    let a = self.unionfind.find(ida);
                    let b = self.unionfind.find(idb);
                    if a.0 != b.0 {
                        let ghost lc = self.leaders();
                        proof {
                            self.lemma_leaders_closed();
                            lemma_merge_leader_count(lc, a.0, b.0, n as int);
                            lemma_leaders_upto_bound(merged_leaders(lc, a.0, b.0), n as int);
                            assert(m0[i as int].0 == m0[j as int].0);
                            lemma_equal_nodes_implied(l0, m0, base_l, base_m, i as int, j as int);
                            lemma_union_implied(lc, ida.0 as int, idb.0 as int, base_l, base_m);
                            assert(lc[ida.0 as int] == a.0);
                            assert(lc[idb.0 as int] == b.0);
                        }
                        self.union(a, b);
                        proof {
                            assert(lc[a.0 as int] == a.0);
                            assert(lc[b.0 as int] == b.0);
                            assert(self.leaders() == merged_leaders(lc, a.0, b.0));
                            assert forall|x: int, y: int|
                                0 <= x < n && 0 <= y < n && l0[x] == l0[y] implies #[trigger] self.leaders()[x]
                                == #[trigger] self.leaders()[y] by {
                                assert(lc[x] == lc[y]);
                            }
                        }
                        done = done + 1;
                    }
                }
                j = j + 1;
            }
            i = i + 1;
        }
        done
    }

    /// Keeps one memo entry for each e-node.
    #[verifier::rlimit(60)]
    fn dedup_memo(&mut self) -> (res: (Ghost<Seq<int>>, Ghost<Seq<int>>))
        requires
            old(self).wf(),
            old(self).canonical(),
            old(self).congruent(),
        ensures
            final(self).wf(),
            final(self).clean(),
            final(self).leaders() == old(self).leaders(),
            res.0@.len() == old(self).memo_spec().len(),
            forall|i: int|
                0 <= i < old(self).memo_spec().len() ==> 0 <= #[trigger] res.0@[i] < final(self).memo_spec().len()
                    && final(self).memo_spec()[res.0@[i]].0 == old(self).memo_spec()[i].0 && final(self).equiv(
                    final(self).memo_spec()[res.0@[i]].1.0 as int,
                    old(self).memo_spec()[i].1.0 as int,
                ),
            res.1@.len() == final(self).memo_spec().len(),
            forall|j: int|
                0 <= j < final(self).memo_spec().len() ==> 0 <= #[trigger] res.1@[j] < old(self).memo_spec().len()
                    && final(self).memo_spec()[j] == old(self).memo_spec()[res.1@[j]],
    {
        let ghost m0 = self.memo_spec();
        let ghost l0 = self.leaders();
        proof {
            self.lemma_leaders_closed();
        }
        let mut items: Vec<(SymbolLang, Id)> = Vec::new();
        std::mem::swap(&mut items, &mut self.memo);
        let mut kept: Vec<(SymbolLang, Id)> = Vec::new();
        let ghost mut src: Seq<int> = Seq::empty();
        let ghost mut rep: Seq<int> = Seq::empty();
        let mut i: usize = 0;
        while i < items.len()
            invariant
                self.wf(),
                self.leaders() == l0,
                self.memo@.len() == 0,
                memo_values(items@) == m0,
                leaders_closed(l0),
                forall|j: int| 0 <= j < m0.len() ==> (#[trigger] m0[j]).1.0 < l0.len() && kids_below(m0[j].0, l0.len() as int),
                forall|a: int, k: int|
                    0 <= a < m0.len() && 0 <= k < m0[a].0.1.len() ==> l0[(#[trigger] m0[a].0.1[k]).0 as int]
                        == m0[a].0.1[k].0,
                forall|a: int, b: int|
                    0 <= a < m0.len() && 0 <= b < m0.len() && canon(l0, #[trigger] m0[a].0) == canon(l0, #[trigger] m0[b].0)
                        ==> l0[m0[a].1.0 as int] == l0[m0[b].1.0 as int],
                0 <= i <= m0.len(),
                src.len() == kept@.len(),
                forall|k: int|
                    0 <= k < src.len() ==> 0 <= #[trigger] src[k] < i && memo_values(kept@)[k] == m0[src[k]],
                forall|k1: int, k2: int|
                    0 <= k1 < k2 < memo_values(kept@).len() ==> #[trigger] memo_values(kept@)[k1].0
                        != #[trigger] memo_values(kept@)[k2].0,
                rep.len() == i,
                forall|a: int|
                    0 <= a < i ==> 0 <= #[trigger] rep[a] < kept@.len() && memo_values(kept@)[rep[a]].0 == m0[a].0
                        && l0[memo_values(kept@)[rep[a]].1.0 as int] == l0[m0[a].1.0 as int],
            decreases m0.len() - i,
        {
            let ghost kv = memo_values(kept@);
            proof {
                assert(m0[i as int] == (node_view(items@[i as int].0), items@[i as int].1));
            }
            let mut found = false;
            let ghost mut at: int = 0;
            let mut k: usize = 0;
            while k < kept.len()
                invariant
                    0 <= k <= kept@.len(),
                    kv == memo_values(kept@),
                    0 <= i < items@.len(),
                    found ==> 0 <= at < kv.len() && kv[at].0 == node_view(items@[i as int].0),
                    !found ==> forall|k2: int| 0 <= k2 < k ==> #[trigger] kv[k2].0 != node_view(items@[i as int].0),
                decreases kept@.len() - k,
            {
                proof {
                    assert(kv[k as int] == (node_view(kept@[k as int].0), kept@[k as int].1));
                }
                if same_node(&kept[k].0, &items[i].0) {
                    found = true;
                    proof {
                        at = k as int;
                    }
                }
                k = k + 1;
            }
            if !found {
                let c = clone_node(&items[i].0);
                kept.push((c, items[i].1));
                proof {
                    let kv2 = memo_values(kept@);
                    assert(kv2 =~= kv.push(m0[i as int]));
                    let old_src = src;
                    let old_rep = rep;
                    src = src.push(i as int);
                    rep = rep.push(kv.len() as int);
                    assert forall|k1: int| 0 <= k1 < src.len() implies 0 <= #[trigger] src[k1] < i + 1 && kv2[k1]
                        == m0[src[k1]] by {
                        if k1 < kv.len() {
                            assert(src[k1] == old_src[k1]);
                            assert(kv2[k1] == kv[k1]);
                        }
                    }
                    assert forall|a: int| 0 <= a < i + 1 implies 0 <= #[trigger] rep[a] < kept@.len() && kv2[rep[a]].0
                        == m0[a].0 && l0[kv2[rep[a]].1.0 as int] == l0[m0[a].1.0 as int] by {
                        if a < i {
                            assert(rep[a] == old_rep[a]);
                            assert(kv2[rep[a]] == kv[rep[a]]);
                        }
                    }
                    assert forall|k1: int, k2: int| 0 <= k1 < k2 < kv2.len() implies #[trigger] kv2[k1].0
                        != #[trigger] kv2[k2].0 by {
                        if k2 < kv.len() {
                            assert(kv2[k1] == kv[k1]);
                            assert(kv2[k2] == kv[k2]);
                        } else {
                            assert(kv2[k1] == kv[k1]);
                        }
                    }
                }
            } else {
                proof {
                    let i1 = src[at];
                    assert(kv[at] == m0[i1]);
                    assert(canon(l0, m0[i1].0) == m0[i1].0) by {
                        assert(canon(l0, m0[i1].0).1 =~= m0[i1].0.1);
                    }
                    assert(canon(l0, m0[i as int].0) == m0[i as int].0) by {
                        assert(canon(l0, m0[i as int].0).1 =~= m0[i as int].0.1);
                    }
                    assert(l0[m0[i1].1.0 as int] == l0[m0[i as int].1.0 as int]);
                    let old_rep = rep;
                    rep = rep.push(at);
                    assert forall|a: int| 0 <= a < i + 1 implies 0 <= #[trigger] rep[a] < kept@.len() && kv[rep[a]].0
                        == m0[a].0 && l0[kv[rep[a]].1.0 as int] == l0[m0[a].1.0 as int] by {
                        if a < i {
                            assert(rep[a] == old_rep[a]);
                        }
                    }
                }
            }
            i = i + 1;
        }
        self.memo = kept;
        proof {
            let n = l0.len();
            let m1 = self.memo_spec();
            assert forall|j: int| 0 <= j < self.memo@.len() implies (#[trigger] self.memo@[j]).1.0 < n
                && kids_below(node_view(self.memo@[j].0), n as int) by {
                assert(m1[j] == (node_view(self.memo@[j].0), self.memo@[j].1));
                let i0 = src[j];
                assert(m1[j] == m0[i0]);
                assert(m0[i0].1.0 < n && kids_below(m0[i0].0, n as int));
            }
            assert forall|j: int, k: int|
                0 <= j < m1.len() && 0 <= k < m1[j].0.1.len() implies l0[(#[trigger] m1[j].0.1[k]).0 as int]
                == m1[j].0.1[k].0 by {
                let i0 = src[j];
                assert(m1[j] == m0[i0]);
                assert(m0[i0].0.1[k] == m1[j].0.1[k]);
            }
            assert forall|a: int, b: int|
                0 <= a < m1.len() && 0 <= b < m1.len() && canon(l0, #[trigger] m1[a].0) == canon(l0, #[trigger] m1[b].0)
                    implies l0[m1[a].1.0 as int] == l0[m1[b].1.0 as int] by {
                let ia = src[a];
                let ib = src[b];
                assert(m1[a] == m0[ia]);
                assert(m1[b] == m0[ib]);
            }
            assert forall|a: int| 0 <= a < old(self).memo_spec().len() implies 0 <= #[trigger] rep[a]
                < self.memo_spec().len() && self.memo_spec()[rep[a]].0 == old(self).memo_spec()[a].0
                && self.equiv(self.memo_spec()[rep[a]].1.0 as int, old(self).memo_spec()[a].1.0 as int) by {
                assert(m1[rep[a]].0 == m0[a].0);
            }
            assert forall|j: int| 0 <= j < self.memo_spec().len() implies 0 <= #[trigger] src[j] < old(
                self,
            ).memo_spec().len() && self.memo_spec()[j] == old(self).memo_spec()[src[j]] by {
                assert(m1[j] == m0[src[j]]);
            }
        }
        (Ghost(rep), Ghost(src))
    }

    /// Restores the invariants after unions: every e-node's children point
    /// at leaders, e-nodes that became equal are unioned until no union is
    /// left to do, and each e-node is then kept once. Equalities only grow,
    /// and every e-node is still held, with its children canonical. Returns
    /// how many unions joined different classes.
    pub fn rebuild(&mut self) -> (r: usize)
        requires
            old(self).wf(),
        ensures
            final(self).wf(),
            final(self).clean(),
            final(self).leaders().len() == old(self).leaders().len(),
            forall|a: int, b: int|
                0 <= a < old(self).leaders().len() && 0 <= b < old(self).leaders().len() && #[trigger] old(
                    self,
                ).equiv(a, b) ==> #[trigger] final(self).equiv(a, b),
            forall|i: int|
                0 <= i < old(self).memo_spec().len() ==> final(self).represents(
                    canon(final(self).leaders(), #[trigger] old(self).memo_spec()[i].0),
                    old(self).memo_spec()[i].1,
                ),
            leader_count(final(self).leaders()) + r == leader_count(old(self).leaders()),
            implied(final(self).leaders(), old(self).leaders(), old(self).memo_spec()),
            forall|j: int|
                0 <= j < final(self).memo_spec().len() ==> #[trigger] entry_from(
                    final(self).leaders(),
                    old(self).memo_spec(),
                    final(self).memo_spec()[j],
                ),
    {
        let ghost l0 = self.leaders();
        let ghost m0 = self.memo_spec();
        let ghost n = l0.len();
        proof {
            self.lemma_leaders_closed();
            assert forall|e: spec_fn(int, int) -> bool| #[trigger] congruence_over(e, l0, m0) implies forall|a: int, b: int|
                0 <= a < l0.len() && 0 <= b < l0.len() && l0[a] == l0[b] ==> e(a, b) by {
            }
        }
        let n_ids = self.unionfind.len();
        let mut total: usize = 0;
        let mut stable = false;
        while !stable
            invariant
                self.wf(),
                n == l0.len(),
                n_ids == n,
                self.leaders().len() == n,
                leaders_closed(l0),
                forall|a: int, b: int|
                    0 <= a < n && 0 <= b < n && l0[a] == l0[b] ==> #[trigger] self.leaders()[a]
                        == #[trigger] self.leaders()[b],
                leader_count(self.leaders()) + total == leader_count(l0),
                implied(self.leaders(), l0, m0),
                self.memo_spec().len() == m0.len(),
                forall|j: int| 0 <= j < m0.len() ==> (#[trigger] m0[j]).1.0 < n && kids_below(m0[j].0, n as int),
                forall|i: int|
                    0 <= i < m0.len() ==> (#[trigger] self.memo_spec()[i]).1 == m0[i].1 && canon(
                        self.leaders(),
                        self.memo_spec()[i].0,
                    ) == canon(self.leaders(), m0[i].0),
                stable ==> self.canonical() && self.congruent(),
            decreases 2 * leader_count(self.leaders()) + (if stable {
                0int
            } else {
                1int
            }),
        {
            let ghost la = self.leaders();
            let ghost ma = self.memo_spec();
            self.canonicalize_memo();
            let ghost mb = self.memo_spec();
            proof {
                self.lemma_leaders_closed();
                assert forall|i: int| 0 <= i < m0.len() implies canon(la, #[trigger] mb[i].0) == canon(la, m0[i].0) by {
                    assert(mb[i].0 == canon(la, ma[i].0));
                    assert(canon(la, canon(la, ma[i].0)) == canon(la, ma[i].0)) by {
                        assert(canon(la, canon(la, ma[i].0)).1 =~= canon(la, ma[i].0).1) by {
                            assert forall|k: int| 0 <= k < ma[i].0.1.len() implies #[trigger] canon(la, canon(la, ma[i].0)).1[k]
                                == canon(la, ma[i].0).1[k] by {
                                assert(ma[i].0.1[k].0 < n);
                            }
                        }
                    }
                }
            }
            let ghost sa = *self;
            let k = self.merge_congruent(Ghost(l0), Ghost(m0));
            let ghost lb = self.leaders();
            proof {
                assert forall|i: int| 0 <= i < m0.len() implies (#[trigger] self.memo_spec()[i]).1 == m0[i].1 && canon(
                    lb,
                    self.memo_spec()[i].0,
                ) == canon(lb, m0[i].0) by {
                    assert(self.memo_spec()[i] == mb[i]);
                    assert(canon(lb, mb[i].0).1 =~= canon(lb, m0[i].0).1) by {
                        assert forall|t: int| 0 <= t < mb[i].0.1.len() implies #[trigger] canon(lb, mb[i].0).1[t]
                            == canon(lb, m0[i].0).1[t] by {
                            assert(canon(la, mb[i].0).1[t] == canon(la, m0[i].0).1[t]);
                            assert(ma[i].0.1[t].0 < n);
                            assert(mb[i].0.1[t] == Id(la[ma[i].0.1[t].0 as int]));
                            assert(mb[i].0.1[t].0 < n);
                            assert(m0[i].0.1[t].0 < n);
                            assert(sa.equiv(mb[i].0.1[t].0 as int, m0[i].0.1[t].0 as int));
                            assert(self.equiv(mb[i].0.1[t].0 as int, m0[i].0.1[t].0 as int));
                        }
                    }
                }
            }
            proof {
                assert forall|a: int, b: int|
                    0 <= a < n && 0 <= b < n && l0[a] == l0[b] implies #[trigger] lb[a] == #[trigger] lb[b] by {
                    assert(la[a] == la[b]);
                    assert(sa.equiv(a, b));
                    assert(self.equiv(a, b));
                }
            }
            if k == 0 {
                proof {
                    let mm = self.memo_spec();
                    assert forall|i: int, j: int|
                        0 <= i < mm.len() && 0 <= j < mm.len() && canon(lb, #[trigger] mm[i].0) == canon(
                            lb,
                            #[trigger] mm[j].0,
                        ) implies self.equiv(mm[i].1.0 as int, mm[j].1.0 as int) by {
                        assert(canon(lb, mm[i].0) == mm[i].0) by {
                            assert(canon(lb, mm[i].0).1 =~= mm[i].0.1);
                        }
                        assert(canon(lb, mm[j].0) == mm[j].0) by {
                            assert(canon(lb, mm[j].0).1 =~= mm[j].0.1);
                        }
                    }
                }
                stable = true;
            } else {
                proof {
                    lemma_leaders_upto_bound(l0, n as int);
                }
                total = total + k;
            }
        }
        self.pending.clear();
        let ghost mc = self.memo_spec();
        let ghost lc = self.leaders();
        let (rep, src) = self.dedup_memo();
        proof {
            assert forall|j: int| 0 <= j < self.memo_spec().len() implies #[trigger] entry_from(
                self.leaders(),
                m0,
                self.memo_spec()[j],
            ) by {
                let i = src@[j];
                assert(self.memo_spec()[j] == mc[i]);
                assert(mc[i].1 == m0[i].1);
                assert(canon(lc, mc[i].0) == canon(lc, m0[i].0));
                assert(canon(lc, mc[i].0) == mc[i].0) by {
                    assert(canon(lc, mc[i].0).1 =~= mc[i].0.1);
                }
                assert(self.memo_spec()[j] == (canon(self.leaders(), m0[i].0), m0[i].1));
            }
            assert forall|i: int| 0 <= i < m0.len() implies self.represents(
                canon(self.leaders(), #[trigger] m0[i].0),
                m0[i].1,
            ) by {
                assert(mc[i].1 == m0[i].1);
                assert(canon(lc, mc[i].0) == canon(lc, m0[i].0));
                assert(canon(lc, mc[i].0) == mc[i].0) by {
                    assert(canon(lc, mc[i].0).1 =~= mc[i].0.1);
                }
                let j = rep@[i];
                assert(self.memo_spec()[j].0 == canon(self.leaders(), m0[i].0));
                assert(same_enode(self.memo_spec()[j].0, canon(self.leaders(), m0[i].0)));
            }
        }
        total
    }
}

/// A copy of the classes given to a pattern's nodes.
/// The registers below `n`, or all of them when there are fewer.
fn cut_copy(regs: &Vec<Id>, n: u32) -> (r: Vec<Id>)
    ensures
        r@ == cut_regs(regs@, n as int),
{
    let upto: usize = if (n as usize) < regs.len() {
        n as usize
    } else {
        regs.len()
    };
    let mut out: Vec<Id> = Vec::new();
    let mut i: usize = 0;
    while i < upto
        invariant
            upto <= regs@.len(),
            0 <= i <= upto,
            out@ == regs@.subrange(0, i as int),
        decreases upto - i,
    {
        out.push(regs[i]);
        proof {
            assert(out@ =~= regs@.subrange(0, i + 1));
        }
        i = i + 1;
    }
    proof {
        assert(out@ =~= cut_regs(regs@, n as int));
    }
    out
}

/// Appends the ids `kids` to `v`.
fn append_ids(v: &mut Vec<Id>, kids: &Vec<Id>)
    ensures
        final(v)@ == old(v)@ + kids@,
{
    let ghost v0 = v@;
    let mut i: usize = 0;
    while i < kids.len()
        invariant
            0 <= i <= kids@.len(),
            v@ == v0 + kids@.subrange(0, i as int),
        decreases kids@.len() - i,
    {
        v.push(kids[i]);
        proof {
            assert(v@ =~= v0 + kids@.subrange(0, i + 1));
        }
        i = i + 1;
    }
    proof {
        assert(kids@.subrange(0, kids@.len() as int) =~= kids@);
    }
}

fn copy_cls(v: &Vec<Option<Id>>) -> (r: Vec<Option<Id>>)
    ensures
        r@ == v@,
{
    let mut out: Vec<Option<Id>> = Vec::new();
    let mut i: usize = 0;
    while i < v.len()
        invariant
            0 <= i <= v@.len(),
            out@ == v@.subrange(0, i as int),
        decreases v@.len() - i,
    {
        out.push(v[i]);
        proof {
            assert(out@ =~= v@.subrange(0, i + 1));
        }
        i = i + 1;
    }
    proof {
        assert(out@ =~= v@);
    }
    out
}

/// A copy of an e-node.
fn clone_node(n: &SymbolLang) -> (r: SymbolLang)
    ensures
        node_view(r) == node_view(*n),
{
    let mut children: Vec<Id> = Vec::new();
    let mut i: usize = 0;
    while i < n.children.len()
        invariant
            0 <= i <= n.children@.len(),
            children@ == n.children@.subrange(0, i as int),
        decreases n.children@.len() - i,
    {
        children.push(n.children[i]);
        proof {
            assert(children@ =~= n.children@.subrange(0, i + 1));
        }
        i = i + 1;
    }
    proof {
        assert(children@ =~= n.children@);
    }
    SymbolLang { op: n.op.clone(), children }
}

/// Whether two e-nodes have the same operator and the same children.
fn same_node(a: &SymbolLang, b: &SymbolLang) -> (r: bool)
    ensures
        r == (node_view(*a) == node_view(*b)),
{
    if !(a.op == b.op) || a.children.len() != b.children.len() {
        return false;
    }
    let mut i: usize = 0;
    while i < a.children.len()
        invariant
            a.children@.len() == b.children@.len(),
            0 <= i <= a.children@.len(),
            forall|j: int| 0 <= j < i ==> a.children@[j] == b.children@[j],
        decreases a.children@.len() - i,
    {
        if a.children[i].0 != b.children[i].0 {
            return false;
        }
        i = i + 1;
    }
    proof {
        assert(a.children@ =~= b.children@);
    }
    true
}

} // verus!
