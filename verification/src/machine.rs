//! Compiling patterns and multipatterns into programs for the matching
//! machine: instructions over numbered registers, each register holding an
//! e-class id once matching reaches it.

use vstd::prelude::*;

use crate::Id;
use crate::pattern::{
    ast_wf, kids_before, kids_size, kids_vars, node_kids, tree_enodes, tree_size, tree_vars, ENodeOrVar, PatNode,
    PatternAst, SymbolLang, nodes_view, var_texts,
};
use crate::subst::{binding_of, Subst, Var};
use crate::matching::branch_free;
use crate::multipattern::{pairs_view, groups_view};

verus! {

/// A register of the matching machine.
#[derive(Clone, Copy, Debug, PartialEq, Eq, Structural)]
pub struct Reg(pub u32);

/// What a pattern after the first is scanned for: its root e-node, or, for
/// a variable root, the register the variable is bound to (if any).
pub enum ScanRoot {
    ENode(SymbolLang),
    Var(Option<Reg>),
}

/// One step of the matching machine.
pub enum Instruction {
    /// Match the e-nodes of the class in `eclass` against `node`'s operator
    /// and arity, and put the children in the registers from `out` on.
    Bind { node: SymbolLang, eclass: Reg, out: Reg },
    /// The classes in the two registers must be the same.
    Compare { i: Reg, j: Reg },
    /// Try every class as the root of the next pattern, into `out`.
    Scan { out: Reg, top_pat: ScanRoot },
    /// Move to a colored class equal to the one in `orig`, into `out`.
    ColorJump { orig: Reg, out: Reg },
    /// The sub-program must have no match.
    Not { sub_prog: Program },
    /// Does nothing.
    Nop,
    /// One of the sub-programs must match the class of `root`, found in `out`.
    Or { root: Var, sub_progs: Vec<Program>, out: Reg },
}

/// A compiled pattern: the instructions, and the register that holds each
/// variable once a match is found.
pub struct Program {
    instructions: Vec<Instruction>,
    subst: Subst,
}

impl Program {
    /// The instructions.
    pub closed spec fn instructions_spec(&self) -> Seq<Instruction> {
        self.instructions@
    }

    /// Each variable with the number of its register.
    pub closed spec fn var_regs(&self) -> Seq<(Seq<char>, Id)> {
        self.subst@
    }

    /// The instructions.
    pub fn instructions(&self) -> (r: &[Instruction])
        ensures
            r@ == self.instructions_spec(),
    {
        self.instructions.as_slice()
    }

    /// Each variable with the number of its register, as a substitution.
    pub fn subst(&self) -> (r: &Subst)
        ensures
            r@ == self.var_regs(),
    {
        &self.subst
    }
}

/// The node ids of pending (node, register) entries.
pub open spec fn todo_ids(t: Seq<((Id, Reg), SymbolLang)>) -> Seq<int> {
    t.map_values(|e: ((Id, Reg), SymbolLang)| e.0.0.0 as int)
}

/// The registers still owed by a pending e-node: one for each node below
/// it and one for each color jump.
pub open spec fn node_weight(nodes: Seq<PatNode>, i: int) -> int {
    2 * tree_size(nodes, i) - 1
}

/// The registers still owed by the pending nodes.
pub open spec fn weight_sum(nodes: Seq<PatNode>, ids: Seq<int>) -> int
    decreases ids.len(),
{
    if ids.len() == 0 {
        0
    } else {
        weight_sum(nodes, ids.drop_last()) + node_weight(nodes, ids.last())
    }
}

/// The variables in the trees of the pending nodes.
pub open spec fn ids_vars(nodes: Seq<PatNode>, ids: Seq<int>) -> Set<Seq<char>> {
    Set::new(|v: Seq<char>| exists|j: int| 0 <= j < ids.len() && #[trigger] tree_vars(nodes, ids[j]).contains(v))
}

/// Replacing one pending node changes the sum by the difference.
proof fn lemma_weight_update(nodes: Seq<PatNode>, ids: Seq<int>, k: int, x: int)
    requires
        0 <= k < ids.len(),
    ensures
        weight_sum(nodes, ids.update(k, x)) == weight_sum(nodes, ids) - node_weight(nodes, ids[k])
            + node_weight(nodes, x),
    decreases ids.len(),
{
    let u = ids.update(k, x);
    if k == ids.len() - 1 {
        assert(u.drop_last() =~= ids.drop_last());
    } else {
        assert(u.drop_last() =~= ids.drop_last().update(k, x));
        lemma_weight_update(nodes, ids.drop_last(), k, x);
    }
}

/// Removing a pending node by moving the last one into its place lowers
/// the sum by its weight.
proof fn lemma_weight_swap_remove(nodes: Seq<PatNode>, ids: Seq<int>, k: int)
    requires
        0 <= k < ids.len(),
    ensures
        weight_sum(nodes, ids.update(k, ids.last()).drop_last()) == weight_sum(nodes, ids) - node_weight(
            nodes,
            ids[k],
        ),
{
    let u = ids.update(k, ids.last());
    lemma_weight_update(nodes, ids, k, ids.last());
    assert(u.last() == ids.last());
}

/// Pending nodes that are nodes of the pattern owe a nonnegative number
/// of registers.
proof fn lemma_weight_nonneg(nodes: Seq<PatNode>, ids: Seq<int>)
    requires
        forall|j: int| 0 <= j < ids.len() ==> 0 <= #[trigger] ids[j] < nodes.len(),
    ensures
        weight_sum(nodes, ids) >= 0,
    decreases ids.len(),
{
    if ids.len() > 0 {
        assert(ids.last() == ids[ids.len() - 1]);
        lemma_weight_nonneg(nodes, ids.drop_last());
    }
}

/// Removing a pending node by moving the last one into its place keeps the
/// other nodes' variables.
proof fn lemma_vars_swap_remove(nodes: Seq<PatNode>, ids: Seq<int>, k: int)
    requires
        0 <= k < ids.len(),
    ensures
        ids_vars(nodes, ids.update(k, ids.last()).drop_last()).union(tree_vars(nodes, ids[k])) == ids_vars(
            nodes,
            ids,
        ),
{
    let u = ids.update(k, ids.last()).drop_last();
    let n = ids.len();
    assert forall|v: Seq<char>| #[trigger] ids_vars(nodes, u).union(tree_vars(nodes, ids[k])).contains(v)
        == ids_vars(nodes, ids).contains(v) by {
        if ids_vars(nodes, u).contains(v) {
            let j = choose|j: int| 0 <= j < u.len() && #[trigger] tree_vars(nodes, u[j]).contains(v);
            if j == k {
                assert(tree_vars(nodes, ids[n - 1]).contains(v));
            } else {
                assert(tree_vars(nodes, ids[j]).contains(v));
            }
        }
        if tree_vars(nodes, ids[k]).contains(v) {
            assert(ids_vars(nodes, ids).contains(v));
        }
        if ids_vars(nodes, ids).contains(v) {
            let j = choose|j: int| 0 <= j < ids.len() && #[trigger] tree_vars(nodes, ids[j]).contains(v);
            if j == k {
            } else if j == n - 1 {
                assert(u[k] == ids[j]);
                assert(ids_vars(nodes, u).contains(v));
            } else {
                assert(u[j] == ids[j]);
                assert(ids_vars(nodes, u).contains(v));
            }
        }
    }
    assert(ids_vars(nodes, u).union(tree_vars(nodes, ids[k])) =~= ids_vars(nodes, ids));
}

/// Adding a pending node adds its variables.
proof fn lemma_vars_push(nodes: Seq<PatNode>, ids: Seq<int>, x: int)
    ensures
        ids_vars(nodes, ids.push(x)) == ids_vars(nodes, ids).union(tree_vars(nodes, x)),
{
    let p = ids.push(x);
    assert forall|v: Seq<char>| #[trigger] ids_vars(nodes, p).contains(v) == ids_vars(nodes, ids).union(
        tree_vars(nodes, x),
    ).contains(v) by {
        if ids_vars(nodes, p).contains(v) {
            let j = choose|j: int| 0 <= j < p.len() && #[trigger] tree_vars(nodes, p[j]).contains(v);
            if j < ids.len() {
                assert(tree_vars(nodes, ids[j]).contains(v));
            }
        }
        if ids_vars(nodes, ids).contains(v) {
            let j = choose|j: int| 0 <= j < ids.len() && #[trigger] tree_vars(nodes, ids[j]).contains(v);
            assert(tree_vars(nodes, p[j]).contains(v));
        }
        if tree_vars(nodes, x).contains(v) {
            assert(tree_vars(nodes, p[ids.len() as int]).contains(v));
        }
    }
    assert(ids_vars(nodes, p) =~= ids_vars(nodes, ids).union(tree_vars(nodes, x)));
}

/// Children each count at least one node.
proof fn lemma_kids_size_len(nodes: Seq<PatNode>, ks: Seq<Id>, bound: int)
    requires
        bound <= nodes.len(),
        forall|j: int| 0 <= j < ks.len() ==> 0 <= (#[trigger] ks[j]).0 < bound,
    ensures
        kids_size(nodes, ks, bound) >= ks.len(),
    decreases ks.len(),
{
    if ks.len() > 0 {
        assert(ks.last() == ks[ks.len() - 1]);
        let c = ks.last().0 as int;
        assert(tree_size(nodes, c) >= 1);
        assert forall|j: int| 0 <= j < ks.drop_last().len() implies 0 <= (#[trigger] ks.drop_last()[j]).0 < bound by {
            assert(ks.drop_last()[j] == ks[j]);
        }
        lemma_kids_size_len(nodes, ks.drop_last(), bound);
    }
}

/// A copy of an e-node.
pub(crate) fn copy_node(n: &SymbolLang) -> (r: SymbolLang)
    ensures
        r.op@ == n.op@,
        r.children@ == n.children@,
{
    let mut children: Vec<Id> = Vec::new();
    let mut i: usize = 0;
    while i < n.children.len()
        invariant
            0 <= i <= n.children@.len(),
            children@ == n.children@.subrange(0, i as int),
        decreases n.children@.len() - i,
    {
        children.push(n.children[i]);
        i = i + 1;
    }
    proof {
        assert(n.children@.subrange(0, n.children@.len() as int) =~= n.children@);
    }
    SymbolLang { op: n.op.clone(), children }
}

/// An e-node with the same operator and arity whose children are all the
/// class 0, as a `Bind` instruction holds it.
fn zeroed_node(n: &SymbolLang) -> (r: SymbolLang)
    ensures
        r.op@ == n.op@,
        r.children@ == Seq::new(n.children@.len(), |i: int| Id(0)),
{
    let mut children: Vec<Id> = Vec::new();
    let mut i: usize = 0;
    while i < n.children.len()
        invariant
            0 <= i <= n.children@.len(),
            children@ == Seq::new(i as nat, |j: int| Id(0)),
        decreases n.children@.len() - i,
    {
        children.push(Id(0));
        i = i + 1;
        proof {
            assert(children@ =~= Seq::new(i as nat, |j: int| Id(0)));
        }
    }
    SymbolLang { op: n.op.clone(), children }
}


/// The number of `Not` instructions.
pub open spec fn not_count(s: Seq<Instruction>) -> nat
    decreases s.len(),
{
    if s.len() == 0 {
        0
    } else {
        not_count(s.drop_last()) + if s.last() is Not {
            1nat
        } else {
            0nat
        }
    }
}

proof fn lemma_not_count_push(s: Seq<Instruction>, x: Instruction)
    ensures
        not_count(s.push(x)) == not_count(s) + if x is Not {
            1nat
        } else {
            0nat
        },
{
    assert(s.push(x).drop_last() =~= s);
}

/// The number of `Or` instructions.
pub open spec fn or_count(s: Seq<Instruction>) -> nat
    decreases s.len(),
{
    if s.len() == 0 {
        0
    } else {
        or_count(s.drop_last()) + if s.last() is Or {
            1nat
        } else {
            0nat
        }
    }
}

proof fn lemma_or_count_push(s: Seq<Instruction>, x: Instruction)
    ensures
        or_count(s.push(x)) == or_count(s) + if x is Or {
            1nat
        } else {
            0nat
        },
{
    assert(s.push(x).drop_last() =~= s);
}

/// The number of `Bind` instructions.
pub open spec fn bind_count(s: Seq<Instruction>) -> nat
    decreases s.len(),
{
    if s.len() == 0 {
        0
    } else {
        bind_count(s.drop_last()) + if s.last() is Bind {
            1nat
        } else {
            0nat
        }
    }
}

proof fn lemma_bind_count_push(s: Seq<Instruction>, x: Instruction)
    ensures
        bind_count(s.push(x)) == bind_count(s) + if x is Bind {
            1nat
        } else {
            0nat
        },
{
    assert(s.push(x).drop_last() =~= s);
}

/// The number of `Compare` instructions.
pub open spec fn compare_count(s: Seq<Instruction>) -> nat
    decreases s.len(),
{
    if s.len() == 0 {
        0
    } else {
        compare_count(s.drop_last()) + if s.last() is Compare {
            1nat
        } else {
            0nat
        }
    }
}

proof fn lemma_compare_count_push(s: Seq<Instruction>, x: Instruction)
    ensures
        compare_count(s.push(x)) == compare_count(s) + if x is Compare {
            1nat
        } else {
            0nat
        },
{
    assert(s.push(x).drop_last() =~= s);
}

/// The variable occurrences in the tree of node `i`: its nodes that are not
/// e-nodes.
pub open spec fn tree_var_occurrences(nodes: Seq<PatNode>, i: int) -> int {
    tree_size(nodes, i) - tree_enodes(nodes, i)
}

/// The variable occurrences in the trees of the pending nodes.
pub open spec fn occ_sum(nodes: Seq<PatNode>, ids: Seq<int>) -> int
    decreases ids.len(),
{
    if ids.len() == 0 {
        0
    } else {
        occ_sum(nodes, ids.drop_last()) + tree_var_occurrences(nodes, ids.last())
    }
}

proof fn lemma_occ_sum_update(nodes: Seq<PatNode>, ids: Seq<int>, k: int, x: int)
    requires
        0 <= k < ids.len(),
    ensures
        occ_sum(nodes, ids.update(k, x)) == occ_sum(nodes, ids) - tree_var_occurrences(nodes, ids[k])
            + tree_var_occurrences(nodes, x),
    decreases ids.len(),
{
    let u = ids.update(k, x);
    if k == ids.len() - 1 {
        assert(u.drop_last() =~= ids.drop_last());
    } else {
        assert(u.drop_last() =~= ids.drop_last().update(k, x));
        lemma_occ_sum_update(nodes, ids.drop_last(), k, x);
    }
}

proof fn lemma_occ_sum_swap_remove(nodes: Seq<PatNode>, ids: Seq<int>, k: int)
    requires
        0 <= k < ids.len(),
    ensures
        occ_sum(nodes, ids.update(k, ids.last()).drop_last()) == occ_sum(nodes, ids) - tree_var_occurrences(
            nodes,
            ids[k],
        ),
{
    let u = ids.update(k, ids.last());
    lemma_occ_sum_update(nodes, ids, k, ids.last());
    assert(u.last() == ids.last());
}

/// The e-nodes in the trees of the pending nodes.
pub open spec fn enode_sum(nodes: Seq<PatNode>, ids: Seq<int>) -> int
    decreases ids.len(),
{
    if ids.len() == 0 {
        0
    } else {
        enode_sum(nodes, ids.drop_last()) + tree_enodes(nodes, ids.last())
    }
}

proof fn lemma_enode_sum_update(nodes: Seq<PatNode>, ids: Seq<int>, k: int, x: int)
    requires
        0 <= k < ids.len(),
    ensures
        enode_sum(nodes, ids.update(k, x)) == enode_sum(nodes, ids) - tree_enodes(nodes, ids[k]) + tree_enodes(
            nodes,
            x,
        ),
    decreases ids.len(),
{
    let u = ids.update(k, x);
    if k == ids.len() - 1 {
        assert(u.drop_last() =~= ids.drop_last());
    } else {
        assert(u.drop_last() =~= ids.drop_last().update(k, x));
        lemma_enode_sum_update(nodes, ids.drop_last(), k, x);
    }
}

proof fn lemma_enode_sum_swap_remove(nodes: Seq<PatNode>, ids: Seq<int>, k: int)
    requires
        0 <= k < ids.len(),
    ensures
        enode_sum(nodes, ids.update(k, ids.last()).drop_last()) == enode_sum(nodes, ids) - tree_enodes(
            nodes,
            ids[k],
        ),
{
    let u = ids.update(k, ids.last());
    lemma_enode_sum_update(nodes, ids, k, ids.last());
    assert(u.last() == ids.last());
}

/// The variables of a register map, in order.
pub open spec fn keys_of(v: Seq<(Var, Reg)>) -> Seq<Seq<char>> {
    v.map_values(|p: (Var, Reg)| p.0@)
}

/// How many of `names` are among `keys`, counting repeats.
pub open spec fn bound_count(names: Seq<Seq<char>>, keys: Seq<Seq<char>>) -> nat
    decreases names.len(),
{
    if names.len() == 0 {
        0
    } else {
        bound_count(names.drop_last(), keys) + if keys.contains(names.last()) {
            1nat
        } else {
            0nat
        }
    }
}

/// Every register of the map is below `b`.
pub open spec fn regs_below(v: Seq<(Var, Reg)>, b: int) -> bool {
    forall|j: int| 0 <= j < v.len() ==> (#[trigger] v[j]).1.0 < b
}

/// No variable appears twice in the map, and its registers are below `b`.
pub open spec fn v2r_ok(v: Seq<(Var, Reg)>, b: int) -> bool {
    keys_of(v).no_duplicates() && regs_below(v, b)
}

/// The position of `v` in the register map.
fn v2r_index(v2r: &Vec<(Var, Reg)>, v: &Var) -> (r: Option<usize>)
    ensures
        r matches Some(k) ==> k < v2r@.len() && keys_of(v2r@)[k as int] == v@,
        r is None ==> !keys_of(v2r@).contains(v@),
{
    let mut i: usize = 0;
    while i < v2r.len()
        invariant
            0 <= i <= v2r@.len(),
            forall|j: int| 0 <= j < i ==> keys_of(v2r@)[j] != v@,
        decreases v2r@.len() - i,
    {
        if v2r[i].0.same(v) {
            return Some(i);
        }
        i = i + 1;
    }
    None
}

/// The register of `v`, if it has one.
fn v2r_get(v2r: &Vec<(Var, Reg)>, v: &Var) -> (r: Option<Reg>)
    ensures
        r is None <==> !keys_of(v2r@).contains(v@),
        r matches Some(x) ==> exists|k: int| 0 <= k < v2r@.len() && keys_of(v2r@)[k] == v@ && v2r@[k].1 == x,
{
    match v2r_index(v2r, v) {
        Some(k) => {
            proof {
                assert(keys_of(v2r@).contains(v@));
            }
            Some(v2r[k].1)
        },
        None => None,
    }
}

/// Whether `v` has a register.
fn v2r_contains(v2r: &Vec<(Var, Reg)>, v: &Var) -> (r: bool)
    ensures
        r == keys_of(v2r@).contains(v@),
{
    match v2r_index(v2r, v) {
        Some(k) => {
            proof {
                assert(keys_of(v2r@)[k as int] == v@);
            }
            true
        },
        None => false,
    }
}

/// Gives `v` the register `r`: in place if it has one, else at the end.
fn v2r_insert(v2r: &mut Vec<(Var, Reg)>, v: Var, r: Reg)
    requires
        keys_of(old(v2r)@).no_duplicates(),
    ensures
        keys_of(final(v2r)@).no_duplicates(),
        keys_of(final(v2r)@).to_set() == keys_of(old(v2r)@).to_set().insert(v@),
        forall|b: int| regs_below(old(v2r)@, b) && r.0 < b ==> regs_below(final(v2r)@, b),
        keys_of(old(v2r)@).is_prefix_of(keys_of(final(v2r)@)),
        keys_of(final(v2r)@) == (if keys_of(old(v2r)@).contains(v@) {
            keys_of(old(v2r)@)
        } else {
            keys_of(old(v2r)@).push(v@)
        }),
        !keys_of(old(v2r)@).contains(v@) ==> final(v2r)@ == old(v2r)@.push((v, r)),
        forall|w: Seq<char>|
            w != v@ && #[trigger] binding_of(regs_view(old(v2r)@), w) is Some ==> binding_of(regs_view(final(v2r)@), w)
                == binding_of(regs_view(old(v2r)@), w),
{
    let ghost old_keys = keys_of(v2r@);
    match v2r_index(v2r, &v) {
        Some(k) => {
            let ghost t = v@;
            let ghost before = v2r@;
            v2r.set(k, (v, r));
            proof {
                assert(regs_view(v2r@) =~= regs_view(before).update(k as int, (t, Id(r.0))));
                assert forall|w: Seq<char>| w != t && #[trigger] binding_of(regs_view(before), w) is Some implies binding_of(
                    regs_view(v2r@),
                    w,
                ) == binding_of(regs_view(before), w) by {
                    assert(regs_view(before)[k as int].0 == keys_of(before)[k as int]);
                    lemma_binding_update_other(regs_view(before), k as int, (t, Id(r.0)), w);
                }
                assert(keys_of(v2r@) =~= old_keys);
                assert(old_keys[k as int] == t);
                assert(old_keys.to_set() =~= old_keys.to_set().insert(t)) by {
                    assert(old_keys.contains(t));
                }
            }
        },
        None => {
            let ghost t = v@;
            let ghost before = v2r@;
            v2r.push((v, r));
            proof {
                lemma_regs_view_push(before, v2r@.last());
                assert(v2r@ =~= before.push(v2r@.last()));
                assert forall|w: Seq<char>| w != t && #[trigger] binding_of(regs_view(before), w) is Some implies binding_of(
                    regs_view(v2r@),
                    w,
                ) == binding_of(regs_view(before), w) by {
                    lemma_binding_push(regs_view(before), (t, Id(r.0)), w);
                }
                assert(keys_of(v2r@) =~= old_keys.push(t));
                old_keys.lemma_push_to_set_commute(t);
                assert forall|i: int, j: int|
                    0 <= i < keys_of(v2r@).len() && 0 <= j < keys_of(v2r@).len() && i != j implies keys_of(
                    v2r@,
                )[i] != keys_of(v2r@)[j] by {
                    if i == old_keys.len() {
                        assert(keys_of(v2r@)[j] == old_keys[j]);
                    } else if j == old_keys.len() {
                        assert(keys_of(v2r@)[i] == old_keys[i]);
                    }
                }
            }
        },
    }
}

/// Whether a pending entry's node is the pattern's e-node.
pub open spec fn node_matches(n: PatNode, e: SymbolLang) -> bool {
    n matches PatNode::ENode { op, children, .. } && op == e.op@ && children == e.children@
}

/// Every pending entry names an e-node of the pattern, holds its node, and
/// has a register below `b`.
pub open spec fn todo_ok(t: Seq<((Id, Reg), SymbolLang)>, nodes: Seq<PatNode>, b: int) -> bool {
    forall|j: int|
        0 <= j < t.len() ==> 0 <= (#[trigger] t[j]).0.0.0 < nodes.len() && t[j].0.1.0 < b && node_matches(
            nodes[t[j].0.0.0 as int],
            t[j].1,
        )
}

/// Instruction `k` is a bind that reads the class in register `r`: its
/// class register is `r`, or the color jump just before it copied `r` into
/// its class register.
pub open spec fn reads_reg(ins: Seq<Instruction>, k: int, r: int) -> bool {
    &&& 0 <= k < ins.len()
    &&& ins[k] is Bind
    &&& (ins[k]->eclass.0 == r || (k > 0 && ins[k - 1] is ColorJump && ins[k - 1]->orig.0 == r && ins[k
        - 1]->ColorJump_out == ins[k]->eclass))
}

/// The variable `v` is matched against register `r`: `r` is its register,
/// or the program compares `r` with its register.
pub open spec fn var_holds(ins: Seq<Instruction>, var_regs: Seq<(Seq<char>, Id)>, v: Seq<char>, r: int) -> bool {
    binding_of(var_regs, v) matches Some(x) && (x.0 == r || exists|q: int|
        0 <= q < ins.len() && #[trigger] ins[q] == (Instruction::Compare { i: Reg(r as u32), j: Reg(x.0) }))
}

/// Some bind of the e-node `c` of the pattern reads register `r`.
pub open spec fn bound_at(ins: Seq<Instruction>, bm: Map<int, int>, c: int, r: int) -> bool {
    exists|k: int| #[trigger] bm.dom().contains(k) && bm[k] == c && reads_reg(ins, k, r)
}

/// The pattern node `c`, whose class is in register `r`, is matched by the
/// program: a variable is held against `r`, an e-node is bound from `r`.
pub open spec fn node_done(
    ins: Seq<Instruction>,
    var_regs: Seq<(Seq<char>, Id)>,
    bm: Map<int, int>,
    nodes: Seq<PatNode>,
    c: int,
    r: int,
) -> bool {
    match nodes[c] {
        PatNode::Var { name } => var_holds(ins, var_regs, name, r),
        PatNode::ENode { .. } => bound_at(ins, bm, c, r),
    }
}

/// Bind `k` matches the e-node `bm[k]` of the pattern: same operator and
/// arity.
pub open spec fn bind_shape(ins: Seq<Instruction>, bm: Map<int, int>, nodes: Seq<PatNode>, k: int) -> bool {
    &&& 0 <= k < ins.len()
    &&& ins[k] is Bind
    &&& 0 <= bm[k] < nodes.len()
    &&& nodes[bm[k]] is ENode
    &&& ins[k]->node.op@ == nodes[bm[k]]->op
    &&& ins[k]->node.children@.len() == nodes[bm[k]]->children.len()
}

/// The program matches the tree of `nodes` whose root's class is in
/// register `root_reg`: the root is matched from that register, and every
/// bind of an e-node `e` writes the classes of `e`'s children in order, the
/// class of child `j` in its output register plus `j`, from which that
/// child is matched in turn. `bm` tells, for each bind, which e-node of the
/// pattern it binds.
pub open spec fn compiled_tree(
    ins: Seq<Instruction>,
    var_regs: Seq<(Seq<char>, Id)>,
    bm: Map<int, int>,
    nodes: Seq<PatNode>,
    root_reg: int,
) -> bool {
    &&& node_done(ins, var_regs, bm, nodes, nodes.len() - 1, root_reg)
    &&& forall|k: int|
        #[trigger] bm.dom().contains(k) ==> bind_shape(ins, bm, nodes, k) && forall|j: int|
            0 <= j < nodes[bm[k]]->children.len() ==> node_done(
                ins,
                var_regs,
                bm,
                nodes,
                nodes[bm[k]]->children[j].0 as int,
                ins[k]->Bind_out.0 + j,
            )
}

/// An e-node `c` waits in the pending list with register `r`.
pub open spec fn pending_at(t: Seq<((Id, Reg), SymbolLang)>, c: int, r: int) -> bool {
    exists|q: int| 0 <= q < t.len() && #[trigger] t[q].0 == (Id(c as u32), Reg(r as u32))
}

/// While compiling: node `c` is matched from register `r`, or, for an
/// e-node, waits to be bound from it.
pub open spec fn node_owed(
    ins: Seq<Instruction>,
    var_regs: Seq<(Seq<char>, Id)>,
    bm: Map<int, int>,
    t: Seq<((Id, Reg), SymbolLang)>,
    nodes: Seq<PatNode>,
    c: int,
    r: int,
) -> bool {
    match nodes[c] {
        PatNode::Var { name } => var_holds(ins, var_regs, name, r),
        PatNode::ENode { .. } => bound_at(ins, bm, c, r) || pending_at(t, c, r),
    }
}

/// Every bind recorded in `bm` has its shape, and its children are owed
/// from its output registers.
pub open spec fn binds_owed(
    ins: Seq<Instruction>,
    var_regs: Seq<(Seq<char>, Id)>,
    bm: Map<int, int>,
    t: Seq<((Id, Reg), SymbolLang)>,
    nodes: Seq<PatNode>,
    skip: int,
) -> bool {
    forall|k: int|
        #[trigger] bm.dom().contains(k) && k != skip ==> bind_shape(ins, bm, nodes, k) && forall|j: int|
            0 <= j < nodes[bm[k]]->children.len() ==> node_owed(
                ins,
                var_regs,
                bm,
                t,
                nodes,
                nodes[bm[k]]->children[j].0 as int,
                ins[k]->Bind_out.0 + j,
            )
}

/// The binding of `v` after a binding is appended.
pub proof fn lemma_binding_push(s: Seq<(Seq<char>, Id)>, y: (Seq<char>, Id), v: Seq<char>)
    ensures
        binding_of(s.push(y), v) == (if binding_of(s, v) is Some {
            binding_of(s, v)
        } else if y.0 == v {
            Some(y.1)
        } else {
            None
        }),
    decreases s.len(),
{
    if s.len() > 0 {
        lemma_binding_push(s.drop_first(), y, v);
        assert(s.push(y).drop_first() =~= s.drop_first().push(y));
        assert(s.push(y)[0] == s[0]);
    } else {
        assert(s.push(y).drop_first() =~= Seq::<(Seq<char>, Id)>::empty());
        assert(s.push(y)[0] == y);
        assert(binding_of(Seq::<(Seq<char>, Id)>::empty(), v) is None);
    }
}

/// A register map's view after an entry is appended.
pub proof fn lemma_regs_view_push(v: Seq<(Var, Reg)>, p: (Var, Reg))
    ensures
        regs_view(v.push(p)) == regs_view(v).push((p.0@, Id(p.1.0))),
{
    assert(regs_view(v.push(p)) =~= regs_view(v).push((p.0@, Id(p.1.0))));
}

/// In a register map without repeated variables, the binding of a variable
/// is its entry's register.
pub proof fn lemma_regs_binding(v: Seq<(Var, Reg)>, k: int)
    requires
        0 <= k < v.len(),
        keys_of(v).no_duplicates(),
    ensures
        binding_of(regs_view(v), v[k].0@) == Some(Id(v[k].1.0)),
{
    let s = regs_view(v);
    assert forall|j: int| 0 <= j < k implies #[trigger] s[j].0 != v[k].0@ by {
        assert(keys_of(v)[j] == s[j].0 && keys_of(v)[k] == v[k].0@);
    }
    crate::subst::lemma_binding_at(s, v[k].0@, k);
}

/// Binding the pending entry `t[kidx]` at the new bind `kb`, which reads
/// its register: every owed node stays owed, with that entry's debt paid by
/// the bind.
pub proof fn lemma_owed_after_bind(
    ins: Seq<Instruction>,
    ins2: Seq<Instruction>,
    vr: Seq<(Seq<char>, Id)>,
    bm: Map<int, int>,
    t: Seq<((Id, Reg), SymbolLang)>,
    t2: Seq<((Id, Reg), SymbolLang)>,
    nodes: Seq<PatNode>,
    kidx: int,
    kb: int,
    c: int,
    r: int,
)
    requires
        node_owed(ins, vr, bm, t, nodes, c, r),
        0 <= c < 0x1_0000_0000,
        0 <= r < 0x1_0000_0000,
        ins.is_prefix_of(ins2),
        forall|k: int| #[trigger] bm.dom().contains(k) ==> 0 <= k < ins.len(),
        ins.len() <= kb < ins2.len(),
        0 <= kidx < t.len(),
        reads_reg(ins2, kb, t[kidx].0.1.0 as int),
        forall|q: int| 0 <= q < t.len() && q != kidx ==> pending_at(t2, t[q].0.0.0 as int, t[q].0.1.0 as int),
    ensures
        node_owed(ins2, vr, bm.insert(kb, t[kidx].0.0.0 as int), t2, nodes, c, r),
{
    let bm2 = bm.insert(kb, t[kidx].0.0.0 as int);
    assert(bm2.dom().contains(kb));
    assert(bound_at(ins2, bm2, t[kidx].0.0.0 as int, t[kidx].0.1.0 as int));
    assert forall|k: int| #[trigger] bm.dom().contains(k) implies bm2.dom().contains(k) && bm2[k] == bm[k] by {
        assert(k != kb);
    }
    lemma_owed_grow(ins, ins2, vr, vr, bm, bm2, t, t2, nodes, c, r);
}

/// With nothing pending, what is owed is done.
pub proof fn lemma_owed_done(
    ins: Seq<Instruction>,
    vr: Seq<(Seq<char>, Id)>,
    bm: Map<int, int>,
    t: Seq<((Id, Reg), SymbolLang)>,
    nodes: Seq<PatNode>,
    c: int,
    r: int,
)
    requires
        node_owed(ins, vr, bm, t, nodes, c, r),
        t.len() == 0,
    ensures
        node_done(ins, vr, bm, nodes, c, r),
{
}

/// While compiling a pattern whose root's class is in `root_reg`: the binds
/// recorded in `bm` (all but `skip`) are binds of the pattern's e-nodes
/// whose output registers lie below `next`, their children are owed from
/// their output registers, and the root is owed from `root_reg`.
pub open spec fn compile_owes(
    ins: Seq<Instruction>,
    vr: Seq<(Seq<char>, Id)>,
    bm: Map<int, int>,
    t: Seq<((Id, Reg), SymbolLang)>,
    nodes: Seq<PatNode>,
    root_reg: int,
    skip: int,
    next: int,
) -> bool {
    &&& 0 <= root_reg < 0x1_0000_0000
    &&& forall|k: int|
        #[trigger] bm.dom().contains(k) ==> 0 <= k < ins.len() && (k != skip ==> ins[k] is Bind && 0 <= bm[k]
            < nodes.len() && ins[k]->Bind_out.0 + nodes[bm[k]]->children.len() <= next)
    &&& binds_owed(ins, vr, bm, t, nodes, skip)
    &&& node_owed(ins, vr, bm, t, nodes, nodes.len() - 1, root_reg)
}

/// Binding the pending entry `t[kidx]` at the new bind `kb` keeps what a
/// compilation owes, the new bind aside.
pub proof fn lemma_owes_after_bind(
    ins: Seq<Instruction>,
    ins2: Seq<Instruction>,
    vr: Seq<(Seq<char>, Id)>,
    bm: Map<int, int>,
    t: Seq<((Id, Reg), SymbolLang)>,
    t2: Seq<((Id, Reg), SymbolLang)>,
    nodes: Seq<PatNode>,
    root_reg: int,
    next: int,
    next2: int,
    kidx: int,
    kb: int,
)
    requires
        compile_owes(ins, vr, bm, t, nodes, root_reg, -1, next),
        kids_before(nodes),
        0 < nodes.len() <= 0x4000_0000,
        next <= next2 <= u32::MAX,
        ins.is_prefix_of(ins2),
        kb == ins2.len() - 1,
        ins.len() <= kb,
        0 <= kidx < t.len(),
        reads_reg(ins2, kb, t[kidx].0.1.0 as int),
        forall|q: int| 0 <= q < t.len() && q != kidx ==> pending_at(t2, t[q].0.0.0 as int, t[q].0.1.0 as int),
    ensures
        compile_owes(ins2, vr, bm.insert(kb, t[kidx].0.0.0 as int), t2, nodes, root_reg, kb, next2),
{
    let bm2 = bm.insert(kb, t[kidx].0.0.0 as int);
    assert forall|k: int| #[trigger] bm2.dom().contains(k) implies 0 <= k < ins2.len() && (k != kb ==> ins2[k] is Bind
        && 0 <= bm2[k] < nodes.len() && ins2[k]->Bind_out.0 + nodes[bm2[k]]->children.len() <= next2) by {
        if k != kb {
            assert(bm.dom().contains(k));
            assert(ins2[k] == ins[k]);
        }
    }
    assert forall|k: int| #[trigger] bm2.dom().contains(k) && k != kb implies bind_shape(ins2, bm2, nodes, k) && forall|j: int|
        0 <= j < nodes[bm2[k]]->children.len() ==> node_owed(
            ins2,
            vr,
            bm2,
            t2,
            nodes,
            nodes[bm2[k]]->children[j].0 as int,
            ins2[k]->Bind_out.0 + j,
        ) by {
        assert(bm.dom().contains(k));
        assert(ins2[k] == ins[k]);
        assert(bm2[k] == bm[k]);
        assert forall|j: int| 0 <= j < nodes[bm2[k]]->children.len() implies node_owed(
            ins2,
            vr,
            bm2,
            t2,
            nodes,
            nodes[bm2[k]]->children[j].0 as int,
            ins2[k]->Bind_out.0 + j,
        ) by {
            let c = nodes[bm[k]]->children[j].0 as int;
            assert(node_kids(nodes[bm[k]])[j] == nodes[bm[k]]->children[j]);
            assert(c < bm[k]);
            lemma_owed_after_bind(ins, ins2, vr, bm, t, t2, nodes, kidx, kb, c, ins[k]->Bind_out.0 + j);
        }
    }
    lemma_owed_after_bind(ins, ins2, vr, bm, t, t2, nodes, kidx, kb, nodes.len() - 1, root_reg);
}

/// Handing a child to the pending list keeps what a compilation owes.
pub proof fn lemma_owes_grow(
    ins: Seq<Instruction>,
    ins2: Seq<Instruction>,
    vr: Seq<(Seq<char>, Id)>,
    vr2: Seq<(Seq<char>, Id)>,
    bm: Map<int, int>,
    t: Seq<((Id, Reg), SymbolLang)>,
    t2: Seq<((Id, Reg), SymbolLang)>,
    nodes: Seq<PatNode>,
    root_reg: int,
    skip: int,
    next: int,
)
    requires
        compile_owes(ins, vr, bm, t, nodes, root_reg, skip, next),
        kids_before(nodes),
        0 < nodes.len() <= 0x4000_0000,
        next <= u32::MAX,
        ins.is_prefix_of(ins2),
        forall|w: Seq<char>| #[trigger] binding_of(vr, w) is Some ==> binding_of(vr2, w) == binding_of(vr, w),
        t.is_prefix_of(t2),
    ensures
        compile_owes(ins2, vr2, bm, t2, nodes, root_reg, skip, next),
{
    assert forall|q: int| 0 <= q < t.len() implies pending_at(t2, t[q].0.0.0 as int, t[q].0.1.0 as int) || bound_at(
        ins2,
        bm,
        t[q].0.0.0 as int,
        t[q].0.1.0 as int,
    ) by {
        assert(t2[q] == t[q]);
        assert(t2[q].0 == (Id(t[q].0.0.0 as int as u32), Reg(t[q].0.1.0 as int as u32)));
    }
    assert forall|k: int| #[trigger] bm.dom().contains(k) implies 0 <= k < ins2.len() && (k != skip ==> ins2[k] is Bind
        && 0 <= bm[k] < nodes.len() && ins2[k]->Bind_out.0 + nodes[bm[k]]->children.len() <= next) by {
        assert(ins2[k] == ins[k]);
    }
    assert forall|k: int| #[trigger] bm.dom().contains(k) && k != skip implies bind_shape(ins2, bm, nodes, k) && forall|j: int|
        0 <= j < nodes[bm[k]]->children.len() ==> node_owed(
            ins2,
            vr2,
            bm,
            t2,
            nodes,
            nodes[bm[k]]->children[j].0 as int,
            ins2[k]->Bind_out.0 + j,
        ) by {
        assert(ins2[k] == ins[k]);
        assert forall|j: int| 0 <= j < nodes[bm[k]]->children.len() implies node_owed(
            ins2,
            vr2,
            bm,
            t2,
            nodes,
            nodes[bm[k]]->children[j].0 as int,
            ins2[k]->Bind_out.0 + j,
        ) by {
            let c = nodes[bm[k]]->children[j].0 as int;
            assert(node_kids(nodes[bm[k]])[j] == nodes[bm[k]]->children[j]);
            lemma_owed_grow(ins, ins2, vr, vr2, bm, bm, t, t2, nodes, c, ins[k]->Bind_out.0 + j);
        }
    }
    lemma_owed_grow(ins, ins2, vr, vr2, bm, bm, t, t2, nodes, nodes.len() - 1, root_reg);
}

/// Once the new bind's children are all owed, it joins the others.
pub proof fn lemma_owes_close(
    ins: Seq<Instruction>,
    vr: Seq<(Seq<char>, Id)>,
    bm: Map<int, int>,
    t: Seq<((Id, Reg), SymbolLang)>,
    nodes: Seq<PatNode>,
    root_reg: int,
    kb: int,
    next: int,
)
    requires
        compile_owes(ins, vr, bm, t, nodes, root_reg, kb, next),
        bm.dom().contains(kb),
        bind_shape(ins, bm, nodes, kb),
        ins[kb]->Bind_out.0 + nodes[bm[kb]]->children.len() <= next,
        forall|j: int|
            0 <= j < nodes[bm[kb]]->children.len() ==> node_owed(
                ins,
                vr,
                bm,
                t,
                nodes,
                nodes[bm[kb]]->children[j].0 as int,
                ins[kb]->Bind_out.0 + j,
            ),
    ensures
        compile_owes(ins, vr, bm, t, nodes, root_reg, -1, next),
{
}

/// No two pending entries wait on the same register.
pub open spec fn todo_regs_distinct(t: Seq<((Id, Reg), SymbolLang)>) -> bool {
    forall|a: int, b: int| 0 <= a < b < t.len() ==> #[trigger] t[a].0.1 != #[trigger] t[b].0.1
}

/// Taking entry `k` off the pending list, then renaming the entries that
/// wait on its register (there are none), leaves every other entry pending.
pub proof fn lemma_pending_after_pop(
    t0: Seq<((Id, Reg), SymbolLang)>,
    t1: Seq<((Id, Reg), SymbolLang)>,
    t2: Seq<((Id, Reg), SymbolLang)>,
    k: int,
)
    requires
        todo_regs_distinct(t0),
        0 <= k < t0.len(),
        t1 == t0.update(k, t0.last()).drop_last(),
        t2.len() == t1.len(),
        forall|j: int| 0 <= j < t1.len() && t1[j].0.1 != t0[k].0.1 ==> #[trigger] t2[j].0 == t1[j].0,
    ensures
        forall|q: int| 0 <= q < t0.len() && q != k ==> pending_at(t2, t0[q].0.0.0 as int, t0[q].0.1.0 as int),
        todo_regs_distinct(t2),
        forall|j: int| 0 <= j < t2.len() ==> #[trigger] t2[j].0 == t1[j].0,
{
    assert forall|j: int| 0 <= j < t2.len() implies #[trigger] t2[j].0 == t1[j].0 by {
        if j == k {
            assert(t1[j] == t0[t0.len() - 1]);
            assert(t0.len() - 1 != k);
        } else {
            assert(t1[j] == t0[j]);
        }
    }
    assert forall|q: int| 0 <= q < t0.len() && q != k implies pending_at(t2, t0[q].0.0.0 as int, t0[q].0.1.0 as int) by {
        let j = if q == t0.len() - 1 { k } else { q };
        assert(t1[j] == t0[q]);
        assert(t2[j].0 == (Id(t0[q].0.0.0 as int as u32), Reg(t0[q].0.1.0 as int as u32)));
    }
    assert forall|a: int, b: int| 0 <= a < b < t2.len() implies #[trigger] t2[a].0.1 != #[trigger] t2[b].0.1 by {
        let ia = if a == k { t0.len() - 1 } else { a };
        let ib = if b == k { t0.len() - 1 } else { b };
        assert(t1[a] == t0[ia]);
        assert(t1[b] == t0[ib]);
        assert(ia != ib);
        if ia < ib {
            assert(t0[ia].0.1 != t0[ib].0.1);
        } else {
            assert(t0[ib].0.1 != t0[ia].0.1);
        }
    }
}

/// Instruction `i` writes register `r` with a class it finds: a bind's
/// output registers, or a scan's.
pub open spec fn writes_fresh(i: Instruction, r: int) -> bool {
    ||| (i is Bind && i->Bind_out.0 <= r < i->Bind_out.0 + i->node.children@.len())
    ||| (i is Scan && i->Scan_out.0 == r)
}

/// Whether `w` is other than the binder.
pub open spec fn not_binder(b: Option<Var>, w: Seq<char>) -> bool {
    b matches Some(v) ==> v@ != w
}

/// The binding of `w` stays when another variable's entry is replaced.
pub proof fn lemma_binding_update_other(s: Seq<(Seq<char>, Id)>, k: int, x: (Seq<char>, Id), w: Seq<char>)
    requires
        0 <= k < s.len(),
        s[k].0 == x.0,
        x.0 != w,
    ensures
        binding_of(s.update(k, x), w) == binding_of(s, w),
    decreases s.len(),
{
    if k == 0 {
        assert(s.update(k, x).drop_first() =~= s.drop_first());
    } else {
        lemma_binding_update_other(s.drop_first(), k - 1, x, w);
        assert(s.update(k, x).drop_first() =~= s.drop_first().update(k - 1, x));
    }
}

/// A binding is one of the entries.
pub proof fn lemma_binding_in(s: Seq<(Seq<char>, Id)>, w: Seq<char>)
    requires
        binding_of(s, w) is Some,
    ensures
        exists|j: int| 0 <= j < s.len() && #[trigger] s[j] == (w, binding_of(s, w)->0),
    decreases s.len(),
{
    if s[0].0 == w {
        assert(s[0] == (w, binding_of(s, w)->0));
    } else {
        lemma_binding_in(s.drop_first(), w);
        let j = choose|j: int| 0 <= j < s.drop_first().len() && #[trigger] s.drop_first()[j] == (w, binding_of(s.drop_first(), w)->0);
        assert(s[j + 1] == s.drop_first()[j]);
    }
}

/// The binder `b` already had a register among `keys`.
pub open spec fn binder_bound(b: Option<Var>, keys: Seq<Seq<char>>) -> bool {
    b matches Some(v) && keys.contains(v@)
}

/// What compiling a pattern after instructions `ins0` and register map
/// `vr0` keeps: no scan is added when `scan_free`, every variable other
/// than the binder keeps its register, and every register the new
/// instructions fill with a found class is at least `start`.
pub open spec fn compile_keeps(
    ins0: Seq<Instruction>,
    ins: Seq<Instruction>,
    vr0: Seq<(Seq<char>, Id)>,
    vr: Seq<(Seq<char>, Id)>,
    b: Option<Var>,
    scan_free: bool,
    start: int,
) -> bool {
    &&& ins0.is_prefix_of(ins)
    &&& scan_free ==> forall|j: int| ins0.len() <= j < ins.len() ==> !(#[trigger] ins[j] is Scan)
    &&& forall|w: Seq<char>|
        #[trigger] binding_of(vr0, w) is Some && not_binder(b, w) ==> binding_of(vr, w) == binding_of(vr0, w)
    &&& forall|j: int, r: int| ins0.len() <= j < ins.len() && #[trigger] writes_fresh(ins[j], r) ==> r >= start
}

/// Appending instructions that add no scan and fill only registers from
/// `start` on, and giving registers only to variables that had none, keeps
/// what compiling keeps.
pub proof fn lemma_keeps_grow(
    ins0: Seq<Instruction>,
    ins: Seq<Instruction>,
    ins2: Seq<Instruction>,
    vr0: Seq<(Seq<char>, Id)>,
    vr: Seq<(Seq<char>, Id)>,
    vr2: Seq<(Seq<char>, Id)>,
    b: Option<Var>,
    scan_free: bool,
    start: int,
)
    requires
        compile_keeps(ins0, ins, vr0, vr, b, scan_free, start),
        ins.is_prefix_of(ins2),
        forall|j: int| ins.len() <= j < ins2.len() ==> !(#[trigger] ins2[j] is Scan),
        forall|j: int, r: int| ins.len() <= j < ins2.len() && #[trigger] writes_fresh(ins2[j], r) ==> r >= start,
        forall|w: Seq<char>| #[trigger] binding_of(vr, w) is Some ==> binding_of(vr2, w) == binding_of(vr, w),
    ensures
        compile_keeps(ins0, ins2, vr0, vr2, b, scan_free, start),
{
    assert(ins0.is_prefix_of(ins2)) by {
        assert forall|j: int| 0 <= j < ins0.len() implies ins2[j] == ins0[j] by {
            assert(ins2[j] == ins[j]);
        }
    }
    assert forall|j: int, r: int| ins0.len() <= j < ins2.len() && #[trigger] writes_fresh(ins2[j], r) implies r >= start by {
        if j < ins.len() {
            assert(ins2[j] == ins[j]);
        }
    }
    if scan_free {
        assert forall|j: int| ins0.len() <= j < ins2.len() implies !(#[trigger] ins2[j] is Scan) by {
            if j < ins.len() {
                assert(ins2[j] == ins[j]);
            }
        }
    }
}

/// With nothing pending, what a compilation owes is a compiled tree.
pub proof fn lemma_owes_done(
    ins: Seq<Instruction>,
    vr: Seq<(Seq<char>, Id)>,
    bm: Map<int, int>,
    t: Seq<((Id, Reg), SymbolLang)>,
    nodes: Seq<PatNode>,
    root_reg: int,
    next: int,
)
    requires
        compile_owes(ins, vr, bm, t, nodes, root_reg, -1, next),
        t.len() == 0,
    ensures
        compiled_tree(ins, vr, bm, nodes, root_reg),
{
    assert forall|k: int| #[trigger] bm.dom().contains(k) implies bind_shape(ins, bm, nodes, k) && forall|j: int|
        0 <= j < nodes[bm[k]]->children.len() ==> node_done(
            ins,
            vr,
            bm,
            nodes,
            nodes[bm[k]]->children[j].0 as int,
            ins[k]->Bind_out.0 + j,
        ) by {
        assert forall|j: int| 0 <= j < nodes[bm[k]]->children.len() implies node_done(
            ins,
            vr,
            bm,
            nodes,
            nodes[bm[k]]->children[j].0 as int,
            ins[k]->Bind_out.0 + j,
        ) by {
            lemma_owed_done(ins, vr, bm, t, nodes, nodes[bm[k]]->children[j].0 as int, ins[k]->Bind_out.0 + j);
        }
    }
    lemma_owed_done(ins, vr, bm, t, nodes, nodes.len() - 1, root_reg);
}

/// Handing a variable node to the pending list with register `reg` holds
/// the variable against `reg`, and keeps every variable's register.
pub proof fn lemma_todo_var(
    old_ins: Seq<Instruction>,
    ins: Seq<Instruction>,
    old_v2r: Seq<(Var, Reg)>,
    v2r: Seq<(Var, Reg)>,
    name: Seq<char>,
    reg: Reg,
)
    requires
        keys_of(old_v2r).no_duplicates(),
        if keys_of(old_v2r).contains(name) {
            &&& exists|k: int|
                0 <= k < old_v2r.len() && #[trigger] keys_of(old_v2r)[k] == name && ins == old_ins.push(
                    Instruction::Compare { i: reg, j: old_v2r[k].1 },
                )
            &&& v2r == old_v2r
        } else {
            &&& ins == old_ins
            &&& v2r == old_v2r.push((v2r.last().0, reg))
            &&& v2r.last().0@ == name
        },
    ensures
        var_holds(ins, regs_view(v2r), name, reg.0 as int),
        forall|w: Seq<char>|
            #[trigger] binding_of(regs_view(old_v2r), w) is Some ==> binding_of(regs_view(v2r), w) == binding_of(
                regs_view(old_v2r),
                w,
            ),
{
    if keys_of(old_v2r).contains(name) {
        let k = choose|k: int|
            0 <= k < old_v2r.len() && #[trigger] keys_of(old_v2r)[k] == name && ins == old_ins.push(
                Instruction::Compare { i: reg, j: old_v2r[k].1 },
            );
        lemma_regs_binding(old_v2r, k);
        assert(ins[old_ins.len() as int] == (Instruction::Compare { i: Reg(reg.0 as int as u32), j: Reg(old_v2r[k].1.0) }));
    } else {
        let p = v2r.last();
        lemma_regs_view_push(old_v2r, p);
        assert(v2r =~= old_v2r.push(p));
        assert forall|j: int| 0 <= j < regs_view(old_v2r).len() implies #[trigger] regs_view(old_v2r)[j].0 != name by {
            assert(keys_of(old_v2r)[j] == regs_view(old_v2r)[j].0);
        }
        crate::subst::lemma_binding_absent(regs_view(old_v2r), name);
        lemma_binding_push(regs_view(old_v2r), (p.0@, Id(p.1.0)), name);
        assert forall|w: Seq<char>| #[trigger] binding_of(regs_view(old_v2r), w) is Some implies binding_of(
            regs_view(v2r),
            w,
        ) == binding_of(regs_view(old_v2r), w) by {
            lemma_binding_push(regs_view(old_v2r), (p.0@, Id(p.1.0)), w);
        }
    }
}

/// What a program matches stays matched as it grows and as variables it did
/// not hold get registers.
pub proof fn lemma_owed_grow(
    ins: Seq<Instruction>,
    ins2: Seq<Instruction>,
    vr: Seq<(Seq<char>, Id)>,
    vr2: Seq<(Seq<char>, Id)>,
    bm: Map<int, int>,
    bm2: Map<int, int>,
    t: Seq<((Id, Reg), SymbolLang)>,
    t2: Seq<((Id, Reg), SymbolLang)>,
    nodes: Seq<PatNode>,
    c: int,
    r: int,
)
    requires
        node_owed(ins, vr, bm, t, nodes, c, r),
        0 <= c < 0x1_0000_0000,
        0 <= r < 0x1_0000_0000,
        ins.is_prefix_of(ins2),
        forall|w: Seq<char>| #[trigger] binding_of(vr, w) is Some ==> binding_of(vr2, w) == binding_of(vr, w),
        forall|k: int| #[trigger] bm.dom().contains(k) ==> bm2.dom().contains(k) && bm2[k] == bm[k],
        forall|k: int| #[trigger] bm.dom().contains(k) ==> 0 <= k < ins.len(),
        forall|q: int|
            0 <= q < t.len() ==> pending_at(t2, t[q].0.0.0 as int, t[q].0.1.0 as int) || bound_at(
                ins2,
                bm2,
                t[q].0.0.0 as int,
                t[q].0.1.0 as int,
            ),
    ensures
        node_owed(ins2, vr2, bm2, t2, nodes, c, r),
{
    match nodes[c] {
        PatNode::Var { name } => {
            let x = binding_of(vr, name)->0;
            if x.0 != r {
                let q = choose|q: int|
                    0 <= q < ins.len() && #[trigger] ins[q] == (Instruction::Compare { i: Reg(r as u32), j: Reg(x.0) });
                assert(ins2[q] == ins[q]);
            }
        },
        PatNode::ENode { .. } => {
            if bound_at(ins, bm, c, r) {
                let k = choose|k: int| #[trigger] bm.dom().contains(k) && bm[k] == c && reads_reg(ins, k, r);
                assert(ins2[k] == ins[k]);
                if k > 0 {
                    assert(ins2[k - 1] == ins[k - 1]);
                }
                assert(bm2.dom().contains(k));
            } else {
                let q = choose|q: int| 0 <= q < t.len() && #[trigger] t[q].0 == (Id(c as u32), Reg(r as u32));
                assert(pending_at(t2, t[q].0.0.0 as int, t[q].0.1.0 as int) || bound_at(
                    ins2,
                    bm2,
                    t[q].0.0.0 as int,
                    t[q].0.1.0 as int,
                ));
                assert(Id(c as u32) == Id(t[q].0.0.0 as int as u32));
                assert(Reg(r as u32) == Reg(t[q].0.1.0 as int as u32));
            }
        },
    }
}

/// The state of compiling patterns into one program.
struct Compiler {
    /// The register of each variable seen so far.
    v2r: Vec<(Var, Reg)>,
    /// For each node of the pattern being compiled, the variables below it.
    free_vars: Vec<Vec<Var>>,
    /// For each node of the pattern being compiled, the e-nodes below it.
    subtree_size: Vec<usize>,
    /// The e-nodes still to bind, each with the register of its class.
    todo_nodes: Vec<((Id, Reg), SymbolLang)>,
    instructions: Vec<Instruction>,
    next_reg: Reg,
}

impl Compiler {
    fn new() -> (r: Self)
        ensures
            r.v2r@.len() == 0,
            r.free_vars@.len() == 0,
            r.subtree_size@.len() == 0,
            r.todo_nodes@.len() == 0,
            r.instructions@.len() == 0,
            r.next_reg == Reg(0),
    {
        Compiler {
            v2r: Vec::new(),
            free_vars: Vec::new(),
            subtree_size: Vec::new(),
            todo_nodes: Vec::new(),
            instructions: Vec::new(),
            next_reg: Reg(0),
        }
    }

    /// Handles node `id` found in register `reg`: a variable is bound to the
    /// register, or compared with its register if it has one; an e-node is
    /// left to bind.
    fn add_todo(&mut self, nodes: &[ENodeOrVar], id: Id, reg: Reg)
        requires
            0 <= id.0 < nodes@.len(),
            keys_of(old(self).v2r@).no_duplicates(),
        ensures
            keys_of(final(self).v2r@).no_duplicates(),
            keys_of(final(self).v2r@).to_set().union(ids_vars(nodes_view(nodes@), todo_ids(final(self).todo_nodes@)))
                == keys_of(old(self).v2r@).to_set().union(
                ids_vars(nodes_view(nodes@), todo_ids(old(self).todo_nodes@)),
            ).union(tree_vars(nodes_view(nodes@), id.0 as int)),
            forall|b: int| regs_below(old(self).v2r@, b) && reg.0 < b ==> regs_below(final(self).v2r@, b),
            forall|b: int|
                todo_ok(old(self).todo_nodes@, nodes_view(nodes@), b) && reg.0 < b ==> todo_ok(
                    final(self).todo_nodes@,
                    nodes_view(nodes@),
                    b,
                ),
            nodes_view(nodes@)[id.0 as int] is ENode ==> todo_ids(final(self).todo_nodes@) == todo_ids(
                old(self).todo_nodes@,
            ).push(id.0 as int),
            nodes_view(nodes@)[id.0 as int] is Var ==> todo_ids(final(self).todo_nodes@) == todo_ids(
                old(self).todo_nodes@,
            ),
            old(self).instructions@.is_prefix_of(final(self).instructions@),
            not_count(final(self).instructions@) == not_count(old(self).instructions@),
            or_count(final(self).instructions@) == or_count(old(self).instructions@),
            bind_count(final(self).instructions@) == bind_count(old(self).instructions@),
            compare_count(final(self).instructions@) + keys_of(final(self).v2r@).len() == compare_count(
                old(self).instructions@,
            ) + keys_of(old(self).v2r@).len() + (if nodes_view(nodes@)[id.0 as int] is Var {
                1int
            } else {
                0int
            }),
            keys_of(old(self).v2r@).is_prefix_of(keys_of(final(self).v2r@)),
            final(self).free_vars == old(self).free_vars,
            final(self).subtree_size == old(self).subtree_size,
            final(self).next_reg == old(self).next_reg,
            nodes_view(nodes@)[id.0 as int] matches PatNode::Var { name } ==> (if keys_of(old(self).v2r@).contains(name) {
                &&& exists|k: int|
                    0 <= k < old(self).v2r@.len() && #[trigger] keys_of(old(self).v2r@)[k] == name
                        && final(self).instructions@ == old(self).instructions@.push(
                        Instruction::Compare { i: reg, j: old(self).v2r@[k].1 },
                    )
                &&& final(self).v2r@ == old(self).v2r@
                &&& final(self).todo_nodes@ == old(self).todo_nodes@
            } else {
                &&& final(self).instructions@ == old(self).instructions@
                &&& final(self).v2r@ == old(self).v2r@.push((final(self).v2r@.last().0, reg))
                &&& final(self).v2r@.last().0@ == name
                &&& final(self).todo_nodes@ == old(self).todo_nodes@
            }),
            nodes_view(nodes@)[id.0 as int] is ENode ==> final(self).instructions@ == old(self).instructions@
                && final(self).todo_nodes@.len() == old(self).todo_nodes@.len() + 1 && final(self).todo_nodes@.last().0 == (
                id,
                reg,
            ) && final(self).todo_nodes@ == old(self).todo_nodes@.push(final(self).todo_nodes@.last())
                && final(self).v2r@ == old(self).v2r@,
            forall|w: Seq<char>|
                #[trigger] binding_of(regs_view(old(self).v2r@), w) is Some ==> binding_of(regs_view(final(self).v2r@), w)
                    == binding_of(regs_view(old(self).v2r@), w),
            forall|j: int|
                old(self).instructions@.len() <= j < final(self).instructions@.len() ==> final(self).instructions@[j] is Compare,
    {
        let ghost nv = nodes_view(nodes@);
        let ghost ids0 = todo_ids(self.todo_nodes@);
        let ghost set0 = keys_of(self.v2r@).to_set();
        let ghost ins0 = self.instructions@;
        proof {
            assert(nv[id.0 as int] == nodes@[id.0 as int]@);
        }
        match &nodes[id.0 as usize] {
            ENodeOrVar::Var(v) => {
                proof {
                    assert(tree_vars(nv, id.0 as int) == set![v@]);
                }
                match v2r_get(&self.v2r, v) {
                    Some(j) => {
                        self.instructions.push(Instruction::Compare { i: reg, j });
                        proof {
                            lemma_bind_count_push(ins0, Instruction::Compare { i: reg, j });
                            lemma_compare_count_push(ins0, Instruction::Compare { i: reg, j });
                            lemma_or_count_push(ins0, Instruction::Compare { i: reg, j });
                            lemma_not_count_push(ins0, Instruction::Compare { i: reg, j });
                            assert(ins0.is_prefix_of(self.instructions@));
                            assert(set0.contains(v@));
                            assert(set0.union(ids_vars(nv, ids0)) =~= set0.union(ids_vars(nv, ids0)).union(set![v@]));
                        }
                    },
                    None => {
                        let ghost v2r0 = self.v2r@;
                        v2r_insert(&mut self.v2r, v.clone(), reg);
                        proof {
                            assert forall|w: Seq<char>| #[trigger] binding_of(regs_view(v2r0), w) is Some implies binding_of(
                                regs_view(self.v2r@),
                                w,
                            ) == binding_of(regs_view(v2r0), w) by {
                                if w == v@ {
                                    lemma_binding_in(regs_view(v2r0), w);
                                    let j = choose|j: int| 0 <= j < regs_view(v2r0).len() && #[trigger] regs_view(v2r0)[j] == (w, binding_of(regs_view(v2r0), w)->0);
                                    assert(keys_of(v2r0)[j] == w);
                                    assert(keys_of(v2r0).contains(w));
                                }
                            }
                            assert(keys_of(self.v2r@).to_set().union(ids_vars(nv, ids0)) =~= set0.union(
                                ids_vars(nv, ids0),
                            ).union(set![v@]));
                        }
                    },
                }
            },
            ENodeOrVar::ENode(pat, _name) => {
                let node = copy_node(pat);
                self.todo_nodes.push(((id, reg), node));
                proof {
                    assert(todo_ids(self.todo_nodes@) =~= ids0.push(id.0 as int));
                    lemma_vars_push(nv, ids0, id.0 as int);
                    assert(set0.union(ids_vars(nv, ids0.push(id.0 as int))) =~= set0.union(ids_vars(nv, ids0)).union(
                        tree_vars(nv, id.0 as int),
                    ));
                    assert forall|b: int|
                        todo_ok(old(self).todo_nodes@, nv, b) && reg.0 < b implies todo_ok(self.todo_nodes@, nv, b) by {
                        assert forall|j: int| 0 <= j < self.todo_nodes@.len() implies 0 <= (
                        #[trigger] self.todo_nodes@[j]).0.0.0 < nv.len() && self.todo_nodes@[j].0.1.0 < b
                            && node_matches(nv[self.todo_nodes@[j].0.0.0 as int], self.todo_nodes@[j].1) by {
                            if j < old(self).todo_nodes@.len() {
                                assert(self.todo_nodes@[j] == old(self).todo_nodes@[j]);
                            }
                        }
                    }
                    assert(ins0.is_prefix_of(self.instructions@));
                }
            },
        }
    }

    /// Emits a jump from `orig` to a colored class in `next_out`; pending
    /// nodes waiting on `orig` wait on `next_out` instead.
    fn introduce_color_jump(&mut self, next_out: Reg, orig: Reg)
        ensures
            final(self).instructions@ == old(self).instructions@.push(Instruction::ColorJump { orig, out: next_out }),
            final(self).todo_nodes@.len() == old(self).todo_nodes@.len(),
            forall|j: int|
                0 <= j < old(self).todo_nodes@.len() ==> (#[trigger] final(self).todo_nodes@[j]).0.0
                    == old(self).todo_nodes@[j].0.0 && final(self).todo_nodes@[j].1.op@
                    == old(self).todo_nodes@[j].1.op@ && final(self).todo_nodes@[j].1.children@
                    == old(self).todo_nodes@[j].1.children@ && final(self).todo_nodes@[j].0.1 == (
                if old(self).todo_nodes@[j].0.1.0 == orig.0 {
                    next_out
                } else {
                    old(self).todo_nodes@[j].0.1
                }),
            todo_ids(final(self).todo_nodes@) == todo_ids(old(self).todo_nodes@),
            forall|nodes: Seq<PatNode>, b: int|
                todo_ok(old(self).todo_nodes@, nodes, b) && next_out.0 < b ==> todo_ok(final(self).todo_nodes@, nodes, b),
            old(self).instructions@.is_prefix_of(final(self).instructions@),
            not_count(final(self).instructions@) == not_count(old(self).instructions@),
            or_count(final(self).instructions@) == or_count(old(self).instructions@),
            bind_count(final(self).instructions@) == bind_count(old(self).instructions@),
            compare_count(final(self).instructions@) == compare_count(old(self).instructions@),
            final(self).v2r == old(self).v2r,
            final(self).free_vars == old(self).free_vars,
            final(self).subtree_size == old(self).subtree_size,
            final(self).next_reg == old(self).next_reg,
    {
        proof {
            lemma_compare_count_push(self.instructions@, Instruction::ColorJump { orig, out: next_out });
            lemma_not_count_push(self.instructions@, Instruction::ColorJump { orig, out: next_out });
            lemma_bind_count_push(self.instructions@, Instruction::ColorJump { orig, out: next_out });
            lemma_or_count_push(self.instructions@, Instruction::ColorJump { orig, out: next_out });
        }
        self.instructions.push(Instruction::ColorJump { orig, out: next_out });
        let mut renamed: Vec<((Id, Reg), SymbolLang)> = Vec::new();
        let ghost t0 = self.todo_nodes@;
        let mut i: usize = 0;
        while i < self.todo_nodes.len()
            invariant
                0 <= i <= t0.len(),
                self.todo_nodes@ == t0,
                renamed@.len() == i,
                forall|j: int|
                    0 <= j < i ==> (#[trigger] renamed@[j]).0.0 == t0[j].0.0 && renamed@[j].1.op@ == t0[j].1.op@
                        && renamed@[j].1.children@ == t0[j].1.children@ && renamed@[j].0.1 == (
                    if t0[j].0.1.0 == orig.0 {
                        next_out
                    } else {
                        t0[j].0.1
                    }),
            decreases t0.len() - i,
        {
            let id = self.todo_nodes[i].0.0;
            let reg = self.todo_nodes[i].0.1;
            let node = copy_node(&self.todo_nodes[i].1);
            let new_reg = if reg.0 == orig.0 {
                next_out
            } else {
                reg
            };
            renamed.push(((id, new_reg), node));
            i = i + 1;
        }
        self.todo_nodes = renamed;
        proof {
            assert(todo_ids(self.todo_nodes@) =~= todo_ids(t0));
        }
    }
}


/// Partial sums of children's tree sizes grow with the prefix.
proof fn lemma_kids_size_mono(nodes: Seq<PatNode>, ks: Seq<Id>, c: int, bound: int)
    requires
        0 <= c <= ks.len(),
    ensures
        kids_size(nodes, ks.subrange(0, c), bound) <= kids_size(nodes, ks, bound),
    decreases ks.len(),
{
    if c < ks.len() {
        assert(ks.drop_last().subrange(0, c) =~= ks.subrange(0, c));
        lemma_kids_size_mono(nodes, ks.drop_last(), c, bound);
    } else {
        assert(ks.subrange(0, c) =~= ks);
    }
}

/// Whether the key (grounded, free variables, smaller size) of a pending
/// node with `fa` unbound variables and size `sa` is at least that of one
/// with `fb` and `sb`.
fn key_at_least(fa: usize, sa: usize, fb: usize, sb: usize) -> (r: bool)
    ensures
        r == (if (fa == 0) != (fb == 0) {
            fa == 0
        } else if fa != fb {
            fa > fb
        } else {
            sa <= sb
        }),
{
    if (fa == 0) != (fb == 0) {
        fa == 0
    } else if fa != fb {
        fa > fb
    } else {
        sa <= sb
    }
}

impl Compiler {
    /// For each node of `nodes`, records the variables below it and the
    /// number of e-nodes below it.
    fn load_pattern(&mut self, nodes: &[ENodeOrVar])
        requires
            kids_before(nodes_view(nodes@)),
            forall|j: int| 0 <= j < nodes@.len() ==> #[trigger] tree_size(nodes_view(nodes@), j) <= j + 1,
            nodes@.len() <= 0x4000_0000,
        ensures
            final(self).free_vars@.len() == nodes@.len(),
            final(self).subtree_size@.len() == nodes@.len(),
            forall|j: int| 0 <= j < nodes@.len() ==> #[trigger] final(self).subtree_size@[j] <= tree_size(nodes_view(nodes@), j),
            forall|j: int|
                0 <= j < nodes@.len() ==> crate::pattern::var_texts((#[trigger] final(self).free_vars@[j])@).to_set()
                    == tree_vars(nodes_view(nodes@), j),
            final(self).v2r == old(self).v2r,
            final(self).todo_nodes == old(self).todo_nodes,
            final(self).instructions == old(self).instructions,
            final(self).next_reg == old(self).next_reg,
    {
        let ghost nv = nodes_view(nodes@);
        let mut free_vars: Vec<Vec<Var>> = Vec::new();
        let mut sizes: Vec<usize> = Vec::new();
        let mut i: usize = 0;
        while i < nodes.len()
            invariant
                0 <= i <= nodes@.len(),
                nv == nodes_view(nodes@),
                kids_before(nv),
                forall|j: int| 0 <= j < nodes@.len() ==> #[trigger] tree_size(nv, j) <= j + 1,
                nodes@.len() <= 0x4000_0000,
                free_vars@.len() == i,
                sizes@.len() == i,
                forall|j: int| 0 <= j < i ==> #[trigger] sizes@[j] <= tree_size(nv, j),
                forall|j: int|
                    0 <= j < i ==> crate::pattern::var_texts((#[trigger] free_vars@[j])@).to_set() == tree_vars(nv, j),
            decreases nodes@.len() - i,
        {
            let mut free: Vec<Var> = Vec::new();
            let mut size: usize = 0;
            proof {
                assert(nv[i as int] == nodes@[i as int]@);
                assert(tree_size(nv, i as int) <= i + 1);
            }
            match &nodes[i] {
                ENodeOrVar::ENode(n, _) => {
                    let ghost kids = n.children@;
                    proof {
                        assert(node_kids(nv[i as int]) == kids);
                        assert(tree_size(nv, i as int) == 1 + kids_size(nv, kids, i as int));
                        assert(tree_vars(nv, i as int) == kids_vars(nv, kids, i as int));
                        assert(kids.subrange(0, 0) =~= Seq::<Id>::empty());
                        assert(crate::pattern::var_texts(free@).to_set() =~= Set::<Seq<char>>::empty());
                    }
                    size = 1;
                    let mut c: usize = 0;
                    while c < n.children.len()
                        invariant
                            0 <= c <= kids.len(),
                            kids == n.children@,
                            nv == nodes_view(nodes@),
                            kids_before(nv),
                            0 <= i < nodes@.len(),
                            nv[i as int] == nodes@[i as int]@,
                            node_kids(nv[i as int]) == kids,
                            tree_size(nv, i as int) == 1 + kids_size(nv, kids, i as int),
                            tree_size(nv, i as int) <= i + 1,
                            nodes@.len() <= 0x4000_0000,
                            free_vars@.len() == i,
                            sizes@.len() == i,
                            forall|j: int| 0 <= j < i ==> #[trigger] sizes@[j] <= tree_size(nv, j),
                            forall|j: int|
                                0 <= j < i ==> crate::pattern::var_texts((#[trigger] free_vars@[j])@).to_set()
                                    == tree_vars(nv, j),
                            size <= 1 + kids_size(nv, kids.subrange(0, c as int), i as int),
                            crate::pattern::var_texts(free@).to_set() == kids_vars(nv, kids.subrange(0, c as int), i as int),
                        decreases kids.len() - c,
                    {
                        let child = n.children[c].0 as usize;
                        proof {
                            assert(node_kids(nv[i as int])[c as int] == kids[c as int]);
                            assert(kids[c as int].0 < i);
                        }
                        let fv = &free_vars[child];
                        let ghost before = crate::pattern::var_texts(free@).to_set();
                        let mut t: usize = 0;
                        while t < fv.len()
                            invariant
                                0 <= t <= fv@.len(),
                                crate::pattern::var_texts(free@).to_set() == before.union(
                                    crate::pattern::var_texts(fv@.subrange(0, t as int)).to_set(),
                                ),
                            decreases fv@.len() - t,
                        {
                            let ghost pre = crate::pattern::var_texts(free@);
                            crate::pattern::push_new_var(&mut free, fv[t].clone());
                            proof {
                                let x = fv@[t as int]@;
                                pre.lemma_push_to_set_commute(x);
                                assert(crate::pattern::var_texts(fv@.subrange(0, t + 1)) =~= crate::pattern::var_texts(
                                    fv@.subrange(0, t as int),
                                ).push(x));
                                crate::pattern::var_texts(fv@.subrange(0, t as int)).lemma_push_to_set_commute(x);
                                if pre.contains(x) {
                                    assert(pre.to_set().contains(x));
                                }
                                assert(crate::pattern::var_texts(free@).to_set() =~= before.union(
                                    crate::pattern::var_texts(fv@.subrange(0, t + 1)).to_set(),
                                ));
                            }
                            t = t + 1;
                        }
                        proof {
                            assert(fv@.subrange(0, fv@.len() as int) =~= fv@);
                            let ks1 = kids.subrange(0, c + 1);
                            assert(ks1.drop_last() =~= kids.subrange(0, c as int));
                            assert(ks1.last() == kids[c as int]);
                            assert(kids_size(nv, ks1, i as int) == kids_size(nv, kids.subrange(0, c as int), i as int)
                                + tree_size(nv, child as int));
                            assert(kids_vars(nv, ks1, i as int) == kids_vars(nv, kids.subrange(0, c as int), i as int).union(
                                tree_vars(nv, child as int),
                            ));
                            lemma_kids_size_mono(nv, kids, c + 1, i as int);
                        }
                        size = size + sizes[child];
                        c = c + 1;
                    }
                    proof {
                        assert(kids.subrange(0, kids.len() as int) =~= kids);
                    }
                },
                ENodeOrVar::Var(v) => {
                    crate::pattern::push_new_var(&mut free, v.clone());
                    proof {
                        assert(tree_vars(nv, i as int) == set![v@]);
                        assert(crate::pattern::var_texts(free@) =~= seq![v@]);
                        assert(seq![v@].to_set() =~= set![v@]) by {
                            assert(seq![v@].contains(v@)) by {
                                assert(seq![v@][0] == v@);
                            }
                        }
                    }
                },
            }
            free_vars.push(free);
            sizes.push(size);
            i = i + 1;
        }
        self.free_vars = free_vars;
        self.subtree_size = sizes;
    }

    /// How many of the variables below node `id` have no register yet.
    fn free_count(&self, id: usize) -> (r: usize)
        requires
            id < self.free_vars@.len(),
        ensures
            r == self.free_vars@[id as int]@.len() - bound_count(
                var_texts(self.free_vars@[id as int]@),
                keys_of(self.v2r@),
            ),
    {
        let fv = &self.free_vars[id];
        let ghost names = var_texts(fv@);
        let ghost keys = keys_of(self.v2r@);
        let mut bound: usize = 0;
        let mut t: usize = 0;
        while t < fv.len()
            invariant
                0 <= t <= fv@.len(),
                names == var_texts(fv@),
                keys == keys_of(self.v2r@),
                bound == bound_count(names.subrange(0, t as int), keys),
                bound <= t,
            decreases fv@.len() - t,
        {
            proof {
                assert(names.subrange(0, t + 1).drop_last() =~= names.subrange(0, t as int));
                assert(names[t as int] == fv@[t as int]@);
            }
            if v2r_contains(&self.v2r, &fv[t]) {
                bound = bound + 1;
            }
            t = t + 1;
        }
        proof {
            assert(names.subrange(0, t as int) =~= names);
        }
        fv.len() - bound
    }

    /// Takes the pending e-node to bind next: the last of those with the
    /// greatest key (grounded first, then more unbound variables, then
    /// smaller), moving the last pending entry into its place.
    fn next(&mut self) -> (r: Option<((Id, Reg), SymbolLang)>)
        requires
            old(self).free_vars@.len() == old(self).subtree_size@.len(),
            forall|j: int|
                0 <= j < old(self).todo_nodes@.len() ==> 0 <= (#[trigger] old(self).todo_nodes@[j]).0.0.0 < old(
                    self,
                ).free_vars@.len(),
        ensures
            old(self).todo_nodes@.len() == 0 ==> r is None && final(self).todo_nodes == old(self).todo_nodes,
            old(self).todo_nodes@.len() > 0 ==> (r matches Some(e) && exists|k: int|
                0 <= k < old(self).todo_nodes@.len() && e == old(self).todo_nodes@[k] && final(self).todo_nodes@
                    == old(self).todo_nodes@.update(k, old(self).todo_nodes@.last()).drop_last()),
            final(self).v2r == old(self).v2r,
            final(self).free_vars == old(self).free_vars,
            final(self).subtree_size == old(self).subtree_size,
            final(self).instructions == old(self).instructions,
            final(self).next_reg == old(self).next_reg,
    {
        if self.todo_nodes.len() == 0 {
            return None;
        }
        let first = self.todo_nodes[0].0.0.0 as usize;
        let mut best: usize = 0;
        let mut best_free = self.free_count(first);
        let mut best_size = self.subtree_size[first];
        let mut k: usize = 1;
        while k < self.todo_nodes.len()
            invariant
                1 <= k <= self.todo_nodes@.len(),
                best < self.todo_nodes@.len(),
                self.free_vars@.len() == self.subtree_size@.len(),
                forall|j: int|
                    0 <= j < self.todo_nodes@.len() ==> 0 <= (#[trigger] self.todo_nodes@[j]).0.0.0
                        < self.free_vars@.len(),
            decreases self.todo_nodes@.len() - k,
        {
            let id = self.todo_nodes[k].0.0.0 as usize;
            let f = self.free_count(id);
            let sz = self.subtree_size[id];
            if key_at_least(f, sz, best_free, best_size) {
                best = k;
                best_free = f;
                best_size = sz;
            }
            k = k + 1;
        }
        let e = self.todo_nodes.swap_remove(best);
        Some(e)
    }
}


/// The variable a pattern is bound to, as a set.
pub open spec fn binder_set(b: Option<Var>) -> Set<Seq<char>> {
    match b {
        Some(v) => set![v@],
        None => Set::empty(),
    }
}

proof fn lemma_prefix_trans<A>(a: Seq<A>, b: Seq<A>, c: Seq<A>)
    requires
        a.is_prefix_of(b),
        b.is_prefix_of(c),
    ensures
        a.is_prefix_of(c),
{
    assert(c.subrange(0, a.len() as int) =~= b.subrange(0, a.len() as int));
}

proof fn lemma_regs_mono(v: Seq<(Var, Reg)>, b1: int, b2: int)
    requires
        regs_below(v, b1),
        b1 <= b2,
    ensures
        regs_below(v, b2),
{
}

proof fn lemma_todo_ok_mono(t: Seq<((Id, Reg), SymbolLang)>, nodes: Seq<PatNode>, b1: int, b2: int)
    requires
        todo_ok(t, nodes, b1),
        b1 <= b2,
    ensures
        todo_ok(t, nodes, b2),
{
}

impl Compiler {
    /// Starts a pattern whose root is in register `next_reg`: after the
    /// first pattern, a scan for the root; then the root is handled.
    fn add_new_pattern(&mut self, nodes: &[ENodeOrVar], root: Id)
        requires
            root.0 == nodes@.len() - 1,
            nodes@.len() > 0,
            keys_of(old(self).v2r@).no_duplicates(),
        ensures
            keys_of(final(self).v2r@).no_duplicates(),
            keys_of(final(self).v2r@).to_set().union(ids_vars(nodes_view(nodes@), todo_ids(final(self).todo_nodes@)))
                == keys_of(old(self).v2r@).to_set().union(
                ids_vars(nodes_view(nodes@), todo_ids(old(self).todo_nodes@)),
            ).union(tree_vars(nodes_view(nodes@), root.0 as int)),
            forall|b: int|
                regs_below(old(self).v2r@, b) && old(self).next_reg.0 < b ==> regs_below(final(self).v2r@, b),
            forall|b: int|
                todo_ok(old(self).todo_nodes@, nodes_view(nodes@), b) && old(self).next_reg.0 < b ==> todo_ok(
                    final(self).todo_nodes@,
                    nodes_view(nodes@),
                    b,
                ),
            nodes_view(nodes@)[root.0 as int] is ENode ==> todo_ids(final(self).todo_nodes@) == todo_ids(
                old(self).todo_nodes@,
            ).push(root.0 as int),
            nodes_view(nodes@)[root.0 as int] is Var ==> todo_ids(final(self).todo_nodes@) == todo_ids(
                old(self).todo_nodes@,
            ),
            old(self).instructions@.is_prefix_of(final(self).instructions@),
            not_count(final(self).instructions@) == not_count(old(self).instructions@),
            or_count(final(self).instructions@) == or_count(old(self).instructions@),
            bind_count(final(self).instructions@) == bind_count(old(self).instructions@),
            compare_count(final(self).instructions@) + keys_of(final(self).v2r@).len() == compare_count(
                old(self).instructions@,
            ) + keys_of(old(self).v2r@).len() + (if nodes_view(nodes@)[root.0 as int] is Var {
                1int
            } else {
                0int
            }),
            keys_of(old(self).v2r@).is_prefix_of(keys_of(final(self).v2r@)),
            final(self).free_vars == old(self).free_vars,
            final(self).subtree_size == old(self).subtree_size,
            final(self).next_reg == old(self).next_reg,
            nodes_view(nodes@)[root.0 as int] matches PatNode::Var { name } ==> var_holds(
                final(self).instructions@,
                regs_view(final(self).v2r@),
                name,
                old(self).next_reg.0 as int,
            ) && final(self).todo_nodes@ == old(self).todo_nodes@,
            nodes_view(nodes@)[root.0 as int] is ENode ==> final(self).todo_nodes@ == old(self).todo_nodes@.push(
                final(self).todo_nodes@.last(),
            ) && final(self).todo_nodes@.last().0 == (root, old(self).next_reg),
            forall|w: Seq<char>|
                #[trigger] binding_of(regs_view(old(self).v2r@), w) is Some ==> binding_of(regs_view(final(self).v2r@), w)
                    == binding_of(regs_view(old(self).v2r@), w),
            forall|j: int|
                old(self).instructions@.len() <= j < final(self).instructions@.len() ==> !(
                #[trigger] final(self).instructions@[j] is Bind) && (final(self).instructions@[j] is Scan
                    ==> final(self).instructions@[j]->Scan_out == old(self).next_reg),
    {
        let ghost ins0 = self.instructions@;
        if self.instructions.len() > 0 {
            let top_pat = match &nodes[root.0 as usize] {
                ENodeOrVar::ENode(n, _) => ScanRoot::ENode(copy_node(n)),
                ENodeOrVar::Var(v) => ScanRoot::Var(v2r_get(&self.v2r, v)),
            };
            let ghost x = Instruction::Scan { out: self.next_reg, top_pat };
            self.instructions.push(Instruction::Scan { out: self.next_reg, top_pat });
            proof {
                lemma_not_count_push(ins0, x);
                lemma_bind_count_push(ins0, x);
                lemma_or_count_push(ins0, x);
                lemma_compare_count_push(ins0, x);
            }
        }
        let ghost ins1 = self.instructions@;
        let ghost v2r1 = self.v2r@;
        let r = self.next_reg;
        self.add_todo(nodes, root, r);
        proof {
            assert(ins0.is_prefix_of(ins1));
            lemma_prefix_trans(ins0, ins1, self.instructions@);
            if nodes_view(nodes@)[root.0 as int] is Var {
                let name = nodes_view(nodes@)[root.0 as int]->Var_name;
                lemma_todo_var(ins1, self.instructions@, v2r1, self.v2r@, name, r);
            }
            assert forall|j: int| ins0.len() <= j < self.instructions@.len() implies !(#[trigger] self.instructions@[j] is Bind)
                && (self.instructions@[j] is Scan ==> self.instructions@[j]->Scan_out == old(self).next_reg) by {
                if j < ins1.len() {
                    assert(self.instructions@[j] == ins1[j]);
                }
            }
        }
    }

    /// Compiles `pattern`, bound to `patternbinder` if one is given, after
    /// what this compiler holds: afterwards every variable of the pattern's
    /// tree (and the binder) has a register.
    fn compile(&mut self, patternbinder: Option<Var>, pattern: &PatternAst) -> (res: Ghost<Map<int, int>>)
        requires
            ast_wf(pattern@),
            pattern@.len() <= 0x4000_0000,
            old(self).todo_nodes@.len() == 0,
            v2r_ok(old(self).v2r@, old(self).next_reg.0 as int),
            old(self).next_reg.0 + 2 * pattern@.len() + 2 <= u32::MAX,
        ensures
            final(self).todo_nodes@.len() == 0,
            v2r_ok(final(self).v2r@, final(self).next_reg.0 as int),
            keys_of(final(self).v2r@).to_set() == keys_of(old(self).v2r@).to_set().union(
                tree_vars(pattern@, pattern@.len() - 1),
            ).union(binder_set(patternbinder)),
            old(self).next_reg.0 <= final(self).next_reg.0 <= old(self).next_reg.0 + 2 * pattern@.len() + 1,
            old(self).instructions@.is_prefix_of(final(self).instructions@),
            not_count(final(self).instructions@) == not_count(old(self).instructions@),
            or_count(final(self).instructions@) == or_count(old(self).instructions@),
            bind_count(final(self).instructions@) == bind_count(old(self).instructions@) + tree_enodes(
                pattern@,
                pattern@.len() - 1,
            ),
            patternbinder is None ==> compare_count(final(self).instructions@) + keys_of(final(self).v2r@).len()
                == compare_count(old(self).instructions@) + keys_of(old(self).v2r@).len() + tree_var_occurrences(
                pattern@,
                pattern@.len() - 1,
            ),
            keys_of(old(self).v2r@).is_prefix_of(keys_of(final(self).v2r@)),
            patternbinder is None ==> compiled_tree(
                final(self).instructions@,
                regs_view(final(self).v2r@),
                res@,
                pattern@,
                old(self).next_reg.0 as int,
            ),
            compile_keeps(
                old(self).instructions@,
                final(self).instructions@,
                regs_view(old(self).v2r@),
                regs_view(final(self).v2r@),
                patternbinder,
                binder_bound(patternbinder, keys_of(old(self).v2r@)),
                old(self).next_reg.0 as int,
            ),
    {
        let nodes = pattern.as_ref();
        let ghost nv = nodes_view(nodes@);
        let ghost ins0 = self.instructions@;
        let ghost keys0 = keys_of(self.v2r@);
        let ghost vr0 = regs_view(self.v2r@);
        let ghost sf = binder_bound(patternbinder, keys0);
        self.load_pattern(nodes);
        let last_i = nodes.len() - 1;
        let root = Id(last_i as u32);
        let ghost start = old(self).next_reg.0 as int;
        let ghost bound = start + 2 * tree_size(nv, last_i as int) + 1;
        let ghost target = keys0.to_set().union(tree_vars(nv, last_i as int)).union(binder_set(patternbinder));
        let mut next_out = self.next_reg;
        let ghost track = patternbinder is None;
        let ghost r_root: int = self.next_reg.0 as int;
        let ghost mut bm: Map<int, int> = Map::empty();
        let root_is_enode = match &nodes[last_i] {
            ENodeOrVar::ENode(_, _) => true,
            ENodeOrVar::Var(_) => false,
        };
        proof {
            assert(nv[last_i as int] == nodes@[last_i as int]@);
            assert(ids_vars(nv, Seq::<int>::empty()) =~= Set::<Seq<char>>::empty());
            assert(todo_ids(self.todo_nodes@) =~= Seq::<int>::empty());
            assert(tree_size(nv, last_i as int) == nv.len());
            assert(weight_sum(nv, Seq::<int>::empty()) == 0);
            assert(enode_sum(nv, Seq::<int>::empty()) == 0);
            assert(enode_sum(nv, Seq::<int>::empty().push(last_i as int)) == tree_enodes(nv, last_i as int)) by {
                assert(Seq::<int>::empty().push(last_i as int).drop_last() =~= Seq::<int>::empty());
                assert(Seq::<int>::empty().push(last_i as int).last() == last_i as int);
            }
            assert(weight_sum(nv, Seq::<int>::empty().push(last_i as int)) == node_weight(nv, last_i as int)) by {
                assert(Seq::<int>::empty().push(last_i as int).drop_last() =~= Seq::<int>::empty());
                assert(Seq::<int>::empty().push(last_i as int).last() == last_i as int);
            }
        }
        match patternbinder {
            Some(v) => {
                match v2r_index(&self.v2r, &v) {
                    Some(k) => {
                        proof {
                            assert(keys0.contains(v@));
                            assert(target =~= keys0.to_set().union(tree_vars(nv, last_i as int)));
                        }
                        proof {
                            assert(sf);
                            assert(compile_keeps(ins0, self.instructions@, vr0, regs_view(self.v2r@), patternbinder, sf, start));
                        }
                        if root_is_enode {
                            let i = self.v2r[k].1;
                            let ghost ins_j = self.instructions@;
                            let ghost vr_j = regs_view(self.v2r@);
                            self.introduce_color_jump(next_out, i);
                            let key = self.v2r[k].0.clone();
                            self.v2r.set(k, (key, next_out));
                            proof {
                                assert(keys_of(self.v2r@) =~= keys0);
                                assert(regs_view(self.v2r@) =~= vr_j.update(k as int, (v@, Id(next_out.0))));
                                assert forall|j: int, r: int| ins_j.len() <= j < self.instructions@.len() && #[trigger] writes_fresh(
                                    self.instructions@[j],
                                    r,
                                ) implies r >= start by {}
                                assert forall|w: Seq<char>| #[trigger] binding_of(vr0, w) is Some && not_binder(patternbinder, w)
                                    implies binding_of(regs_view(self.v2r@), w) == binding_of(vr0, w) by {
                                    assert(vr_j[k as int].0 == keys0[k as int]);
                                    lemma_binding_update_other(vr_j, k as int, (v@, Id(next_out.0)), w);
                                }
                                assert(compile_keeps(ins0, self.instructions@, vr0, regs_view(self.v2r@), patternbinder, sf, start)) by {
                                    assert forall|j: int| ins0.len() <= j < self.instructions@.len() implies !(
                                    #[trigger] self.instructions@[j] is Scan) by {
                                        if j < ins_j.len() {
                                            assert(self.instructions@[j] == ins_j[j]);
                                        }
                                    }
                                    assert forall|j: int, r: int| ins0.len() <= j < self.instructions@.len() && #[trigger] writes_fresh(
                                        self.instructions@[j],
                                        r,
                                    ) implies r >= start by {
                                        if j < ins_j.len() {
                                            assert(self.instructions@[j] == ins_j[j]);
                                        }
                                    }
                                    lemma_prefix_trans(ins0, ins_j, self.instructions@);
                                }
                            }
                            next_out = Reg(next_out.0 + 1);
                            self.next_reg = Reg(self.next_reg.0 + 1);
                        }
                        let r = self.v2r[k].1;
                        proof {
                            assert(regs_below(self.v2r@, next_out.0 as int)) by {
                                assert forall|j: int| 0 <= j < self.v2r@.len() implies (#[trigger] self.v2r@[j]).1.0
                                    < next_out.0 by {
                                    if j != k as int || !root_is_enode {
                                        assert(self.v2r@[j] == old(self).v2r@[j]);
                                    }
                                }
                            }
                            assert(todo_ids(self.todo_nodes@) =~= Seq::<int>::empty());
                            assert(todo_ok(self.todo_nodes@, nv, next_out.0 as int));
                            assert(keys_of(self.v2r@) == keys0);
                        }
                        let ghost ins_t = self.instructions@;
                        let ghost vr_t = regs_view(self.v2r@);
                        self.add_todo(nodes, root, r);
                        proof {
                            assert(keys_of(self.v2r@).to_set().union(ids_vars(nv, todo_ids(self.todo_nodes@)))
                                =~= target);
                            lemma_keeps_grow(ins0, ins_t, self.instructions@, vr0, vr_t, regs_view(self.v2r@), patternbinder, sf, start);
                        }
                    },
                    None => {
                        next_out = Reg(next_out.0 + 1);
                        proof {
                            lemma_regs_mono(self.v2r@, start, next_out.0 as int);
                            assert(todo_ok(self.todo_nodes@, nv, next_out.0 as int));
                        }
                        let ghost ins_t = self.instructions@;
                        self.add_new_pattern(nodes, root);
                        let ghost keys_mid = keys_of(self.v2r@);
                        let ghost vr_m = regs_view(self.v2r@);
                        proof {
                            assert(!sf);
                            assert(ins0 == ins_t);
                            assert(compile_keeps(ins0, self.instructions@, vr0, vr_m, patternbinder, sf, start)) by {
                                assert forall|j: int, r: int| ins0.len() <= j < self.instructions@.len() && #[trigger] writes_fresh(
                                    self.instructions@[j],
                                    r,
                                ) implies r >= start by {}
                            }
                        }
                        let r = self.next_reg;
                        let ghost vt = v@;
                        let ghost keys1 = keys_of(self.v2r@).to_set();
                        proof {
                            assert(binder_set(patternbinder) =~= set![vt]);
                            assert(keys1.union(ids_vars(nv, todo_ids(self.todo_nodes@))) == keys0.to_set().union(
                                Set::<Seq<char>>::empty(),
                            ).union(tree_vars(nv, last_i as int)));
                        }
                        v2r_insert(&mut self.v2r, v, r);
                        proof {
                            assert(keys_of(self.v2r@).to_set() == keys1.insert(vt));
                            let idv = ids_vars(nv, todo_ids(self.todo_nodes@));
                            assert forall|x: Seq<char>| #[trigger] keys_of(self.v2r@).to_set().union(idv).contains(x)
                                == target.contains(x) by {
                                assert(keys1.union(idv).contains(x) == (keys0.to_set().contains(x) || tree_vars(nv, last_i as int).contains(x)));
                                assert(binder_set(patternbinder).contains(x) == (x == vt));
                            }
                            lemma_prefix_trans(keys0, keys_mid, keys_of(self.v2r@));
                            assert forall|w: Seq<char>| #[trigger] binding_of(vr0, w) is Some && not_binder(patternbinder, w)
                                implies binding_of(regs_view(self.v2r@), w) == binding_of(vr0, w) by {
                                assert(binding_of(vr_m, w) == binding_of(vr0, w));
                            }
                            assert(keys_of(self.v2r@).to_set().union(ids_vars(nv, todo_ids(self.todo_nodes@)))
                                =~= target);
                            assert(compile_keeps(ins0, self.instructions@, vr0, regs_view(self.v2r@), patternbinder, sf, start));
                        }
                    },
                }
            },
            None => {
                next_out = Reg(next_out.0 + 1);
                proof {
                    lemma_regs_mono(self.v2r@, start, next_out.0 as int);
                    assert(todo_ok(self.todo_nodes@, nv, next_out.0 as int));
                    assert(target =~= keys0.to_set().union(tree_vars(nv, last_i as int)));
                }
                let ghost t_before = self.todo_nodes@;
                self.add_new_pattern(nodes, root);
                proof {
                    assert(!sf);
                    assert(compile_keeps(ins0, self.instructions@, vr0, regs_view(self.v2r@), patternbinder, sf, start)) by {
                        assert forall|j: int, r: int| ins0.len() <= j < self.instructions@.len() && #[trigger] writes_fresh(
                            self.instructions@[j],
                            r,
                        ) implies r >= start by {}
                    }
                    if nv[last_i as int] is ENode {
                        let q = t_before.len() as int;
                        assert(self.todo_nodes@[q].0 == (Id(last_i as u32), Reg(r_root as u32)));
                        assert(pending_at(self.todo_nodes@, nv.len() - 1, r_root));
                    }
                    assert(node_owed(self.instructions@, regs_view(self.v2r@), bm, self.todo_nodes@, nv, nv.len() - 1, r_root));
                    assert(compile_owes(self.instructions@, regs_view(self.v2r@), bm, self.todo_nodes@, nv, r_root, -1, next_out.0 as int));
                }
                proof {
                    assert(keys_of(self.v2r@).to_set().union(ids_vars(nv, todo_ids(self.todo_nodes@))) =~= target);
                    assert(occ_sum(nv, Seq::<int>::empty()) == 0);
                    if nv[last_i as int] is ENode {
                        assert(Seq::<int>::empty().push(last_i as int).drop_last() =~= Seq::<int>::empty());
                        assert(todo_ids(self.todo_nodes@) == Seq::<int>::empty().push(last_i as int));
                        assert(occ_sum(nv, todo_ids(self.todo_nodes@)) == tree_var_occurrences(nv, last_i as int));
                    } else {
                        assert(node_kids(nv[last_i as int]) =~= Seq::<Id>::empty());
                        assert(tree_size(nv, last_i as int) == 1);
                        assert(tree_enodes(nv, last_i as int) == 0);
                        assert(todo_ids(self.todo_nodes@) == Seq::<int>::empty());
                    }
                }
            },
        }
        let ghost seen_base = compare_count(self.instructions@) + keys_of(self.v2r@).len() + occ_sum(
            nv,
            todo_ids(self.todo_nodes@),
        );
        proof {
            assert(patternbinder is None ==> seen_base == compare_count(ins0) + keys0.len()
                + tree_var_occurrences(nv, last_i as int));
        }
        let mut first_bind = true;
        while self.todo_nodes.len() > 0
            invariant
                track ==> compile_owes(
                    self.instructions@,
                    regs_view(self.v2r@),
                    bm,
                    self.todo_nodes@,
                    nv,
                    r_root,
                    -1,
                    next_out.0 as int,
                ),
                track == (patternbinder is None),
                compile_keeps(ins0, self.instructions@, vr0, regs_view(self.v2r@), patternbinder, sf, start),
                todo_regs_distinct(self.todo_nodes@),
                0 <= r_root < 0x1_0000_0000,
                nv == nodes_view(nodes@),
                nv == pattern@,
                ast_wf(nv),
                nodes@.len() <= 0x4000_0000,
                self.free_vars@.len() == nodes@.len(),
                self.subtree_size@.len() == nodes@.len(),
                keys_of(self.v2r@).no_duplicates(),
                regs_below(self.v2r@, next_out.0 as int),
                todo_ok(self.todo_nodes@, nv, next_out.0 as int),
                next_out.0 + weight_sum(nv, todo_ids(self.todo_nodes@)) <= bound,
                bound <= u32::MAX,
                start <= next_out.0,
                keys_of(self.v2r@).to_set().union(ids_vars(nv, todo_ids(self.todo_nodes@))) == target,
                ins0.is_prefix_of(self.instructions@),
                not_count(self.instructions@) == not_count(ins0),
                or_count(self.instructions@) == or_count(ins0),
                bind_count(self.instructions@) + enode_sum(nv, todo_ids(self.todo_nodes@)) == bind_count(ins0)
                    + tree_enodes(nv, nv.len() - 1),
                compare_count(self.instructions@) + keys_of(self.v2r@).len() + occ_sum(
                    nv,
                    todo_ids(self.todo_nodes@),
                ) == seen_base,
                keys0.is_prefix_of(keys_of(self.v2r@)),
            decreases weight_sum(nv, todo_ids(self.todo_nodes@)),
        {
            let ghost t0 = self.todo_nodes@;
            let ghost ins_top = self.instructions@;
            let ghost next_top = next_out.0 as int;
            let ghost ids0 = todo_ids(t0);
            let ghost w0 = weight_sum(nv, ids0);
            let e = self.next().unwrap();
            let ghost k = choose|k: int|
                0 <= k < t0.len() && e == t0[k] && self.todo_nodes@ == t0.update(k, t0.last()).drop_last();
            let ghost id = e.0.0.0 as int;
            let ghost ids1 = todo_ids(self.todo_nodes@);
            proof {
                assert(ids1 =~= ids0.update(k, ids0.last()).drop_last());
                assert(ids0[k] == id);
                lemma_weight_swap_remove(nv, ids0, k);
                lemma_enode_sum_swap_remove(nv, ids0, k);
                lemma_occ_sum_swap_remove(nv, ids0, k);
                lemma_vars_swap_remove(nv, ids0, k);
                assert forall|j: int| 0 <= j < ids1.len() implies 0 <= #[trigger] ids1[j] < nv.len() by {
                    if j == k {
                        assert(ids1[j] == ids0[ids0.len() - 1]);
                        assert(t0[t0.len() - 1].0.0.0 < nv.len());
                    } else {
                        assert(ids1[j] == ids0[j]);
                        assert(t0[j].0.0.0 < nv.len());
                    }
                }
                lemma_weight_nonneg(nv, ids1);
                assert(todo_ok(self.todo_nodes@, nv, next_out.0 as int)) by {
                    assert forall|j: int| 0 <= j < self.todo_nodes@.len() implies 0 <= (
                    #[trigger] self.todo_nodes@[j]).0.0.0 < nv.len() && self.todo_nodes@[j].0.1.0 < next_out.0
                        && node_matches(nv[self.todo_nodes@[j].0.0.0 as int], self.todo_nodes@[j].1) by {
                        if j == k {
                            assert(self.todo_nodes@[j] == t0[t0.len() - 1]);
                        } else {
                            assert(self.todo_nodes@[j] == t0[j]);
                        }
                    }
                }
            }
            let ((id_e, reg0), node) = e;
            let ghost kids = node.children@;
            proof {
                assert(node_matches(nv[id], node));
                assert(node_kids(nv[id]) == kids);
                assert(tree_size(nv, id) == 1 + kids_size(nv, kids, id));
                assert(tree_vars(nv, id) == kids_vars(nv, kids, id));
                assert(tree_enodes(nv, id) == 1 + crate::pattern::kids_enodes(nv, kids, id));
                assert forall|j: int| 0 <= j < kids.len() implies 0 <= (#[trigger] kids[j]).0 < id by {
                    assert(node_kids(nv[id])[j] == kids[j]);
                }
                lemma_kids_size_len(nv, kids, id);
            }
            let ghost t1 = self.todo_nodes@;
            let ghost jumped = !first_bind;
            let mut reg = reg0;
            if !first_bind {
                self.introduce_color_jump(next_out, reg);
                reg = next_out;
                next_out = Reg(next_out.0 + 1);
            } else {
                first_bind = false;
            }
            proof {
                assert(e == t0[k]);
                assert(t0[k].0.1 == reg0);
                lemma_pending_after_pop(t0, t1, self.todo_nodes@, k);
            }
            let out = next_out;
            let n_kids = node.children.len();
            next_out = Reg(next_out.0 + n_kids as u32);
            let bound_node = zeroed_node(&node);
            let ghost ins_pre = self.instructions@;
            let ghost bind = Instruction::Bind { node: bound_node, eclass: reg, out };
            self.instructions.push(Instruction::Bind { node: bound_node, eclass: reg, out });
            proof {
                lemma_not_count_push(ins_pre, bind);
                lemma_bind_count_push(ins_pre, bind);
                lemma_or_count_push(ins_pre, bind);
                lemma_compare_count_push(ins_pre, bind);
            }
            let ghost kb = ins_pre.len() as int;
            proof {
                assert forall|j: int| ins_top.len() <= j < self.instructions@.len() implies !(
                #[trigger] self.instructions@[j] is Scan) by {
                    if j < ins_pre.len() {
                        assert(self.instructions@[j] == ins_pre[j]);
                    }
                }
                assert forall|j: int, r: int| ins_top.len() <= j < self.instructions@.len() && #[trigger] writes_fresh(
                    self.instructions@[j],
                    r,
                ) implies r >= start by {
                    if j < ins_pre.len() {
                        assert(self.instructions@[j] == ins_pre[j]);
                    }
                }
                lemma_keeps_grow(
                    ins0,
                    ins_top,
                    self.instructions@,
                    vr0,
                    regs_view(self.v2r@),
                    regs_view(self.v2r@),
                    patternbinder,
                    sf,
                    start,
                );
                if track {
                    assert(ins_top.is_prefix_of(ins_pre));
                    assert(ins_top.is_prefix_of(self.instructions@));
                    assert(self.instructions@[kb] == bind);
                    if jumped {
                        assert(self.instructions@[kb - 1] == ins_pre[kb - 1]);
                    }
                    assert(reads_reg(self.instructions@, kb, t0[k].0.1.0 as int));
                    lemma_owes_after_bind(
                        ins_top,
                        self.instructions@,
                        regs_view(self.v2r@),
                        bm,
                        t0,
                        self.todo_nodes@,
                        nv,
                        r_root,
                        next_top,
                        next_out.0 as int,
                        k,
                        kb,
                    );
                    bm = bm.insert(kb, id);
                    assert(bind_shape(self.instructions@, bm, nv, kb));
                }
            }
            let ghost c1 = compare_count(self.instructions@) + keys_of(self.v2r@).len() + occ_sum(
                nv,
                todo_ids(self.todo_nodes@),
            );
            proof {
                assert(c1 + tree_var_occurrences(nv, id) == seen_base);
            }
            let ghost s0 = keys_of(self.v2r@).to_set().union(ids_vars(nv, todo_ids(self.todo_nodes@)));
            let ghost w1 = weight_sum(nv, todo_ids(self.todo_nodes@));
            let ghost e1 = enode_sum(nv, todo_ids(self.todo_nodes@));
            proof {
                lemma_regs_mono(self.v2r@, out.0 as int, next_out.0 as int);
                lemma_todo_ok_mono(self.todo_nodes@, nv, out.0 as int, next_out.0 as int);
                assert(kids.subrange(0, 0) =~= Seq::<Id>::empty());
                assert(kids_vars(nv, kids.subrange(0, 0), id) == Set::<Seq<char>>::empty());
                assert(s0.union(Set::<Seq<char>>::empty()) =~= s0);
            }
            let mut i: usize = 0;
            while i < n_kids
                invariant
                    track ==> compile_owes(
                        self.instructions@,
                        regs_view(self.v2r@),
                        bm,
                        self.todo_nodes@,
                        nv,
                        r_root,
                        kb,
                        next_out.0 as int,
                    ),
                    track ==> bm.dom().contains(kb) && bm[kb] == id && bind_shape(self.instructions@, bm, nv, kb)
                        && self.instructions@[kb]->Bind_out == out,
                    track ==> forall|j: int|
                        0 <= j < i ==> node_owed(
                            self.instructions@,
                            regs_view(self.v2r@),
                            bm,
                            self.todo_nodes@,
                            nv,
                            nv[id]->children[j].0 as int,
                            out.0 + j,
                        ),
                    todo_regs_distinct(self.todo_nodes@),
                    compile_keeps(ins0, self.instructions@, vr0, regs_view(self.v2r@), patternbinder, sf, start),
                    forall|q: int| 0 <= q < self.todo_nodes@.len() ==> (#[trigger] self.todo_nodes@[q]).0.1.0 < out.0 + i,
                    nv[id] is ENode,
                    nv[id]->children == kids,
                    0 <= r_root < 0x1_0000_0000,
                    nv.len() <= 0x4000_0000,
                    0 <= i <= n_kids,
                    n_kids == kids.len(),
                    kids == node.children@,
                    0 <= id < nv.len(),
                    forall|j: int| 0 <= j < kids.len() ==> 0 <= (#[trigger] kids[j]).0 < id,
                    nv == nodes_view(nodes@),
                    ast_wf(nv),
                    out.0 + n_kids == next_out.0,
                    next_out.0 <= u32::MAX,
                    keys_of(self.v2r@).no_duplicates(),
                    regs_below(self.v2r@, next_out.0 as int),
                    todo_ok(self.todo_nodes@, nv, next_out.0 as int),
                    keys_of(self.v2r@).to_set().union(ids_vars(nv, todo_ids(self.todo_nodes@))) == s0.union(
                        kids_vars(nv, kids.subrange(0, i as int), id),
                    ),
                    weight_sum(nv, todo_ids(self.todo_nodes@)) - w1 + i <= 2 * kids_size(
                        nv,
                        kids.subrange(0, i as int),
                        id,
                    ),
                    ins0.is_prefix_of(self.instructions@),
                    not_count(self.instructions@) == not_count(ins0),
                    or_count(self.instructions@) == or_count(ins0),
                    bind_count(self.instructions@) == bind_count(ins_pre) + 1,
                    enode_sum(nv, todo_ids(self.todo_nodes@)) - e1 == crate::pattern::kids_enodes(
                        nv,
                        kids.subrange(0, i as int),
                        id,
                    ),
                    compare_count(self.instructions@) + keys_of(self.v2r@).len() + occ_sum(
                        nv,
                        todo_ids(self.todo_nodes@),
                    ) - c1 == kids_size(nv, kids.subrange(0, i as int), id) - crate::pattern::kids_enodes(
                        nv,
                        kids.subrange(0, i as int),
                        id,
                    ),
                    keys0.is_prefix_of(keys_of(self.v2r@)),
                    self.free_vars@.len() == nodes@.len(),
                    self.subtree_size@.len() == nodes@.len(),
                decreases n_kids - i,
            {
                let child = node.children[i];
                let ghost ids_b = todo_ids(self.todo_nodes@);
                let ghost ins_b = self.instructions@;
                let ghost keys_b = keys_of(self.v2r@);
                let ghost v2r_b = self.v2r@;
                let ghost t_b = self.todo_nodes@;
                proof {
                    assert(0 <= kids[i as int].0 < id);
                }
                self.add_todo(nodes, child, Reg(out.0 + i as u32));
                proof {
                    lemma_keeps_grow(ins0, ins_b, self.instructions@, vr0, regs_view(v2r_b), regs_view(self.v2r@), patternbinder, sf, start);
                    let c = child.0 as int;
                    let r = out.0 + i;
                    assert(nv[c] == nodes@[c]@);
                    if nv[c] is Var {
                        lemma_todo_var(ins_b, self.instructions@, v2r_b, self.v2r@, nv[c]->Var_name, Reg((out.0 + i) as u32));
                        assert(t_b.is_prefix_of(self.todo_nodes@));
                    } else {
                        assert(t_b.is_prefix_of(self.todo_nodes@));
                        assert forall|w: Seq<char>| #[trigger] binding_of(regs_view(v2r_b), w) is Some implies binding_of(
                            regs_view(self.v2r@),
                            w,
                        ) == binding_of(regs_view(v2r_b), w) by {}
                        assert(self.todo_nodes@[t_b.len() as int].0 == (Id(c as u32), Reg(r as u32)));
                        assert(pending_at(self.todo_nodes@, c, r));
                    }
                    assert(todo_regs_distinct(self.todo_nodes@)) by {
                        assert forall|a: int, b: int| 0 <= a < b < self.todo_nodes@.len() implies #[trigger] self.todo_nodes@[a].0.1
                            != #[trigger] self.todo_nodes@[b].0.1 by {
                            if b < t_b.len() {
                                assert(self.todo_nodes@[a] == t_b[a] && self.todo_nodes@[b] == t_b[b]);
                            } else {
                                assert(self.todo_nodes@[a] == t_b[a]);
                                assert(t_b[a].0.1.0 < out.0 + i);
                            }
                        }
                    }
                    assert forall|q: int| 0 <= q < self.todo_nodes@.len() implies (#[trigger] self.todo_nodes@[q]).0.1.0
                        < out.0 + i + 1 by {
                        if q < t_b.len() {
                            assert(self.todo_nodes@[q] == t_b[q]);
                        }
                    }
                    if track {
                        lemma_owes_grow(
                            ins_b,
                            self.instructions@,
                            regs_view(v2r_b),
                            regs_view(self.v2r@),
                            bm,
                            t_b,
                            self.todo_nodes@,
                            nv,
                            r_root,
                            kb,
                            next_out.0 as int,
                        );
                        assert(self.instructions@[kb] == ins_b[kb]);
                        assert forall|q: int| 0 <= q < t_b.len() implies pending_at(
                            self.todo_nodes@,
                            t_b[q].0.0.0 as int,
                            t_b[q].0.1.0 as int,
                        ) || bound_at(self.instructions@, bm, t_b[q].0.0.0 as int, t_b[q].0.1.0 as int) by {
                            assert(self.todo_nodes@[q] == t_b[q]);
                            assert(self.todo_nodes@[q].0 == (Id(t_b[q].0.0.0 as int as u32), Reg(t_b[q].0.1.0 as int as u32)));
                        }
                        assert forall|j: int| 0 <= j < i + 1 implies node_owed(
                            self.instructions@,
                            regs_view(self.v2r@),
                            bm,
                            self.todo_nodes@,
                            nv,
                            nv[id]->children[j].0 as int,
                            out.0 + j,
                        ) by {
                            if j < i {
                                assert(0 <= kids[j].0 < id);
                                lemma_owed_grow(
                                    ins_b,
                                    self.instructions@,
                                    regs_view(v2r_b),
                                    regs_view(self.v2r@),
                                    bm,
                                    bm,
                                    t_b,
                                    self.todo_nodes@,
                                    nv,
                                    nv[id]->children[j].0 as int,
                                    out.0 + j,
                                );
                            } else {
                                assert(nv[id]->children[j] == child);
                            }
                        }
                    }
                }
                proof {
                    let c = child.0 as int;
                    let ks1 = kids.subrange(0, i + 1);
                    assert(ks1.drop_last() =~= kids.subrange(0, i as int));
                    assert(ks1.last() == child);
                    assert(kids_size(nv, ks1, id) == kids_size(nv, kids.subrange(0, i as int), id) + tree_size(nv, c));
                    assert(kids_vars(nv, ks1, id) == kids_vars(nv, kids.subrange(0, i as int), id).union(tree_vars(nv, c)));
                    assert(crate::pattern::kids_enodes(nv, ks1, id) == crate::pattern::kids_enodes(
                        nv,
                        kids.subrange(0, i as int),
                        id,
                    ) + tree_enodes(nv, c));
                    assert(keys_of(self.v2r@).to_set().union(ids_vars(nv, todo_ids(self.todo_nodes@))) =~= s0.union(
                        kids_vars(nv, ks1, id),
                    ));
                    if nv[c] is ENode {
                        assert(ids_b.push(c).drop_last() =~= ids_b);
                        assert(weight_sum(nv, ids_b.push(c)) == weight_sum(nv, ids_b) + node_weight(nv, c));
                        assert(enode_sum(nv, ids_b.push(c)) == enode_sum(nv, ids_b) + tree_enodes(nv, c));
                        assert(occ_sum(nv, ids_b.push(c)) == occ_sum(nv, ids_b) + tree_var_occurrences(nv, c));
                    } else {
                        assert(tree_size(nv, c) == 1);
                        assert(tree_enodes(nv, c) == 0);
                    }
                    lemma_prefix_trans(ins0, ins_b, self.instructions@);
                    lemma_prefix_trans(keys0, keys_b, keys_of(self.v2r@));
                }
                i = i + 1;
            }
            proof {
                if track {
                    lemma_owes_close(
                        self.instructions@,
                        regs_view(self.v2r@),
                        bm,
                        self.todo_nodes@,
                        nv,
                        r_root,
                        kb,
                        next_out.0 as int,
                    );
                }
                assert(kids.subrange(0, n_kids as int) =~= kids);
                assert(kids.subrange(0, 0) =~= Seq::<Id>::empty());
                assert(w1 == w0 - node_weight(nv, id));
                assert(weight_sum(nv, todo_ids(self.todo_nodes@)) < w0);
                assert forall|j: int| 0 <= j < todo_ids(self.todo_nodes@).len() implies 0 <= #[trigger] todo_ids(
                    self.todo_nodes@,
                )[j] < nv.len() by {
                    assert(todo_ids(self.todo_nodes@)[j] == self.todo_nodes@[j].0.0.0 as int);
                }
                lemma_weight_nonneg(nv, todo_ids(self.todo_nodes@));
                assert(keys_of(self.v2r@).to_set().union(ids_vars(nv, todo_ids(self.todo_nodes@))) =~= target);
            }
        }
        self.next_reg = next_out;
        proof {
            assert(todo_ids(self.todo_nodes@) =~= Seq::<int>::empty());
            assert(ids_vars(nv, Seq::<int>::empty()) =~= Set::<Seq<char>>::empty());
            assert(keys_of(self.v2r@).to_set() =~= target);
            if track {
                lemma_owes_done(self.instructions@, regs_view(self.v2r@), bm, self.todo_nodes@, nv, r_root, next_out.0 as int);
            }
        }
        Ghost(bm)

    }
}


/// A register map as variables with register numbers.
pub open spec fn regs_view(v: Seq<(Var, Reg)>) -> Seq<(Seq<char>, Id)> {
    v.map_values(|p: (Var, Reg)| (p.0@, Id(p.1.0)))
}

/// A copy of a register map.
fn copy_v2r(v2r: &Vec<(Var, Reg)>) -> (r: Vec<(Var, Reg)>)
    ensures
        keys_of(r@) == keys_of(v2r@),
        regs_view(r@) == regs_view(v2r@),
        forall|b: int| regs_below(v2r@, b) ==> regs_below(r@, b),
{
    let mut out: Vec<(Var, Reg)> = Vec::new();
    let mut i: usize = 0;
    while i < v2r.len()
        invariant
            0 <= i <= v2r@.len(),
            out@.len() == i,
            forall|j: int| 0 <= j < i ==> (#[trigger] out@[j]).0@ == v2r@[j].0@ && out@[j].1 == v2r@[j].1,
        decreases v2r@.len() - i,
    {
        out.push((v2r[i].0.clone(), v2r[i].1));
        i = i + 1;
    }
    proof {
        assert(keys_of(out@) =~= keys_of(v2r@));
        assert(regs_view(out@) =~= regs_view(v2r@));
    }
    out
}

impl Compiler {
    /// The program: the instructions, and each variable's register.
    fn extract(self) -> (r: Program)
        requires
            keys_of(self.v2r@).no_duplicates(),
        ensures
            r.instructions_spec() == self.instructions@,
            r.var_regs() == regs_view(self.v2r@),
    {
        let mut subst = Subst::with_capacity(0);
        let mut i: usize = 0;
        while i < self.v2r.len()
            invariant
                0 <= i <= self.v2r@.len(),
                keys_of(self.v2r@).no_duplicates(),
                subst@ == regs_view(self.v2r@).subrange(0, i as int),
            decreases self.v2r@.len() - i,
        {
            let v = self.v2r[i].0.clone();
            let r = self.v2r[i].1;
            proof {
                assert forall|j: int| 0 <= j < subst@.len() implies #[trigger] subst@[j].0 != v@ by {
                    assert(subst@[j].0 == keys_of(self.v2r@)[j]);
                    assert(keys_of(self.v2r@)[i as int] == v@);
                }
                crate::subst::lemma_rebind_absent(subst@, v@, Id(r.0));
            }
            subst.insert(v, Id::from(r.0 as usize));
            proof {
                assert(subst@ =~= regs_view(self.v2r@).subrange(0, i + 1));
            }
            i = i + 1;
        }
        proof {
            assert(regs_view(self.v2r@).subrange(0, self.v2r@.len() as int) =~= regs_view(self.v2r@));
        }
        Program { instructions: self.instructions, subst }
    }

    /// Compiles `pattern` (bound to `patternbinder` if given) as a program of
    /// its own that continues from this compiler's registers.
    fn compile_sub_program(&self, patternbinder: Option<Var>, pattern: &PatternAst) -> (r: Program)
        requires
            ast_wf(pattern@),
            pattern@.len() <= 0x4000_0000,
            v2r_ok(self.v2r@, self.next_reg.0 as int),
            self.next_reg.0 + 2 * pattern@.len() + 2 <= u32::MAX,
        ensures
            keys_of(self.v2r@).is_prefix_of(r.var_regs().map_values(|p: (Seq<char>, Id)| p.0)),
            r.var_regs().map_values(|p: (Seq<char>, Id)| p.0).to_set() == keys_of(self.v2r@).to_set().union(
                tree_vars(pattern@, pattern@.len() - 1),
            ).union(binder_set(patternbinder)),
            r.instructions_spec().len() > 0 && r.instructions_spec()[0] is Nop,
            bind_count(r.instructions_spec()) == crate::pattern::enode_count(pattern@),
            binder_bound(patternbinder, keys_of(self.v2r@)) ==> forall|j: int|
                0 <= j < r.instructions_spec().len() ==> !(#[trigger] r.instructions_spec()[j] is Scan),
            forall|w: Seq<char>|
                #[trigger] binding_of(regs_view(self.v2r@), w) is Some && not_binder(patternbinder, w) ==> binding_of(
                    r.var_regs(),
                    w,
                ) == binding_of(regs_view(self.v2r@), w),
            forall|j: int, x: int|
                0 <= j < r.instructions_spec().len() && #[trigger] writes_fresh(r.instructions_spec()[j], x) ==> x
                    >= self.next_reg.0,
    {
        let mut compiler = Compiler::new();
        compiler.next_reg = self.next_reg;
        compiler.v2r = copy_v2r(&self.v2r);
        compiler.instructions.push(Instruction::Nop);
        let ghost ins1 = compiler.instructions@;
        compiler.compile(patternbinder, pattern);
        let ghost keys = keys_of(compiler.v2r@);
        let p = compiler.extract();
        proof {
            assert(ins1.len() == 1);
            assert(bind_count(ins1) == 0) by {
                assert(ins1.last() is Nop);
                assert(ins1.drop_last() =~= Seq::<Instruction>::empty());
                assert(bind_count(Seq::<Instruction>::empty()) == 0);
            }
            assert forall|j: int, x: int|
                0 <= j < p.instructions_spec().len() && #[trigger] writes_fresh(p.instructions_spec()[j], x) implies x
                    >= self.next_reg.0 by {
                if j == 0 {
                    assert(p.instructions_spec()[j] == ins1[0]);
                }
            }
            if binder_bound(patternbinder, keys_of(self.v2r@)) {
                assert forall|j: int| 0 <= j < p.instructions_spec().len() implies !(#[trigger] p.instructions_spec()[j] is Scan) by {
                    if j == 0 {
                        assert(p.instructions_spec()[j] == ins1[0]);
                    }
                }
            }
            assert(p.var_regs().map_values(|q: (Seq<char>, Id)| q.0) =~= keys);
            assert(ins1[0] is Nop);
            assert(p.instructions_spec()[0] == ins1[0]);
        }
        p
    }
}

impl Program {
    /// Compiles a pattern: every variable of the pattern gets a register,
    /// each its own entry, and every e-node of the pattern gets one `Bind`.
    pub fn compile_from_pat(pattern: &PatternAst) -> (r: Program)
        requires
            ast_wf(pattern@),
            pattern@.len() <= 0x4000_0000,
        ensures
            r.var_regs().map_values(|p: (Seq<char>, Id)| p.0).to_set() == crate::pattern::pattern_vars(pattern@),
            r.var_regs().map_values(|p: (Seq<char>, Id)| p.0).no_duplicates(),
            forall|j: int| 0 <= j < r.var_regs().len() ==> (#[trigger] r.var_regs()[j]).1.0 <= 2 * pattern@.len(),
            bind_count(r.instructions_spec()) == crate::pattern::enode_count(pattern@),
            compare_count(r.instructions_spec()) + crate::pattern::pattern_vars(pattern@).len() + crate::pattern::enode_count(
                pattern@,
            ) == pattern@.len(),
            branch_free(r.instructions_spec()),
            exists|bm: Map<int, int>| #[trigger] compiled_tree(r.instructions_spec(), r.var_regs(), bm, pattern@, 0),
    {
        let mut compiler = Compiler::new();
        proof {
            assert(keys_of(compiler.v2r@) =~= Seq::<Seq<char>>::empty());
            assert(bind_count(compiler.instructions@) == 0);
            assert(compare_count(compiler.instructions@) == 0);
            assert(not_count(compiler.instructions@) == 0);
            assert(or_count(compiler.instructions@) == 0);
        }
        let ghost ins_e = compiler.instructions@;
        let ghost nr0 = compiler.next_reg.0 as int;
        let bm = compiler.compile(None, pattern);
        let ghost keys = keys_of(compiler.v2r@);
        let ghost rv = regs_view(compiler.v2r@);
        let ghost ins_c = compiler.instructions@;
        let ghost nr = compiler.next_reg.0;
        proof {
            assert(keys_of(Seq::<(Var, Reg)>::empty()).to_set() =~= Set::<Seq<char>>::empty());
            assert(binder_set(None) =~= Set::<Seq<char>>::empty());
        }
        let p = compiler.extract();
        proof {
            assert(p.var_regs().map_values(|q: (Seq<char>, Id)| q.0) =~= keys);
            assert(keys.to_set() =~= tree_vars(pattern@, pattern@.len() - 1));
            keys.unique_seq_to_set();
            assert(bind_count(p.instructions_spec()) == tree_enodes(pattern@, pattern@.len() - 1));
            assert forall|j: int| 0 <= j < p.var_regs().len() implies (#[trigger] p.var_regs()[j]).1.0 <= 2 * pattern@.len() by {
                assert(p.var_regs()[j] == rv[j]);
            }
            lemma_no_branches(p.instructions_spec());
            assert(p.instructions_spec() == ins_c);
            assert(p.var_regs() == rv);
            assert(compiled_tree(p.instructions_spec(), p.var_regs(), bm@, pattern@, nr0));
        }
        p
    }
}

/// With no `Not` and no `Or` counted, no instruction runs a sub-program.
pub proof fn lemma_no_branches(s: Seq<Instruction>)
    requires
        not_count(s) == 0,
        or_count(s) == 0,
    ensures
        branch_free(s),
    decreases s.len(),
{
    if s.len() > 0 {
        lemma_no_branches(s.drop_last());
        assert forall|k: int| 0 <= k < s.len() implies !(#[trigger] s[k] is Not) && !(s[k] is Or) by {
            if k < s.len() - 1 {
                assert(s[k] == s.drop_last()[k]);
            }
        }
    }
}


/// Whether the tree of `o` below `oi` agrees with the tree of `c` below
/// `ci` on the variables `common`: e-nodes must have the same operator and
/// agreeing children (as far as both have children), and a variable of
/// `common` must face the same variable.
pub open spec fn agree(o: Seq<PatNode>, oi: int, c: Seq<PatNode>, ci: int, common: Set<Seq<char>>) -> bool
    decreases oi, 1int,
{
    if 0 <= oi < o.len() && 0 <= ci < c.len() {
        match o[oi] {
            PatNode::ENode { op, children, .. } => match c[ci] {
                PatNode::ENode { op: cop, children: cch, .. } => op == cop && kids_agree(
                    o,
                    children,
                    c,
                    cch,
                    if children.len() <= cch.len() {
                        children.len() as int
                    } else {
                        cch.len() as int
                    },
                    common,
                    oi,
                ),
                PatNode::Var { .. } => false,
            },
            PatNode::Var { name } => !common.contains(name) || c[ci] == (PatNode::Var { name }),
        }
    } else {
        false
    }
}

/// Whether the first `n` pairs of children agree.
pub open spec fn kids_agree(
    o: Seq<PatNode>,
    ok: Seq<Id>,
    c: Seq<PatNode>,
    ck: Seq<Id>,
    n: int,
    common: Set<Seq<char>>,
    bound: int,
) -> bool
    decreases bound, 0int, n,
{
    if n <= 0 {
        true
    } else {
        kids_agree(o, ok, c, ck, n - 1, common, bound) && (0 <= ok[n - 1].0 < bound ==> agree(
            o,
            ok[n - 1].0 as int,
            c,
            ck[n - 1].0 as int,
            common,
        ))
    }
}

proof fn lemma_kids_agree_prefix(
    o: Seq<PatNode>,
    ok: Seq<Id>,
    c: Seq<PatNode>,
    ck: Seq<Id>,
    n: int,
    m: int,
    common: Set<Seq<char>>,
    bound: int,
)
    requires
        0 <= n <= m,
        kids_agree(o, ok, c, ck, m, common, bound),
    ensures
        kids_agree(o, ok, c, ck, n, common, bound),
    decreases m - n,
{
    if n < m {
        lemma_kids_agree_prefix(o, ok, c, ck, n, m - 1, common, bound);
    }
}

/// The first `n` pairs of children agree exactly when each of those pairs
/// (whose child comes before `bound`) agrees.
proof fn lemma_kids_agree_all(
    o: Seq<PatNode>,
    ok: Seq<Id>,
    c: Seq<PatNode>,
    ck: Seq<Id>,
    n: int,
    common: Set<Seq<char>>,
    bound: int,
)
    ensures
        kids_agree(o, ok, c, ck, n, common, bound) <==> forall|k: int|
            0 <= k < n && 0 <= ok[k].0 < bound ==> #[trigger] agree(o, ok[k].0 as int, c, ck[k].0 as int, common),
    decreases n,
{
    if n > 0 {
        lemma_kids_agree_all(o, ok, c, ck, n - 1, common, bound);
        let last = 0 <= ok[n - 1].0 < bound ==> agree(o, ok[n - 1].0 as int, c, ck[n - 1].0 as int, common);
        if forall|k: int|
            0 <= k < n && 0 <= ok[k].0 < bound ==> #[trigger] agree(o, ok[k].0 as int, c, ck[k].0 as int, common) {
            assert(last);
        }
        if kids_agree(o, ok, c, ck, n, common, bound) {
            assert forall|k: int| 0 <= k < n && 0 <= ok[k].0 < bound implies #[trigger] agree(
                o,
                ok[k].0 as int,
                c,
                ck[k].0 as int,
                common,
            ) by {
                if k < n - 1 {
                } else {
                    assert(last);
                }
            }
        }
    }
}

/// Two pattern trees with e-node roots agree exactly when the roots have
/// the same operator and every pair of corresponding children agrees (as
/// far as both roots have children); an e-node never agrees with a
/// variable.
pub proof fn law_agree_needs_agreeing_children(
    o: Seq<PatNode>,
    oi: int,
    c: Seq<PatNode>,
    ci: int,
    common: Set<Seq<char>>,
)
    requires
        0 <= oi < o.len(),
        0 <= ci < c.len(),
        o[oi] is ENode,
        kids_before(o),
    ensures
        c[ci] is Var ==> !agree(o, oi, c, ci, common),
        c[ci] is ENode ==> (agree(o, oi, c, ci, common) <==> (o[oi]->op == c[ci]->op && forall|k: int|
            0 <= k < o[oi]->children.len() && k < c[ci]->children.len() ==> #[trigger] agree(
                o,
                o[oi]->children[k].0 as int,
                c,
                c[ci]->children[k].0 as int,
                common,
            ))),
{
    if c[ci] is ENode {
        let ch = o[oi]->children;
        let cch = c[ci]->children;
        let n = if ch.len() <= cch.len() { ch.len() as int } else { cch.len() as int };
        lemma_kids_agree_all(o, ch, c, cch, n, common, oi);
        assert forall|k: int| 0 <= k < ch.len() implies 0 <= (#[trigger] ch[k]).0 < oi by {
            assert(node_kids(o[oi])[k] == ch[k]);
        }
    }
}

/// A variable at the root of the first tree agrees with anything unless it
/// is one of the common variables; a common variable agrees only with the
/// same variable.
pub proof fn law_agree_at_a_variable(o: Seq<PatNode>, oi: int, c: Seq<PatNode>, ci: int, common: Set<Seq<char>>)
    requires
        0 <= oi < o.len(),
        0 <= ci < c.len(),
        o[oi] is Var,
    ensures
        !common.contains(o[oi]->Var_name) ==> agree(o, oi, c, ci, common),
        common.contains(o[oi]->Var_name) ==> (agree(o, oi, c, ci, common) <==> c[ci] == o[oi]),
{
}

/// Whether the tree of `orig` below `oi` agrees with the tree of
/// `compared` below `ci` on the variables `common`.
fn patterns_agree(orig: &[ENodeOrVar], oi: usize, compared: &[ENodeOrVar], ci: usize, common: &Vec<Var>) -> (r: bool)
    requires
        oi < orig@.len(),
        ci < compared@.len(),
        kids_before(nodes_view(orig@)),
        kids_before(nodes_view(compared@)),
    ensures
        r == agree(
            nodes_view(orig@),
            oi as int,
            nodes_view(compared@),
            ci as int,
            crate::pattern::var_texts(common@).to_set(),
        ),
    decreases oi,
{
    let ghost o = nodes_view(orig@);
    let ghost c = nodes_view(compared@);
    let ghost cm = crate::pattern::var_texts(common@).to_set();
    proof {
        assert(o[oi as int] == orig@[oi as int]@);
        assert(c[ci as int] == compared@[ci as int]@);
    }
    match &orig[oi] {
        ENodeOrVar::ENode(e, _) => match &compared[ci] {
            ENodeOrVar::ENode(ce, _) => {
                if !(e.op == ce.op) {
                    return false;
                }
                let n = if e.children.len() <= ce.children.len() {
                    e.children.len()
                } else {
                    ce.children.len()
                };
                let ghost ok = e.children@;
                let ghost ck = ce.children@;
                let mut t: usize = 0;
                while t < n
                    invariant
                        0 <= t <= n,
                        n == (if ok.len() <= ck.len() {
                            ok.len()
                        } else {
                            ck.len()
                        }),
                        ok == e.children@,
                        ck == ce.children@,
                        o == nodes_view(orig@),
                        c == nodes_view(compared@),
                        node_kids(o[oi as int]) == ok,
                        node_kids(c[ci as int]) == ck,
                        oi < orig@.len(),
                        ci < compared@.len(),
                        kids_before(o),
                        kids_before(c),
                        cm == crate::pattern::var_texts(common@).to_set(),
                        kids_agree(o, ok, c, ck, t as int, cm, oi as int),
                    decreases n - t,
                {
                    proof {
                        assert(node_kids(o[oi as int])[t as int] == ok[t as int]);
                        assert(node_kids(c[ci as int])[t as int] == ck[t as int]);
                    }
                    let a = e.children[t].0 as usize;
                    let b = ce.children[t].0 as usize;
                    if !patterns_agree(orig, a, compared, b, common) {
                        proof {
                            assert(0 <= ok[t as int].0 < oi);
                            if kids_agree(o, ok, c, ck, n as int, cm, oi as int) {
                                lemma_kids_agree_prefix(o, ok, c, ck, t + 1, n as int, cm, oi as int);
                                assert(kids_agree(o, ok, c, ck, t + 1, cm, oi as int));
                                assert(agree(o, ok[t as int].0 as int, c, ck[t as int].0 as int, cm));
                                assert(false);
                            }
                            assert(o[oi as int] matches PatNode::ENode { op, children, .. } && children == ok);
                            assert(c[ci as int] matches PatNode::ENode { op, children, .. } && children == ck);
                        }
                        return false;
                    }
                    t = t + 1;
                }
                true
            },
            ENodeOrVar::Var(_) => false,
        },
        ENodeOrVar::Var(v) => {
            if !crate::pattern::contains_var(common, v) {
                return true;
            }
            match &compared[ci] {
                ENodeOrVar::Var(w) => w.same(v),
                ENodeOrVar::ENode(_, _) => false,
            }
        },
    }
}


/// The variables bound by the ordinary clauses: each clause's variable and
/// the variables of its pattern.
pub open spec fn normal_vars(asts: Seq<(Seq<char>, Seq<PatNode>)>) -> Set<Seq<char>>
    decreases asts.len(),
{
    if asts.len() == 0 {
        Set::empty()
    } else {
        normal_vars(asts.drop_last()).insert(asts.last().0).union(crate::pattern::pattern_vars(asts.last().1))
    }
}

/// The registers the ordinary clauses may take: two per node and one per
/// clause.
pub open spec fn asts_budget(asts: Seq<(Seq<char>, Seq<PatNode>)>) -> int
    decreases asts.len(),
{
    if asts.len() == 0 {
        0
    } else {
        asts_budget(asts.drop_last()) + 2 * asts.last().1.len() + 1
    }
}

/// The nodes of a list of patterns.
pub open spec fn alts_len(ps: Seq<Seq<PatNode>>) -> int
    decreases ps.len(),
{
    if ps.len() == 0 {
        0
    } else {
        alts_len(ps.drop_last()) + ps.last().len()
    }
}

/// The nodes of the alternatives.
pub open spec fn groups_len(gs: Seq<(Seq<char>, Seq<Seq<PatNode>>)>) -> int
    decreases gs.len(),
{
    if gs.len() == 0 {
        0
    } else {
        groups_len(gs.drop_last()) + alts_len(gs.last().1)
    }
}

/// The nodes of the patterns of some clauses.
pub open spec fn pairs_len(ns: Seq<(Seq<char>, Seq<PatNode>)>) -> int
    decreases ns.len(),
{
    if ns.len() == 0 {
        0
    } else {
        pairs_len(ns.drop_last()) + ns.last().1.len()
    }
}

/// A pattern the compiler takes: well formed, and of a size whose
/// registers fit.
pub open spec fn pat_ok(p: Seq<PatNode>) -> bool {
    ast_wf(p) && p.len() <= 0x4000_0000
}

/// Every pattern of the clauses is one the compiler takes.
pub open spec fn clauses_ok(
    asts: Seq<(Seq<char>, Seq<PatNode>)>,
    ors: Seq<(Seq<char>, Seq<Seq<PatNode>>)>,
    nots: Seq<(Seq<char>, Seq<PatNode>)>,
) -> bool {
    &&& forall|j: int| 0 <= j < asts.len() ==> pat_ok(#[trigger] asts[j].1)
    &&& forall|g: int, j: int| 0 <= g < ors.len() && 0 <= j < ors[g].1.len() ==> pat_ok(#[trigger] ors[g].1[j])
    &&& forall|j: int| 0 <= j < nots.len() ==> pat_ok(#[trigger] nots[j].1)
}

/// The clauses compile: there is an ordinary clause, every alternative's
/// variable is bound by the ordinary clauses, and the registers fit.
pub open spec fn multi_compiles(
    asts: Seq<(Seq<char>, Seq<PatNode>)>,
    ors: Seq<(Seq<char>, Seq<Seq<PatNode>>)>,
    nots: Seq<(Seq<char>, Seq<PatNode>)>,
) -> bool {
    &&& asts.len() > 0
    &&& forall|g: int| 0 <= g < ors.len() ==> normal_vars(asts).contains(#[trigger] ors[g].0)
    &&& asts_budget(asts) + ors.len() + 2 * (groups_len(ors) + pairs_len(nots)) + 2 <= u32::MAX
}

/// The e-nodes of the ordinary clauses' patterns.
pub open spec fn asts_enodes(asts: Seq<(Seq<char>, Seq<PatNode>)>) -> nat
    decreases asts.len(),
{
    if asts.len() == 0 {
        0
    } else {
        asts_enodes(asts.drop_last()) + crate::pattern::enode_count(asts.last().1)
    }
}

/// The variables of a list of patterns.
pub open spec fn alts_vars(ps: Seq<Seq<PatNode>>) -> Set<Seq<char>>
    decreases ps.len(),
{
    if ps.len() == 0 {
        Set::empty()
    } else {
        alts_vars(ps.drop_last()).union(crate::pattern::pattern_vars(ps.last()))
    }
}

/// The variables a group of alternatives shares with the ordinary
/// clauses: those of its alternatives, and its own variable, that the
/// ordinary clauses bind.
pub open spec fn or_shared(asts: Seq<(Seq<char>, Seq<PatNode>)>, g: (Seq<char>, Seq<Seq<PatNode>>)) -> Set<Seq<char>> {
    alts_vars(g.1).insert(g.0).intersect(normal_vars(asts))
}

/// A group of alternatives is kept unless one of its alternatives agrees,
/// on the shared variables, with an ordinary clause of the same variable.
pub open spec fn group_kept(asts: Seq<(Seq<char>, Seq<PatNode>)>, g: (Seq<char>, Seq<Seq<PatNode>>)) -> bool {
    forall|j: int, t: int|
        0 <= j < g.1.len() && 0 <= t < asts.len() ==> !(asts[t].0 == g.0 && #[trigger] agree(
            g.1[j],
            g.1[j].len() - 1,
            asts[t].1,
            asts[t].1.len() - 1,
            or_shared(asts, g),
        ))
}

/// The number of groups kept.
pub open spec fn kept_count(asts: Seq<(Seq<char>, Seq<PatNode>)>, gs: Seq<(Seq<char>, Seq<Seq<PatNode>>)>) -> nat
    decreases gs.len(),
{
    if gs.len() == 0 {
        0
    } else {
        kept_count(asts, gs.drop_last()) + if group_kept(asts, gs.last()) {
            1nat
        } else {
            0nat
        }
    }
}

proof fn lemma_kept_count(asts: Seq<(Seq<char>, Seq<PatNode>)>, gs: Seq<(Seq<char>, Seq<Seq<PatNode>>)>, flags: Seq<bool>)
    requires
        flags.len() == gs.len(),
        forall|h: int| 0 <= h < gs.len() ==> #[trigger] flags[h] == group_kept(asts, gs[h]),
    ensures
        count_true(flags) == kept_count(asts, gs),
    decreases gs.len(),
{
    if gs.len() > 0 {
        assert(flags.last() == flags[flags.len() - 1]);
        assert(gs.last() == gs[gs.len() - 1]);
        lemma_kept_count(asts, gs.drop_last(), flags.drop_last());
    }
}

/// The number of true flags.
pub open spec fn count_true(s: Seq<bool>) -> nat
    decreases s.len(),
{
    if s.len() == 0 {
        0
    } else {
        count_true(s.drop_last()) + if s.last() {
            1nat
        } else {
            0nat
        }
    }
}

proof fn lemma_count_true_set(s: Seq<bool>, k: int)
    requires
        0 <= k < s.len(),
        !s[k],
    ensures
        count_true(s.update(k, true)) == count_true(s) + 1,
    decreases s.len(),
{
    let u = s.update(k, true);
    if k == s.len() - 1 {
        assert(u.drop_last() =~= s.drop_last());
    } else {
        assert(u.drop_last() =~= s.drop_last().update(k, true));
        lemma_count_true_set(s.drop_last(), k);
    }
}

proof fn lemma_count_true_bound(s: Seq<bool>, k: int)
    requires
        0 <= k < s.len(),
        !s[k],
    ensures
        count_true(s) < s.len(),
    decreases s.len(),
{
    if k < s.len() - 1 {
        lemma_count_true_bound(s.drop_last(), k);
    } else {
        lemma_count_true_le(s.drop_last());
    }
}

proof fn lemma_count_true_le(s: Seq<bool>)
    ensures
        count_true(s) <= s.len(),
    decreases s.len(),
{
    if s.len() > 0 {
        lemma_count_true_le(s.drop_last());
    }
}

proof fn lemma_count_true_all(s: Seq<bool>)
    requires
        forall|j: int| 0 <= j < s.len() ==> #[trigger] s[j],
    ensures
        count_true(s) == s.len(),
    decreases s.len(),
{
    if s.len() > 0 {
        assert(s.last() == s[s.len() - 1]);
        lemma_count_true_all(s.drop_last());
    }
}

proof fn lemma_budget_prefix(asts: Seq<(Seq<char>, Seq<PatNode>)>, i: int)
    requires
        0 <= i <= asts.len(),
    ensures
        asts_budget(asts.subrange(0, i)) <= asts_budget(asts),
        asts_budget(asts.subrange(0, i)) >= 0,
    decreases asts.len(),
{
    if i < asts.len() {
        assert(asts.drop_last().subrange(0, i) =~= asts.subrange(0, i));
        lemma_budget_prefix(asts.drop_last(), i);
    } else {
        assert(asts.subrange(0, i) =~= asts);
        if asts.len() > 0 {
            lemma_budget_prefix(asts.drop_last(), asts.len() - 1);
            assert(asts.drop_last().subrange(0, asts.len() - 1) =~= asts.drop_last());
        }
    }
}

proof fn lemma_alts_len_elem(ps: Seq<Seq<PatNode>>, j: int)
    requires
        0 <= j < ps.len(),
    ensures
        ps[j].len() <= alts_len(ps),
        alts_len(ps) >= 0,
    decreases ps.len(),
{
    lemma_alts_len_nonneg(ps.drop_last());
    if j < ps.len() - 1 {
        assert(ps.drop_last()[j] == ps[j]);
        lemma_alts_len_elem(ps.drop_last(), j);
    }
}

proof fn lemma_alts_len_nonneg(ps: Seq<Seq<PatNode>>)
    ensures
        alts_len(ps) >= 0,
    decreases ps.len(),
{
    if ps.len() > 0 {
        lemma_alts_len_nonneg(ps.drop_last());
    }
}

proof fn lemma_groups_len_elem(gs: Seq<(Seq<char>, Seq<Seq<PatNode>>)>, g: int)
    requires
        0 <= g < gs.len(),
    ensures
        alts_len(gs[g].1) <= groups_len(gs),
    decreases gs.len(),
{
    lemma_groups_len_nonneg(gs.drop_last());
    lemma_alts_len_nonneg(gs.last().1);
    if g < gs.len() - 1 {
        lemma_groups_len_elem(gs.drop_last(), g);
    }
}

proof fn lemma_groups_len_nonneg(gs: Seq<(Seq<char>, Seq<Seq<PatNode>>)>)
    ensures
        groups_len(gs) >= 0,
    decreases gs.len(),
{
    if gs.len() > 0 {
        lemma_groups_len_nonneg(gs.drop_last());
        lemma_alts_len_nonneg(gs.last().1);
    }
}

proof fn lemma_pairs_len_elem(ns: Seq<(Seq<char>, Seq<PatNode>)>, j: int)
    requires
        0 <= j < ns.len(),
    ensures
        ns[j].1.len() <= pairs_len(ns),
    decreases ns.len(),
{
    lemma_pairs_len_nonneg(ns.drop_last());
    if j < ns.len() - 1 {
        lemma_pairs_len_elem(ns.drop_last(), j);
    }
}

proof fn lemma_pairs_len_nonneg(ns: Seq<(Seq<char>, Seq<PatNode>)>)
    ensures
        pairs_len(ns) >= 0,
    decreases ns.len(),
{
    if ns.len() > 0 {
        lemma_pairs_len_nonneg(ns.drop_last());
    }
}

/// Adds the variables of `p`'s variable nodes to `out`, each once.
fn add_pattern_vars(p: &PatternAst, out: &mut Vec<Var>)
    ensures
        crate::pattern::var_texts(final(out)@).to_set() == crate::pattern::var_texts(old(out)@).to_set().union(
            crate::pattern::pattern_vars(p@),
        ),
{
    let nodes = p.as_ref();
    let ghost nv = nodes_view(nodes@);
    let ghost start = crate::pattern::var_texts(out@).to_set();
    let mut i: usize = 0;
    proof {
        assert(crate::pattern::block_vars(nv, 0, 0) =~= Set::<Seq<char>>::empty());
    }
    while i < nodes.len()
        invariant
            0 <= i <= nodes@.len(),
            nv == nodes_view(nodes@),
            nv == p@,
            crate::pattern::var_texts(out@).to_set() == start.union(crate::pattern::block_vars(nv, 0, i as int)),
        decreases nodes@.len() - i,
    {
        proof {
            assert(nv[i as int] == nodes@[i as int]@);
        }
        let ghost pre = crate::pattern::var_texts(out@);
        match &nodes[i] {
            ENodeOrVar::Var(v) => {
                crate::pattern::push_new_var(out, v.clone());
                proof {
                    pre.lemma_push_to_set_commute(v@);
                    if pre.contains(v@) {
                        assert(pre.to_set().contains(v@));
                    }
                    assert forall|x: Seq<char>| #[trigger] crate::pattern::block_vars(nv, 0, i + 1).contains(x)
                        == (crate::pattern::block_vars(nv, 0, i as int).contains(x) || x == v@) by {
                        if crate::pattern::block_vars(nv, 0, i + 1).contains(x) {
                            let y = choose|y: int| 0 <= y < i + 1 && #[trigger] nv[y] == (PatNode::Var { name: x });
                            if y < i {
                                assert(crate::pattern::block_vars(nv, 0, i as int).contains(x));
                            }
                        }
                        if x == v@ {
                            assert(nv[i as int] == (PatNode::Var { name: x }));
                        }
                        if crate::pattern::block_vars(nv, 0, i as int).contains(x) {
                            let y = choose|y: int| 0 <= y < i && #[trigger] nv[y] == (PatNode::Var { name: x });
                            assert(nv[y] == (PatNode::Var { name: x }));
                        }
                    }
                    assert(crate::pattern::var_texts(out@).to_set() =~= start.union(
                        crate::pattern::block_vars(nv, 0, i + 1),
                    ));
                }
            },
            ENodeOrVar::ENode(_, _) => {
                proof {
                    assert forall|x: Seq<char>| #[trigger] crate::pattern::block_vars(nv, 0, i + 1).contains(x)
                        == crate::pattern::block_vars(nv, 0, i as int).contains(x) by {
                        if crate::pattern::block_vars(nv, 0, i + 1).contains(x) {
                            let y = choose|y: int| 0 <= y < i + 1 && #[trigger] nv[y] == (PatNode::Var { name: x });
                            assert(y != i);
                        }
                        if crate::pattern::block_vars(nv, 0, i as int).contains(x) {
                            let y = choose|y: int| 0 <= y < i && #[trigger] nv[y] == (PatNode::Var { name: x });
                            assert(nv[y] == (PatNode::Var { name: x }));
                        }
                    }
                    assert(crate::pattern::var_texts(out@).to_set() =~= start.union(
                        crate::pattern::block_vars(nv, 0, i + 1),
                    ));
                }
            },
        }
        i = i + 1;
    }
}

/// The variables of `cands` that are among `with`.
fn keep_among(cands: &Vec<Var>, with: &Vec<Var>) -> (r: Vec<Var>)
    ensures
        crate::pattern::var_texts(r@).to_set() == crate::pattern::var_texts(cands@).to_set().intersect(
            crate::pattern::var_texts(with@).to_set(),
        ),
{
    let ghost c = crate::pattern::var_texts(cands@);
    let ghost w = crate::pattern::var_texts(with@).to_set();
    let mut out: Vec<Var> = Vec::new();
    let mut i: usize = 0;
    while i < cands.len()
        invariant
            0 <= i <= cands@.len(),
            c == crate::pattern::var_texts(cands@),
            w == crate::pattern::var_texts(with@).to_set(),
            crate::pattern::var_texts(out@).to_set() == c.subrange(0, i as int).to_set().intersect(w),
        decreases cands@.len() - i,
    {
        let ghost pre = crate::pattern::var_texts(out@);
        let ghost x = c[i as int];
        proof {
            assert(c.subrange(0, i + 1) =~= c.subrange(0, i as int).push(x));
            c.subrange(0, i as int).lemma_push_to_set_commute(x);
        }
        if crate::pattern::contains_var(with, &cands[i]) {
            proof {
                assert(w.contains(x));
            }
            out.push(cands[i].clone());
            proof {
                assert(crate::pattern::var_texts(out@) =~= pre.push(x));
                pre.lemma_push_to_set_commute(x);
                assert(crate::pattern::var_texts(out@).to_set() =~= c.subrange(0, i + 1).to_set().intersect(w));
            }
        } else {
            proof {
                assert(!w.contains(x)) by {
                    if w.contains(x) {
                        let j = choose|j: int| 0 <= j < crate::pattern::var_texts(with@).len() && crate::pattern::var_texts(with@)[j] == x;
                        assert(crate::pattern::var_texts(with@).contains(x));
                    }
                }
                assert(crate::pattern::var_texts(out@).to_set() =~= c.subrange(0, i + 1).to_set().intersect(w));
            }
        }
        i = i + 1;
    }
    proof {
        assert(c.subrange(0, cands@.len() as int) =~= c);
    }
    out
}

/// Whether every variable of `vars` has a register.
fn all_bound(vars: &Vec<Var>, v2r: &Vec<(Var, Reg)>) -> (r: bool)
    ensures
        r == crate::pattern::var_texts(vars@).to_set().subset_of(keys_of(v2r@).to_set()),
{
    let ghost t = crate::pattern::var_texts(vars@);
    let mut i: usize = 0;
    while i < vars.len()
        invariant
            0 <= i <= vars@.len(),
            t == crate::pattern::var_texts(vars@),
            forall|j: int| 0 <= j < i ==> keys_of(v2r@).contains(#[trigger] t[j]),
        decreases vars@.len() - i,
    {
        if !v2r_contains(v2r, &vars[i]) {
            proof {
                assert(t.to_set().contains(t[i as int]));
                assert(!keys_of(v2r@).to_set().contains(t[i as int]));
            }
            return false;
        }
        i = i + 1;
    }
    proof {
        assert forall|x: Seq<char>| t.to_set().contains(x) implies keys_of(v2r@).to_set().contains(x) by {
            let j = choose|j: int| 0 <= j < t.len() && t[j] == x;
            assert(keys_of(v2r@).contains(t[j]));
        }
    }
    true
}


/// A negated clause `b != clause` compiled as `sub` runs only once the
/// variables it shares with the ordinary clauses (`normal`) have registers:
/// when `b` is one of them the sub-program scans for no class, and every
/// other shared variable of the clause is read from a register that the
/// sub-program never fills itself.
pub open spec fn negation_ready(sub: Program, b: Seq<char>, clause: Seq<PatNode>, normal: Set<Seq<char>>) -> bool {
    &&& normal.contains(b) ==> forall|j: int|
        0 <= j < sub.instructions_spec().len() ==> !(#[trigger] sub.instructions_spec()[j] is Scan)
    &&& forall|w: Seq<char>|
        #[trigger] crate::pattern::pattern_vars(clause).contains(w) && normal.contains(w) && w != b ==> reads_outer(sub, w)
}

/// Variable `w` has a register in `sub` that no instruction of `sub` fills
/// with a class it finds.
pub open spec fn reads_outer(sub: Program, w: Seq<char>) -> bool {
    &&& binding_of(sub.var_regs(), w) is Some
    &&& forall|j: int|
        0 <= j < sub.instructions_spec().len() ==> !writes_fresh(
            #[trigger] sub.instructions_spec()[j],
            (binding_of(sub.var_regs(), w)->0).0 as int,
        )
}

/// Negated clause `h`, once `done[h]`, is the `Not` at `pos[h]` of `ins`,
/// each at its own position, whose sub-program binds one e-node for each
/// e-node of the clause and is ready as `negation_ready` says.
pub open spec fn nots_placed(
    ins: Seq<Instruction>,
    pos: Seq<int>,
    nots: Seq<(Seq<char>, Seq<PatNode>)>,
    normal: Set<Seq<char>>,
    done: Seq<bool>,
) -> bool {
    &&& pos.len() == nots.len()
    &&& done.len() == nots.len()
    &&& forall|h: int|
        0 <= h < nots.len() && #[trigger] done[h] ==> 0 <= pos[h] < ins.len() && ins[pos[h]] is Not && bind_count(
            ins[pos[h]]->Not_sub_prog.instructions_spec(),
        ) == crate::pattern::enode_count(nots[h].1) && negation_ready(
            ins[pos[h]]->Not_sub_prog,
            nots[h].0,
            nots[h].1,
            normal,
        )
    &&& forall|a: int, b: int|
        0 <= a < nots.len() && 0 <= b < nots.len() && a != b && #[trigger] done[a] && #[trigger] done[b] ==> pos[a]
            != pos[b]
}

/// Every negated clause of `nots` is its own `Not` instruction of `ins`,
/// placed where the variables it shares with `normal` have registers.
pub open spec fn negations_placed(
    ins: Seq<Instruction>,
    nots: Seq<(Seq<char>, Seq<PatNode>)>,
    normal: Set<Seq<char>>,
) -> bool {
    exists|pos: Seq<int>| #[trigger] nots_placed(ins, pos, nots, normal, all_marked(nots.len()))
}

/// `n` marks, all set.
pub open spec fn all_marked(n: nat) -> Seq<bool> {
    Seq::new(n, |h: int| true)
}

proof fn lemma_placed_push(
    ins: Seq<Instruction>,
    x: Instruction,
    pos: Seq<int>,
    nots: Seq<(Seq<char>, Seq<PatNode>)>,
    normal: Set<Seq<char>>,
    done: Seq<bool>,
)
    requires
        nots_placed(ins, pos, nots, normal, done),
    ensures
        nots_placed(ins.push(x), pos, nots, normal, done),
{
    assert forall|h: int| 0 <= h < nots.len() && #[trigger] done[h] implies ins.push(x)[pos[h]] == ins[pos[h]] by {}
}

proof fn lemma_placed_prefix(
    ins: Seq<Instruction>,
    ins2: Seq<Instruction>,
    pos: Seq<int>,
    nots: Seq<(Seq<char>, Seq<PatNode>)>,
    normal: Set<Seq<char>>,
    done: Seq<bool>,
)
    requires
        nots_placed(ins, pos, nots, normal, done),
        ins.is_prefix_of(ins2),
    ensures
        nots_placed(ins2, pos, nots, normal, done),
{
    assert forall|h: int| 0 <= h < nots.len() && #[trigger] done[h] implies ins2[pos[h]] == ins[pos[h]] by {
        assert(ins2.subrange(0, ins.len() as int)[pos[h]] == ins2[pos[h]]);
    }
}

/// A sub-program compiled from the registers `v2r` (below `nr`), that keeps
/// the other variables' registers, fills only registers from `nr` on, and
/// scans nothing when the binder `b` has a register, is ready as a negation
/// once every variable of `b != clause` shared with `normal` has a register.
proof fn lemma_negation_ready(
    v2r: Seq<(Var, Reg)>,
    nr: int,
    sub: Program,
    b: Seq<char>,
    clause: Seq<PatNode>,
    normal: Set<Seq<char>>,
)
    requires
        v2r_ok(v2r, nr),
        crate::pattern::pattern_vars(clause).insert(b).intersect(normal).subset_of(keys_of(v2r).to_set()),
        keys_of(v2r).contains(b) ==> forall|j: int|
            0 <= j < sub.instructions_spec().len() ==> !(#[trigger] sub.instructions_spec()[j] is Scan),
        forall|w: Seq<char>|
            #[trigger] binding_of(regs_view(v2r), w) is Some && w != b ==> binding_of(sub.var_regs(), w) == binding_of(
                regs_view(v2r),
                w,
            ),
        forall|j: int, x: int|
            0 <= j < sub.instructions_spec().len() && #[trigger] writes_fresh(sub.instructions_spec()[j], x) ==> x >= nr,
    ensures
        negation_ready(sub, b, clause, normal),
{
    if normal.contains(b) {
        assert(crate::pattern::pattern_vars(clause).insert(b).intersect(normal).contains(b));
        assert(keys_of(v2r).to_set().contains(b));
    }
    assert forall|w: Seq<char>|
        #[trigger] crate::pattern::pattern_vars(clause).contains(w) && normal.contains(w) && w != b implies reads_outer(
        sub,
        w,
    ) by {
        assert(crate::pattern::pattern_vars(clause).insert(b).intersect(normal).contains(w));
        assert(keys_of(v2r).to_set().contains(w));
        let k = choose|k: int| 0 <= k < keys_of(v2r).len() && keys_of(v2r)[k] == w;
        lemma_regs_binding(v2r, k);
        assert(v2r[k].1.0 < nr);
        assert(binding_of(sub.var_regs(), w) == Some(Id(v2r[k].1.0)));
    }
}

impl Program {
    /// Compiles a multipattern. The ordinary clauses are compiled in order,
    /// each bound to its variable. After each, every group of alternatives
    /// whose variables shared with the ordinary clauses all have registers
    /// is compiled into an `Or` (once; a group is dropped if one of its
    /// alternatives agrees with an ordinary clause of the same variable), and
    /// likewise every negated clause into a `Not`. Afterwards the ordinary
    /// clauses' variables have registers, each e-node of an ordinary clause
    /// has one `Bind`, each kept group one `Or`, and every negated clause has been
    /// compiled once.
    pub fn compile_from_multi_pat(
        patterns: &Vec<(Var, PatternAst)>,
        or_patterns: &Vec<(Var, Vec<PatternAst>)>,
        not_patterns: &Vec<(Var, PatternAst)>,
    ) -> (r: Program)
        requires
            clauses_ok(pairs_view(patterns@), groups_view(or_patterns@), pairs_view(not_patterns@)),
            multi_compiles(pairs_view(patterns@), groups_view(or_patterns@), pairs_view(not_patterns@)),
        ensures
            r.var_regs().map_values(|p: (Seq<char>, Id)| p.0).to_set() == normal_vars(pairs_view(patterns@)),
            r.var_regs().map_values(|p: (Seq<char>, Id)| p.0).no_duplicates(),
            not_count(r.instructions_spec()) == not_patterns@.len(),
            bind_count(r.instructions_spec()) == asts_enodes(pairs_view(patterns@)),
            or_count(r.instructions_spec()) == kept_count(pairs_view(patterns@), groups_view(or_patterns@)),
            negations_placed(r.instructions_spec(), pairs_view(not_patterns@), normal_vars(pairs_view(patterns@))),
    {
        let ghost pv = pairs_view(patterns@);
        let ghost gv = groups_view(or_patterns@);
        let ghost nv = pairs_view(not_patterns@);
        let ghost all = normal_vars(pv);
        let mut compiler = Compiler::new();
        proof {
            lemma_budget_prefix(pv, 0);
            lemma_groups_len_nonneg(gv);
            lemma_pairs_len_nonneg(nv);
        }
        // The variables of the ordinary clauses.
        let mut normal: Vec<Var> = Vec::new();
        let mut i: usize = 0;
        proof {
            assert(pv.subrange(0, 0) =~= Seq::<(Seq<char>, Seq<PatNode>)>::empty());
            assert(crate::pattern::var_texts(normal@).to_set() =~= Set::<Seq<char>>::empty());
        }
        while i < patterns.len()
            invariant
                0 <= i <= patterns@.len(),
                pv == pairs_view(patterns@),
                crate::pattern::var_texts(normal@).to_set() == normal_vars(pv.subrange(0, i as int)),
            decreases patterns@.len() - i,
        {
            let ghost pre = crate::pattern::var_texts(normal@);
            crate::pattern::push_new_var(&mut normal, patterns[i].0.clone());
            proof {
                pre.lemma_push_to_set_commute(patterns@[i as int].0@);
                if pre.contains(patterns@[i as int].0@) {
                    assert(pre.to_set().contains(patterns@[i as int].0@));
                }
            }
            add_pattern_vars(&patterns[i].1, &mut normal);
            proof {
                let q = pv.subrange(0, i + 1);
                assert(q.drop_last() =~= pv.subrange(0, i as int));
                assert(q.last() == pv[i as int]);
                assert(crate::pattern::var_texts(normal@).to_set() =~= normal_vars(q));
            }
            i = i + 1;
        }
        proof {
            assert(pv.subrange(0, pv.len() as int) =~= pv);
        }
        // For each group of alternatives, the variables it shares with the
        // ordinary clauses.
        let mut or_common: Vec<Vec<Var>> = Vec::new();
        let mut g: usize = 0;
        while g < or_patterns.len()
            invariant
                0 <= g <= or_patterns@.len(),
                gv == groups_view(or_patterns@),
                crate::pattern::var_texts(normal@).to_set() == all,
                all == normal_vars(pv),
                multi_compiles(pv, gv, nv),
                or_common@.len() == g,
                forall|h: int|
                    0 <= h < g ==> crate::pattern::var_texts((#[trigger] or_common@[h])@).to_set().contains(gv[h].0),
                forall|h: int|
                    0 <= h < g ==> crate::pattern::var_texts((#[trigger] or_common@[h])@).to_set() == or_shared(pv, gv[h]),
            decreases or_patterns@.len() - g,
        {
            let mut cands: Vec<Var> = Vec::new();
            let alts = &or_patterns[g].1;
            let ghost ps = gv[g as int].1;
            proof {
                assert(ps.subrange(0, 0) =~= Seq::<Seq<PatNode>>::empty());
                assert(crate::pattern::var_texts(cands@).to_set() =~= Set::<Seq<char>>::empty());
            }
            let mut j: usize = 0;
            while j < alts.len()
                invariant
                    0 <= j <= alts@.len(),
                    alts == &or_patterns@[g as int].1,
                    0 <= g < or_patterns@.len(),
                    gv == groups_view(or_patterns@),
                    ps == gv[g as int].1,
                    crate::pattern::var_texts(cands@).to_set() == alts_vars(ps.subrange(0, j as int)),
                decreases alts@.len() - j,
            {
                add_pattern_vars(&alts[j], &mut cands);
                proof {
                    let q = ps.subrange(0, j + 1);
                    assert(q.drop_last() =~= ps.subrange(0, j as int));
                    assert(q.last() == alts@[j as int]@);
                }
                j = j + 1;
            }
            proof {
                assert(ps.subrange(0, alts@.len() as int) =~= ps);
            }
            let ghost pre = crate::pattern::var_texts(cands@);
            let ghost ov = or_patterns@[g as int].0@;
            crate::pattern::push_new_var(&mut cands, or_patterns[g].0.clone());
            proof {
                pre.lemma_push_to_set_commute(ov);
                if !pre.contains(ov) {
                    assert(crate::pattern::var_texts(cands@) == pre.push(ov));
                    assert(pre.push(ov)[pre.len() as int] == ov);
                }
                assert(crate::pattern::var_texts(cands@).contains(ov));
                assert(crate::pattern::var_texts(cands@).to_set().contains(ov));
                assert(gv[g as int].0 == ov);
                assert(all.contains(ov));
                assert(crate::pattern::var_texts(cands@).to_set() =~= alts_vars(ps).insert(ov));
            }
            let common = keep_among(&cands, &normal);
            proof {
                assert(crate::pattern::var_texts(common@).to_set() =~= or_shared(pv, gv[g as int]));
            }
            or_common.push(common);
            g = g + 1;
        }
        // The variables of the ordinary clauses and of the alternatives.
        let mut ext = normal;
        let mut g: usize = 0;
        while g < or_patterns.len()
            invariant
                0 <= g <= or_patterns@.len(),
                gv == groups_view(or_patterns@),
                all == normal_vars(pv),
                multi_compiles(pv, gv, nv),
                crate::pattern::var_texts(ext@).to_set() == all,
            decreases or_patterns@.len() - g,
        {
            let ghost pre = crate::pattern::var_texts(ext@);
            let ghost ov = or_patterns@[g as int].0@;
            crate::pattern::push_new_var(&mut ext, or_patterns[g].0.clone());
            proof {
                pre.lemma_push_to_set_commute(ov);
                assert(gv[g as int].0 == ov);
                assert(all.contains(ov));
                if pre.contains(ov) {
                    assert(pre.to_set().contains(ov));
                }
                assert(crate::pattern::var_texts(ext@).to_set() =~= all);
            }
            g = g + 1;
        }
        // For each negated clause, the variables it shares.
        let mut not_common: Vec<Vec<Var>> = Vec::new();
        let mut n: usize = 0;
        while n < not_patterns.len()
            invariant
                0 <= n <= not_patterns@.len(),
                nv == pairs_view(not_patterns@),
                crate::pattern::var_texts(ext@).to_set() == all,
                not_common@.len() == n,
                forall|h: int|
                    0 <= h < n ==> crate::pattern::var_texts((#[trigger] not_common@[h])@).to_set().subset_of(all),
                forall|h: int|
                    0 <= h < n ==> crate::pattern::var_texts((#[trigger] not_common@[h])@).to_set()
                        == crate::pattern::pattern_vars(nv[h].1).insert(nv[h].0).intersect(all),
            decreases not_patterns@.len() - n,
        {
            let mut cands: Vec<Var> = Vec::new();
            proof {
                assert(crate::pattern::var_texts(cands@).to_set() =~= Set::<Seq<char>>::empty());
            }
            add_pattern_vars(&not_patterns[n].1, &mut cands);
            let ghost pre = crate::pattern::var_texts(cands@);
            let ghost bv = not_patterns@[n as int].0@;
            crate::pattern::push_new_var(&mut cands, not_patterns[n].0.clone());
            proof {
                pre.lemma_push_to_set_commute(bv);
                if pre.contains(bv) {
                    assert(pre.to_set().contains(bv));
                }
                assert(nv[n as int] == (bv, not_patterns@[n as int].1@));
                assert(crate::pattern::var_texts(cands@).to_set() =~= crate::pattern::pattern_vars(nv[n as int].1).insert(
                    nv[n as int].0,
                ));
            }
            let common = keep_among(&cands, &ext);
            not_common.push(common);
            proof {
                assert(not_common@[n as int] == common);
            }
            n = n + 1;
        }
        // The groups kept: those none of whose alternatives agrees with an
        // ordinary clause of the same variable.
        let mut keep: Vec<bool> = Vec::new();
        let mut g: usize = 0;
        while g < or_patterns.len()
            invariant
                0 <= g <= or_patterns@.len(),
                keep@.len() == g,
                gv == groups_view(or_patterns@),
                pv == pairs_view(patterns@),
                clauses_ok(pv, gv, nv),
                or_common@.len() == or_patterns@.len(),
                forall|h: int|
                    0 <= h < or_patterns@.len() ==> crate::pattern::var_texts((#[trigger] or_common@[h])@).to_set()
                        == or_shared(pv, gv[h]),
                forall|h: int| 0 <= h < g ==> #[trigger] keep@[h] == group_kept(pv, gv[h]),
            decreases or_patterns@.len() - g,
        {
            let alts = &or_patterns[g].1;
            let ghost grp = gv[g as int];
            let ghost sh = or_shared(pv, grp);
            let mut kept = true;
            let mut j: usize = 0;
            while j < alts.len()
                invariant
                    0 <= j <= alts@.len(),
                    alts == &or_patterns@[g as int].1,
                    0 <= g < or_patterns@.len(),
                    gv == groups_view(or_patterns@),
                    pv == pairs_view(patterns@),
                    clauses_ok(pv, gv, nv),
                    or_common@.len() == or_patterns@.len(),
                    grp == gv[g as int],
                    sh == or_shared(pv, grp),
                    crate::pattern::var_texts(or_common@[g as int]@).to_set() == sh,
                    kept == forall|jj: int, t: int|
                        0 <= jj < j && 0 <= t < pv.len() ==> !(pv[t].0 == grp.0 && #[trigger] agree(
                            grp.1[jj],
                            grp.1[jj].len() - 1,
                            pv[t].1,
                            pv[t].1.len() - 1,
                            sh,
                        )),
                decreases alts@.len() - j,
            {
                let ghost kept0 = kept;
                let p = alts[j].as_ref();
                proof {
                    assert(gv[g as int].1[j as int] == alts@[j as int]@);
                    assert(pat_ok(gv[g as int].1[j as int]));
                }
                let mut t: usize = 0;
                while t < patterns.len()
                    invariant
                        0 <= t <= patterns@.len(),
                        pv == pairs_view(patterns@),
                        clauses_ok(pv, gv, nv),
                        0 <= j < alts@.len(),
                        alts == &or_patterns@[g as int].1,
                        nodes_view(p@) == alts@[j as int]@,
                        pat_ok(nodes_view(p@)),
                        g < or_common@.len(),
                        or_common@.len() == or_patterns@.len(),
                        gv == groups_view(or_patterns@),
                        grp == gv[g as int],
                        grp.1[j as int] == nodes_view(p@),
                        crate::pattern::var_texts(or_common@[g as int]@).to_set() == sh,
                        kept == (kept0 && forall|tt: int|
                            0 <= tt < t ==> !(pv[tt].0 == grp.0 && #[trigger] agree(
                                grp.1[j as int],
                                grp.1[j as int].len() - 1,
                                pv[tt].1,
                                pv[tt].1.len() - 1,
                                sh,
                            ))),
                    decreases patterns@.len() - t,
                {
                    let q = patterns[t].1.as_ref();
                    proof {
                        assert(pv[t as int].1 == patterns@[t as int].1@);
                        assert(pat_ok(pv[t as int].1));
                        assert(pv[t as int].0 == patterns@[t as int].0@);
                        assert(grp.0 == or_patterns@[g as int].0@);
                    }
                    if patterns[t].0.same(&or_patterns[g].0) && patterns_agree(p, p.len() - 1, q, q.len() - 1, &or_common[g]) {
                        kept = false;
                    }
                    t = t + 1;
                }
                proof {
                    assert(kept == forall|jj: int, tt: int|
                        0 <= jj < j + 1 && 0 <= tt < pv.len() ==> !(pv[tt].0 == grp.0 && #[trigger] agree(
                            grp.1[jj],
                            grp.1[jj].len() - 1,
                            pv[tt].1,
                            pv[tt].1.len() - 1,
                            sh,
                        )));
                }
                j = j + 1;
            }
            proof {
                assert(grp.1.len() == alts@.len());
                assert(kept == group_kept(pv, grp));
            }
            keep.push(kept);
            g = g + 1;
        }
        // The ordinary clauses, each followed by what became ready.
        let mut or_done: Vec<bool> = Vec::new();
        let mut g: usize = 0;
        while g < or_patterns.len()
            invariant
                0 <= g <= or_patterns@.len(),
                or_done@.len() == g,
                count_true(or_done@) == 0,
                forall|h: int| 0 <= h < g ==> !(#[trigger] or_done@[h]),
            decreases or_patterns@.len() - g,
        {
            proof {
                assert(or_done@.push(false).drop_last() =~= or_done@);
            }
            or_done.push(false);
            g = g + 1;
        }
        let mut not_done: Vec<bool> = Vec::new();
        let mut n: usize = 0;
        while n < not_patterns.len()
            invariant
                0 <= n <= not_patterns@.len(),
                not_done@.len() == n,
                count_true(not_done@) == 0,
                forall|h: int| 0 <= h < n ==> !(#[trigger] not_done@[h]),
            decreases not_patterns@.len() - n,
        {
            proof {
                assert(not_done@.push(false).drop_last() =~= not_done@);
            }
            not_done.push(false);
            n = n + 1;
        }
        let mut i: usize = 0;
        let ghost mut pos: Seq<int> = Seq::new(nv.len(), |h: int| 0int);
        proof {
            assert(nots_placed(compiler.instructions@, pos, nv, all, not_done@));
            assert(keys_of(compiler.v2r@).to_set() =~= Set::<Seq<char>>::empty());
            assert(normal_vars(pv.subrange(0, 0)) == Set::<Seq<char>>::empty()) by {
                assert(pv.subrange(0, 0) =~= Seq::<(Seq<char>, Seq<PatNode>)>::empty());
            }
            assert(asts_budget(pv.subrange(0, 0)) == 0) by {
                assert(pv.subrange(0, 0) =~= Seq::<(Seq<char>, Seq<PatNode>)>::empty());
            }
            assert(not_count(compiler.instructions@) == 0) by {
                assert(compiler.instructions@ =~= Seq::<Instruction>::empty());
            }
            assert(bind_count(compiler.instructions@) == 0) by {
                assert(compiler.instructions@ =~= Seq::<Instruction>::empty());
            }
            assert(or_count(compiler.instructions@) == 0) by {
                assert(compiler.instructions@ =~= Seq::<Instruction>::empty());
            }
            assert(asts_enodes(pv.subrange(0, 0)) == 0) by {
                assert(pv.subrange(0, 0) =~= Seq::<(Seq<char>, Seq<PatNode>)>::empty());
            }
            assert(keys_of(compiler.v2r@) =~= Seq::<Seq<char>>::empty());
        }
        while i < patterns.len()
            invariant
                0 <= i <= patterns@.len(),
                pv == pairs_view(patterns@),
                gv == groups_view(or_patterns@),
                nv == pairs_view(not_patterns@),
                all == normal_vars(pv),
                clauses_ok(pv, gv, nv),
                multi_compiles(pv, gv, nv),
                asts_budget(pv) >= 0,
                groups_len(gv) >= 0,
                pairs_len(nv) >= 0,
                compiler.todo_nodes@.len() == 0,
                v2r_ok(compiler.v2r@, compiler.next_reg.0 as int),
                keys_of(compiler.v2r@).to_set() == normal_vars(pv.subrange(0, i as int)),
                compiler.next_reg.0 <= asts_budget(pv.subrange(0, i as int)) + count_true(or_done@),
                or_done@.len() == or_patterns@.len(),
                not_done@.len() == not_patterns@.len(),
                keep@.len() == or_patterns@.len(),
                or_common@.len() == or_patterns@.len(),
                not_common@.len() == not_patterns@.len(),
                not_count(compiler.instructions@) == count_true(not_done@),
                bind_count(compiler.instructions@) == asts_enodes(pv.subrange(0, i as int)),
                or_count(compiler.instructions@) == count_true(or_done@),
                forall|h: int| 0 <= h < or_patterns@.len() ==> #[trigger] keep@[h] == group_kept(pv, gv[h]),
                forall|h: int| 0 <= h < or_patterns@.len() ==> #[trigger] or_done@[h] ==> keep@[h],
                forall|h: int|
                    0 <= h < or_patterns@.len() ==> crate::pattern::var_texts((#[trigger] or_common@[h])@).to_set()
                        == or_shared(pv, gv[h]),
                i > 0 ==> forall|h: int|
                    0 <= h < or_patterns@.len() ==> #[trigger] or_done@[h] || !keep@[h] || !crate::pattern::var_texts(
                        or_common@[h]@,
                    ).to_set().subset_of(keys_of(compiler.v2r@).to_set()),
                forall|h: int|
                    0 <= h < or_patterns@.len() ==> crate::pattern::var_texts((#[trigger] or_common@[h])@).to_set().contains(
                        gv[h].0,
                    ),
                forall|h: int|
                    0 <= h < not_patterns@.len() ==> crate::pattern::var_texts(
                        (#[trigger] not_common@[h])@,
                    ).to_set().subset_of(all),
                forall|h: int|
                    0 <= h < not_patterns@.len() ==> crate::pattern::var_texts((#[trigger] not_common@[h])@).to_set()
                        == crate::pattern::pattern_vars(nv[h].1).insert(nv[h].0).intersect(all),
                nots_placed(compiler.instructions@, pos, nv, all, not_done@),
                i > 0 ==> forall|h: int|
                    0 <= h < not_patterns@.len() ==> #[trigger] not_done@[h] || !crate::pattern::var_texts(
                        not_common@[h]@,
                    ).to_set().subset_of(keys_of(compiler.v2r@).to_set()),
            decreases patterns@.len() - i,
        {
            proof {
                assert(pv[i as int].1 == patterns@[i as int].1@);
                assert(pat_ok(pv[i as int].1));
                lemma_budget_prefix(pv, i + 1);
                let q = pv.subrange(0, i + 1);
                assert(q.drop_last() =~= pv.subrange(0, i as int));
                assert(q.last() == pv[i as int]);
                lemma_count_true_le(or_done@);
            }
            let ghost keys_before = keys_of(compiler.v2r@).to_set();
            let ghost ins_before = compiler.instructions@;
            compiler.compile(Some(patterns[i].0.clone()), &patterns[i].1);
            proof {
                lemma_placed_prefix(ins_before, compiler.instructions@, pos, nv, all, not_done@);
            }
            let ghost keys_now = keys_of(compiler.v2r@).to_set();
            let ghost binds_now = bind_count(compiler.instructions@);
            proof {
                let q = pv.subrange(0, i + 1);
                assert(keys_now =~= normal_vars(q));
                assert(binds_now == asts_enodes(q));
            }
            // Groups of alternatives that became ready.
            let mut g: usize = 0;
            while g < or_patterns.len()
                invariant
                    0 <= g <= or_patterns@.len(),
                    0 <= i < patterns@.len(),
                    gv == groups_view(or_patterns@),
                    nv == pairs_view(not_patterns@),
                    pv == pairs_view(patterns@),
                    clauses_ok(pv, gv, nv),
                    multi_compiles(pv, gv, nv),
                    asts_budget(pv) >= 0,
                    groups_len(gv) >= 0,
                    pairs_len(nv) >= 0,
                    asts_budget(pv.subrange(0, i + 1)) <= asts_budget(pv),
                    compiler.todo_nodes@.len() == 0,
                    v2r_ok(compiler.v2r@, compiler.next_reg.0 as int),
                    keys_of(compiler.v2r@).to_set() == keys_now,
                    compiler.next_reg.0 <= asts_budget(pv.subrange(0, i + 1)) + count_true(or_done@),
                    or_done@.len() == or_patterns@.len(),
                    keep@.len() == or_patterns@.len(),
                    or_common@.len() == or_patterns@.len(),
                    not_count(compiler.instructions@) == count_true(not_done@),
                    bind_count(compiler.instructions@) == binds_now,
                    forall|h: int|
                        0 <= h < or_patterns@.len() ==> crate::pattern::var_texts((#[trigger] or_common@[h])@).to_set().contains(
                            gv[h].0,
                        ),
                    or_count(compiler.instructions@) == count_true(or_done@),
                    nots_placed(compiler.instructions@, pos, nv, all, not_done@),
                    forall|h: int| 0 <= h < or_patterns@.len() ==> #[trigger] or_done@[h] ==> keep@[h],
                    forall|h: int|
                        0 <= h < g ==> #[trigger] or_done@[h] || !keep@[h] || !crate::pattern::var_texts(
                            or_common@[h]@,
                        ).to_set().subset_of(keys_now),
                decreases or_patterns@.len() - g,
            {
                if keep[g] && !or_done[g] && all_bound(&or_common[g], &compiler.v2r) {
                    proof {
                        lemma_count_true_bound(or_done@, g as int);
                        lemma_count_true_set(or_done@, g as int);
                        lemma_groups_len_elem(gv, g as int);
                    }
                    or_done.set(g, true);
                    let alts = &or_patterns[g].1;
                    let mut subs: Vec<Program> = Vec::new();
                    let mut j: usize = 0;
                    while j < alts.len()
                        invariant
                            0 <= j <= alts@.len(),
                            alts == &or_patterns@[g as int].1,
                            0 <= g < or_patterns@.len(),
                            gv == groups_view(or_patterns@),
                            clauses_ok(pv, gv, nv),
                            v2r_ok(compiler.v2r@, compiler.next_reg.0 as int),
                            compiler.next_reg.0 + 2 * alts_len(gv[g as int].1) + 2 <= u32::MAX,
                        decreases alts@.len() - j,
                    {
                        proof {
                            assert(gv[g as int].1[j as int] == alts@[j as int]@);
                            assert(pat_ok(gv[g as int].1[j as int]));
                            lemma_alts_len_elem(gv[g as int].1, j as int);
                        }
                        let sub = compiler.compile_sub_program(Some(or_patterns[g].0.clone()), &alts[j]);
                        subs.push(sub);
                        j = j + 1;
                    }
                    let out = compiler.next_reg;
                    compiler.next_reg = Reg(compiler.next_reg.0 + 1);
                    proof {
                        lemma_regs_mono(compiler.v2r@, out.0 as int, compiler.next_reg.0 as int);
                    }
                    let ghost ins_a = compiler.instructions@;
                    let or_ins = Instruction::Or { root: or_patterns[g].0.clone(), sub_progs: subs, out };
                    proof {
                        lemma_not_count_push(ins_a, or_ins);
                        lemma_bind_count_push(ins_a, or_ins);
                        lemma_or_count_push(ins_a, or_ins);
                        lemma_placed_push(ins_a, or_ins, pos, nv, all, not_done@);
                    }
                    compiler.instructions.push(or_ins);
                    proof {
                        assert(crate::pattern::var_texts(or_common@[g as int]@).to_set().contains(gv[g as int].0));
                        assert(gv[g as int].0 == or_patterns@[g as int].0@);
                        assert(keys_of(compiler.v2r@).to_set().contains(or_patterns@[g as int].0@));
                    }
                    match v2r_get(&compiler.v2r, &or_patterns[g].0) {
                        Some(r) => {
                            let ghost ins_b = compiler.instructions@;
                            proof {
                                lemma_not_count_push(ins_b, Instruction::Compare { i: out, j: r });
                                lemma_bind_count_push(ins_b, Instruction::Compare { i: out, j: r });
                                lemma_or_count_push(ins_b, Instruction::Compare { i: out, j: r });
                                lemma_placed_push(ins_b, Instruction::Compare { i: out, j: r }, pos, nv, all, not_done@);
                            }
                            compiler.instructions.push(Instruction::Compare { i: out, j: r });
                        },
                        None => {
                            proof {
                                assert(keys_of(compiler.v2r@).contains(or_patterns@[g as int].0@));
                            }
                        },
                    }
                }
                g = g + 1;
            }
            proof {
                lemma_count_true_le(or_done@);
            }
            // Negated clauses that became ready.
            let mut n: usize = 0;
            while n < not_patterns.len()
                invariant
                    0 <= n <= not_patterns@.len(),
                    0 <= i < patterns@.len(),
                    gv == groups_view(or_patterns@),
                    nv == pairs_view(not_patterns@),
                    clauses_ok(pv, gv, nv),
                    multi_compiles(pv, gv, nv),
                    asts_budget(pv) >= 0,
                    groups_len(gv) >= 0,
                    pairs_len(nv) >= 0,
                    asts_budget(pv.subrange(0, i + 1)) <= asts_budget(pv),
                    compiler.todo_nodes@.len() == 0,
                    v2r_ok(compiler.v2r@, compiler.next_reg.0 as int),
                    keys_of(compiler.v2r@).to_set() == keys_now,
                    compiler.next_reg.0 <= asts_budget(pv.subrange(0, i + 1)) + count_true(or_done@),
                    count_true(or_done@) <= or_patterns@.len(),
                    or_done@.len() == or_patterns@.len(),
                    not_done@.len() == not_patterns@.len(),
                    not_common@.len() == not_patterns@.len(),
                    not_count(compiler.instructions@) == count_true(not_done@),
                    bind_count(compiler.instructions@) == binds_now,
                    or_count(compiler.instructions@) == count_true(or_done@),
                    nots_placed(compiler.instructions@, pos, nv, all, not_done@),
                    forall|h: int|
                        0 <= h < not_patterns@.len() ==> crate::pattern::var_texts((#[trigger] not_common@[h])@).to_set()
                            == crate::pattern::pattern_vars(nv[h].1).insert(nv[h].0).intersect(all),
                    forall|h: int|
                        0 <= h < n ==> #[trigger] not_done@[h] || !crate::pattern::var_texts(
                            not_common@[h]@,
                        ).to_set().subset_of(keys_now),
                decreases not_patterns@.len() - n,
            {
                if !not_done[n] && all_bound(&not_common[n], &compiler.v2r) {
                    proof {
                        lemma_count_true_set(not_done@, n as int);
                        assert(nv[n as int].1 == not_patterns@[n as int].1@);
                        assert(pat_ok(nv[n as int].1));
                        lemma_pairs_len_elem(nv, n as int);
                    }
                    let ghost done0 = not_done@;
                    not_done.set(n, true);
                    let ghost bt = not_patterns@[n as int].0@;
                    let sub = compiler.compile_sub_program(Some(not_patterns[n].0.clone()), &not_patterns[n].1);
                    let ghost ins_a = compiler.instructions@;
                    proof {
                        assert(nv[n as int] == (bt, not_patterns@[n as int].1@));
                        lemma_negation_ready(
                            compiler.v2r@,
                            compiler.next_reg.0 as int,
                            sub,
                            bt,
                            nv[n as int].1,
                            all,
                        );
                    }
                    let not_ins = Instruction::Not { sub_prog: sub };
                    proof {
                        lemma_not_count_push(ins_a, not_ins);
                        lemma_bind_count_push(ins_a, not_ins);
                        lemma_or_count_push(ins_a, not_ins);
                        lemma_placed_push(ins_a, not_ins, pos, nv, all, done0);
                    }
                    compiler.instructions.push(not_ins);
                    proof {
                        let pos0 = pos;
                        pos = pos.update(n as int, ins_a.len() as int);
                        assert(compiler.instructions@[ins_a.len() as int] == not_ins);
                        assert forall|h: int| 0 <= h < nv.len() && #[trigger] not_done@[h] implies 0 <= pos[h]
                            < compiler.instructions@.len() && compiler.instructions@[pos[h]] is Not && bind_count(
                            compiler.instructions@[pos[h]]->Not_sub_prog.instructions_spec(),
                        ) == crate::pattern::enode_count(nv[h].1) && negation_ready(
                            compiler.instructions@[pos[h]]->Not_sub_prog,
                            nv[h].0,
                            nv[h].1,
                            all,
                        ) by {
                            if h != n {
                                assert(done0[h]);
                                assert(pos[h] == pos0[h]);
                            }
                        }
                        assert forall|a: int, b: int|
                            0 <= a < nv.len() && 0 <= b < nv.len() && a != b && #[trigger] not_done@[a] && #[trigger] not_done@[b]
                                implies pos[a] != pos[b] by {
                            if a != n {
                                assert(done0[a]);
                            }
                            if b != n {
                                assert(done0[b]);
                            }
                        }
                        assert(nots_placed(compiler.instructions@, pos, nv, all, not_done@));
                    }
                }
                n = n + 1;
            }
            proof {
                lemma_count_true_le(or_done@);
            }
            i = i + 1;
        }
        proof {
            assert(pv.subrange(0, pv.len() as int) =~= pv);
            assert forall|h: int| 0 <= h < not_done@.len() implies #[trigger] not_done@[h] by {
                assert(crate::pattern::var_texts(not_common@[h]@).to_set().subset_of(all));
            }
            lemma_count_true_all(not_done@);
            assert forall|h: int| 0 <= h < or_done@.len() implies #[trigger] or_done@[h] == keep@[h] by {
                assert(or_shared(pv, gv[h]).subset_of(all));
            }
            assert(or_done@ =~= keep@);
            lemma_kept_count(pv, gv, keep@);
            assert(not_done@ =~= all_marked(nv.len()));
            assert(nots_placed(compiler.instructions@, pos, nv, all, all_marked(nv.len())));
        }
        let ghost keys = keys_of(compiler.v2r@);
        let p = compiler.extract();
        proof {
            assert(p.var_regs().map_values(|q: (Seq<char>, Id)| q.0) =~= keys);
            assert(nots_placed(p.instructions_spec(), pos, nv, all, all_marked(nv.len())));
        }
        p
    }
}

} // verus!
