//! What a program of the matching machine computes on an e-graph without
//! colors: each instruction takes the registers to one of a set of next
//! registers, and a run goes through every instruction in turn.

use vstd::prelude::*;

use crate::Id;
use crate::machine::{Instruction, ScanRoot};
use crate::pattern::SymbolLang;

verus! {

/// The registers kept when a step writes from register `n` on: those below
/// `n`, or all of them when there are fewer.
pub open spec fn cut_regs(regs: Seq<Id>, n: int) -> Seq<Id> {
    if n < regs.len() {
        regs.take(n)
    } else {
        regs
    }
}

/// The held e-node `e` matches the pattern e-node `node` in the class of
/// `c`: same operator, same arity, and its class is that of `c`.
pub open spec fn binds_to(l: Seq<u32>, e: ((Seq<char>, Seq<Id>), Id), node: SymbolLang, c: Id) -> bool {
    &&& e.0.0 == node.op@
    &&& e.0.1.len() == node.children@.len()
    &&& (e.1.0 as int) < l.len()
    &&& (c.0 as int) < l.len()
    &&& l[e.1.0 as int] == l[c.0 as int]
}

/// The held e-node `e` has the operator `op`.
pub open spec fn has_op(l: Seq<u32>, e: ((Seq<char>, Seq<Id>), Id), op: Seq<char>) -> bool {
    &&& e.0.0 == op
    &&& (e.1.0 as int) < l.len()
}

/// `c` is a leader of the union-find `l`.
pub open spec fn is_leader(l: Seq<u32>, c: int) -> bool {
    0 <= c < l.len() && l[c] == c
}

/// A bind of the pattern e-node `node` on the class in register `e` may
/// take the registers `regs` to `nxt`: the children of a held e-node that
/// matches it, written from register `o` on.
pub open spec fn bind_step(
    l: Seq<u32>,
    m: Seq<((Seq<char>, Seq<Id>), Id)>,
    node: SymbolLang,
    e: int,
    o: int,
    regs: Seq<Id>,
    nxt: Seq<Id>,
) -> bool {
    &&& 0 <= e < regs.len()
    &&& exists|j: int| 0 <= j < m.len() && #[trigger] binds_to(l, m[j], node, regs[e]) && nxt == cut_regs(regs, o) + m[j].0.1
}

/// `c` leads a class holding an e-node with the operator `op`.
pub open spec fn op_hit(l: Seq<u32>, m: Seq<((Seq<char>, Seq<Id>), Id)>, op: Seq<char>, c: Id) -> bool {
    exists|j: int| 0 <= j < m.len() && #[trigger] has_op(l, m[j], op) && c.0 == l[m[j].1.0 as int]
}

/// `c` is one of the classes that a scan for `top` visits: a class holding
/// an e-node with the root's operator, the class in the given register, or
/// any class.
pub open spec fn scan_hits(
    l: Seq<u32>,
    m: Seq<((Seq<char>, Seq<Id>), Id)>,
    top: ScanRoot,
    regs: Seq<Id>,
    c: Id,
) -> bool {
    match top {
        ScanRoot::ENode(node) => op_hit(l, m, node.op@, c),
        ScanRoot::Var(Some(r)) => (r.0 as int) < regs.len() && c == regs[r.0 as int],
        ScanRoot::Var(None) => is_leader(l, c.0 as int),
    }
}

/// A scan for `top` may take the registers `regs` to `nxt`: a visited
/// class written at register `o`.
pub open spec fn scan_step(
    l: Seq<u32>,
    m: Seq<((Seq<char>, Seq<Id>), Id)>,
    top: ScanRoot,
    o: int,
    regs: Seq<Id>,
    nxt: Seq<Id>,
) -> bool {
    exists|c: Id| #[trigger] scan_hits(l, m, top, regs, c) && nxt == cut_regs(regs, o).push(c)
}

/// A compare of registers `i` and `j` lets the registers through
/// unchanged when they hold one class.
pub open spec fn compare_step(l: Seq<u32>, i: int, j: int, regs: Seq<Id>, nxt: Seq<Id>) -> bool {
    &&& 0 <= i < regs.len()
    &&& 0 <= j < regs.len()
    &&& (regs[i].0 as int) < l.len()
    &&& (regs[j].0 as int) < l.len()
    &&& l[regs[i].0 as int] == l[regs[j].0 as int]
    &&& nxt == regs
}

/// A color jump with no colors copies register `orig` to a new register.
pub open spec fn jump_step(orig: int, regs: Seq<Id>, nxt: Seq<Id>) -> bool {
    &&& 0 <= orig < regs.len()
    &&& nxt == regs.push(regs[orig])
}

/// One step of the machine: instruction `ins` may take the registers
/// `regs` to `nxt`. A bind writes the children of a matching held e-node
/// from its output register on; a compare goes on when its registers hold
/// one class; a scan writes a visited class; a color jump, with no colors,
/// copies its register; the sub-program instructions take no step here.
pub open spec fn step_to(
    l: Seq<u32>,
    m: Seq<((Seq<char>, Seq<Id>), Id)>,
    ins: Instruction,
    regs: Seq<Id>,
    nxt: Seq<Id>,
) -> bool {
    match ins {
        Instruction::Bind { node, eclass, out } => bind_step(l, m, node, eclass.0 as int, out.0 as int, regs, nxt),
        Instruction::Compare { i, j } => compare_step(l, i.0 as int, j.0 as int, regs, nxt),
        Instruction::Scan { out, top_pat } => scan_step(l, m, top_pat, out.0 as int, regs, nxt),
        Instruction::ColorJump { orig, out: _ } => jump_step(orig.0 as int, regs, nxt),
        Instruction::Nop => nxt == regs,
        Instruction::Not { .. } => false,
        Instruction::Or { .. } => false,
    }
}

/// `t` is a trace of the instructions from `k` on: one register state
/// before each of them and one after the last, each step allowed.
pub open spec fn trace_ok(
    l: Seq<u32>,
    m: Seq<((Seq<char>, Seq<Id>), Id)>,
    ins: Seq<Instruction>,
    k: int,
    t: Seq<Seq<Id>>,
) -> bool {
    &&& t.len() == ins.len() - k + 1
    &&& forall|x: int| 0 <= x < t.len() - 1 ==> #[trigger] step_to(l, m, ins[k + x], t[x], t[x + 1])
}

/// Running the instructions from `k` on, starting from the registers
/// `regs`, can end with the registers `fin`.
pub open spec fn runs_from(
    l: Seq<u32>,
    m: Seq<((Seq<char>, Seq<Id>), Id)>,
    ins: Seq<Instruction>,
    k: int,
    regs: Seq<Id>,
    fin: Seq<Id>,
) -> bool {
    exists|t: Seq<Seq<Id>>| #[trigger] trace_ok(l, m, ins, k, t) && t[0] == regs && t[t.len() - 1] == fin
}

/// No instruction runs a sub-program.
pub open spec fn branch_free(ins: Seq<Instruction>) -> bool {
    forall|k: int| 0 <= k < ins.len() ==> !(#[trigger] ins[k] is Not) && !(ins[k] is Or)
}

/// The bindings of a match: each variable with the class in its register.
pub open spec fn read_regs(var_regs: Seq<(Seq<char>, Id)>, fin: Seq<Id>) -> Seq<(Seq<char>, Id)> {
    var_regs.map_values(|p: (Seq<char>, Id)| (p.0, fin[p.1.0 as int]))
}

/// Every variable's register is one of `fin`.
pub open spec fn regs_in(var_regs: Seq<(Seq<char>, Id)>, fin: Seq<Id>) -> bool {
    forall|x: int| 0 <= x < var_regs.len() ==> (#[trigger] var_regs[x].1.0 as int) < fin.len()
}

/// The register lists `s` from `from` on hold `fin`.
pub open spec fn found_in(s: Seq<Vec<Id>>, from: int, fin: Seq<Id>) -> bool {
    exists|q: int| 0 <= q && from <= q < s.len() && (#[trigger] s[q])@ == fin
}

/// With no instruction left, a run ends where it starts.
pub proof fn lemma_runs_end(
    l: Seq<u32>,
    m: Seq<((Seq<char>, Seq<Id>), Id)>,
    ins: Seq<Instruction>,
    regs: Seq<Id>,
    fin: Seq<Id>,
)
    ensures
        runs_from(l, m, ins, ins.len() as int, regs, fin) <==> fin == regs,
{
    if fin == regs {
        let t = seq![regs];
        assert(trace_ok(l, m, ins, ins.len() as int, t));
    }
}

/// A run from `k` takes a first step, then runs from `k + 1`.
pub proof fn lemma_runs_first(
    l: Seq<u32>,
    m: Seq<((Seq<char>, Seq<Id>), Id)>,
    ins: Seq<Instruction>,
    k: int,
    regs: Seq<Id>,
    fin: Seq<Id>,
) -> (nxt: Seq<Id>)
    requires
        0 <= k < ins.len(),
        runs_from(l, m, ins, k, regs, fin),
    ensures
        step_to(l, m, ins[k], regs, nxt),
        runs_from(l, m, ins, k + 1, nxt, fin),
{
    let t = choose|t: Seq<Seq<Id>>| #[trigger] trace_ok(l, m, ins, k, t) && t[0] == regs && t[t.len() - 1] == fin;
    assert(step_to(l, m, ins[k + 0int], t[0int], t[0int + 1]));
    let t2 = t.skip(1);
    assert forall|x: int| 0 <= x < t2.len() - 1 implies #[trigger] step_to(l, m, ins[k + 1 + x], t2[x], t2[x + 1]) by {
        assert(step_to(l, m, ins[k + (x + 1)], t[x + 1], t[(x + 1) + 1]));
    }
    assert(trace_ok(l, m, ins, k + 1, t2));
    assert(t2[0] == t[1]);
    assert(t2[t2.len() - 1] == fin);
    t[1]
}

/// A step at `k` followed by a run from `k + 1` is a run from `k`.
pub proof fn lemma_runs_cons(
    l: Seq<u32>,
    m: Seq<((Seq<char>, Seq<Id>), Id)>,
    ins: Seq<Instruction>,
    k: int,
    regs: Seq<Id>,
    nxt: Seq<Id>,
    fin: Seq<Id>,
)
    requires
        0 <= k < ins.len(),
        step_to(l, m, ins[k], regs, nxt),
        runs_from(l, m, ins, k + 1, nxt, fin),
    ensures
        runs_from(l, m, ins, k, regs, fin),
{
    let t2 = choose|t: Seq<Seq<Id>>| #[trigger] trace_ok(l, m, ins, k + 1, t) && t[0] == nxt && t[t.len() - 1] == fin;
    let t = seq![regs] + t2;
    assert forall|x: int| 0 <= x < t.len() - 1 implies #[trigger] step_to(l, m, ins[k + x], t[x], t[x + 1]) by {
        if x == 0 {
            assert(t[1] == t2[0]);
        } else {
            assert(step_to(l, m, ins[k + 1 + (x - 1)], t2[x - 1], t2[(x - 1) + 1]));
            assert(t[x] == t2[x - 1]);
            assert(t[x + 1] == t2[x]);
        }
    }
    assert(trace_ok(l, m, ins, k, t));
    assert(t[t.len() - 1] == t2[t2.len() - 1]);
}

/// Some held e-node from `w` on matches the bind's pattern e-node in the
/// class of `c`, and a run from `k + 1` on the registers it gives ends in
/// `fin`.
pub open spec fn bind_pending(
    l: Seq<u32>,
    m: Seq<((Seq<char>, Seq<Id>), Id)>,
    ins: Seq<Instruction>,
    k: int,
    regs: Seq<Id>,
    node: SymbolLang,
    c: Id,
    o: int,
    w: int,
    fin: Seq<Id>,
) -> bool {
    exists|j: int|
        w <= j < m.len() && #[trigger] binds_to(l, m[j], node, c) && runs_from(l, m, ins, k + 1, cut_regs(regs, o) + m[j].0.1, fin)
}

/// Some held e-node from `w` on has the operator `op`, and a run from
/// `k + 1` with its class written at `o` ends in `fin`.
pub open spec fn scan_op_pending(
    l: Seq<u32>,
    m: Seq<((Seq<char>, Seq<Id>), Id)>,
    ins: Seq<Instruction>,
    k: int,
    regs: Seq<Id>,
    op: Seq<char>,
    o: int,
    w: int,
    fin: Seq<Id>,
) -> bool {
    exists|j: int|
        w <= j < m.len() && #[trigger] has_op(l, m[j], op) && runs_from(
            l,
            m,
            ins,
            k + 1,
            cut_regs(regs, o).push(Id(l[m[j].1.0 as int])),
            fin,
        )
}

/// Some leader from `w` on, written at `o`, starts a run from `k + 1` that
/// ends in `fin`.
pub open spec fn scan_all_pending(
    l: Seq<u32>,
    m: Seq<((Seq<char>, Seq<Id>), Id)>,
    ins: Seq<Instruction>,
    k: int,
    regs: Seq<Id>,
    o: int,
    w: int,
    fin: Seq<Id>,
) -> bool {
    exists|c: int| w <= c && #[trigger] is_leader(l, c) && runs_from(l, m, ins, k + 1, cut_regs(regs, o).push(Id(c as u32)), fin)
}

/// The program matches in the class `eclass` with the bindings `s`: a run
/// of all its instructions from the registers holding `eclass` alone ends
/// in registers from which each variable reads its class.
pub open spec fn program_matches(
    l: Seq<u32>,
    m: Seq<((Seq<char>, Seq<Id>), Id)>,
    ins: Seq<Instruction>,
    var_regs: Seq<(Seq<char>, Id)>,
    eclass: Id,
    s: Seq<(Seq<char>, Id)>,
) -> bool {
    exists|fin: Seq<Id>|
        #[trigger] runs_from(l, m, ins, 0, seq![eclass], fin) && regs_in(var_regs, fin) && s == read_regs(var_regs, fin)
}

/// What was found in a prefix stays found.
pub proof fn lemma_found_grow(s: Seq<Vec<Id>>, s2: Seq<Vec<Id>>, from: int, from2: int, fin: Seq<Id>)
    requires
        s.is_prefix_of(s2),
        from2 <= from,
        found_in(s, from, fin),
    ensures
        found_in(s2, from2, fin),
{
    let q = choose|q: int| 0 <= q && from <= q < s.len() && (#[trigger] s[q])@ == fin;
    assert(s2[q] == s[q]);
}

} // verus!
