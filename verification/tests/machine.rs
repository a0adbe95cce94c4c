use easter_egg::machine::{Instruction, Program, Reg, ScanRoot};
use easter_egg::pattern::PatternAst;
use easter_egg::subst::{Subst, Var};
use easter_egg::Id;

fn var(s: &str) -> Var {
    Var::from_str(s).unwrap()
}

fn ast(s: &str) -> PatternAst {
    PatternAst::from_str(s).unwrap()
}

fn reg_of(s: &Subst, v: &str) -> Option<Id> {
    s.get(&var(v)).copied()
}

fn assert_bind(i: &Instruction, op: &str, arity: usize, eclass: u32, out: u32) {
    match i {
        Instruction::Bind { node, eclass: e, out: o } => {
            assert_eq!(node.op, op);
            assert_eq!(node.children, vec![Id(0); arity]);
            assert_eq!(*e, Reg(eclass));
            assert_eq!(*o, Reg(out));
        }
        _ => panic!("expected a bind"),
    }
}

fn assert_jump(i: &Instruction, orig: u32, out: u32) {
    match i {
        Instruction::ColorJump { orig: a, out: b } => {
            assert_eq!(*a, Reg(orig));
            assert_eq!(*b, Reg(out));
        }
        _ => panic!("expected a color jump"),
    }
}

fn assert_compare(i: &Instruction, a: u32, b: u32) {
    match i {
        Instruction::Compare { i: x, j: y } => {
            assert_eq!(*x, Reg(a));
            assert_eq!(*y, Reg(b));
        }
        _ => panic!("expected a compare"),
    }
}

#[test]
fn single_pattern_binds_root_then_children() {
    let p = Program::compile_from_pat(&ast("(+ ?a (f b))"));
    let ins = p.instructions();
    assert_eq!(ins.len(), 5);
    assert_bind(&ins[0], "+", 2, 0, 1);
    assert_jump(&ins[1], 2, 3);
    assert_bind(&ins[2], "f", 1, 3, 4);
    assert_jump(&ins[3], 4, 5);
    assert_bind(&ins[4], "b", 0, 5, 6);
    assert_eq!(p.subst().len(), 1);
    assert_eq!(reg_of(p.subst(), "?a"), Some(Id(1)));
}

#[test]
fn repeated_variable_is_compared() {
    let p = Program::compile_from_pat(&ast("(g ?x ?x)"));
    let ins = p.instructions();
    assert_eq!(ins.len(), 2);
    assert_bind(&ins[0], "g", 2, 0, 1);
    assert_compare(&ins[1], 2, 1);
    assert_eq!(reg_of(p.subst(), "?x"), Some(Id(1)));
}

#[test]
fn later_patterns_are_scanned_and_share_variables() {
    let pats = vec![(var("?x"), ast("(f ?a)")), (var("?y"), ast("(g ?a)"))];
    let p = Program::compile_from_multi_pat(&pats, &vec![], &vec![]);
    let ins = p.instructions();
    assert_eq!(ins.len(), 4);
    assert_bind(&ins[0], "f", 1, 0, 1);
    match &ins[1] {
        Instruction::Scan { out, top_pat: ScanRoot::ENode(n) } => {
            assert_eq!(*out, Reg(2));
            assert_eq!(n.op, "g");
        }
        _ => panic!("expected a scan"),
    }
    assert_bind(&ins[2], "g", 1, 2, 3);
    assert_compare(&ins[3], 3, 1);
    assert_eq!(reg_of(p.subst(), "?x"), Some(Id(0)));
    assert_eq!(reg_of(p.subst(), "?a"), Some(Id(1)));
    assert_eq!(reg_of(p.subst(), "?y"), Some(Id(2)));
}

#[test]
fn negated_clause_becomes_a_sub_program() {
    let pats = vec![(var("?x"), ast("(f ?a)"))];
    let nots = vec![(var("?x"), ast("(f b)"))];
    let p = Program::compile_from_multi_pat(&pats, &vec![], &nots);
    let ins = p.instructions();
    assert_eq!(ins.len(), 2);
    assert_bind(&ins[0], "f", 1, 0, 1);
    match &ins[1] {
        Instruction::Not { sub_prog } => {
            let sub = sub_prog.instructions();
            assert_eq!(sub.len(), 5);
            assert!(matches!(sub[0], Instruction::Nop));
            assert_jump(&sub[1], 0, 2);
            assert_bind(&sub[2], "f", 1, 2, 3);
            assert_jump(&sub[3], 3, 4);
            assert_bind(&sub[4], "b", 0, 4, 5);
            assert_eq!(reg_of(sub_prog.subst(), "?x"), Some(Id(2)));
        }
        _ => panic!("expected a negation"),
    }
    assert_eq!(p.subst().len(), 2);
}

#[test]
fn alternatives_become_an_or_compared_with_their_variable() {
    let pats = vec![(var("?v"), ast("(f ?w)"))];
    let ors = vec![(var("?w"), vec![ast("(cons ?l)"), ast("nil")])];
    let p = Program::compile_from_multi_pat(&pats, &ors, &vec![]);
    let ins = p.instructions();
    assert_eq!(ins.len(), 3);
    assert_bind(&ins[0], "f", 1, 0, 1);
    match &ins[1] {
        Instruction::Or { root, sub_progs, out } => {
            assert_eq!(root.to_string(), "?w");
            assert_eq!(*out, Reg(2));
            assert_eq!(sub_progs.len(), 2);
            let first = sub_progs[0].instructions();
            assert_eq!(first.len(), 3);
            assert_jump(&first[1], 1, 2);
            assert_bind(&first[2], "cons", 1, 2, 3);
            assert_eq!(reg_of(sub_progs[0].subst(), "?l"), Some(Id(3)));
            let second = sub_progs[1].instructions();
            assert_bind(&second[2], "nil", 0, 2, 3);
        }
        _ => panic!("expected an or"),
    }
    assert_compare(&ins[2], 2, 1);
    assert_eq!(reg_of(p.subst(), "?w"), Some(Id(1)));
}

#[test]
fn agreeing_alternative_drops_the_group() {
    // The alternative (f ?a) agrees with the ordinary clause of ?w on the
    // shared variable ?w, so the group is not compiled.
    let pats = vec![(var("?w"), ast("(f ?a)"))];
    let ors = vec![(var("?w"), vec![ast("(f ?b)")])];
    let p = Program::compile_from_multi_pat(&pats, &ors, &vec![]);
    assert_eq!(p.instructions().len(), 1);
}

#[test]
fn variable_pattern_needs_no_instruction() {
    let p = Program::compile_from_pat(&ast("?x"));
    assert!(p.instructions().is_empty());
    assert_eq!(reg_of(p.subst(), "?x"), Some(Id(0)));
}
