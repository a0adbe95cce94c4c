use easter_egg::pattern::{ENodeOrVar, ENodeOrVarParseError, Pattern, PatternAst, RecExprParseError, SymbolLang};
use easter_egg::multipattern::{MultiPattern, MultiPatternParseError};
use easter_egg::subst::Var;
use easter_egg::Id;

fn texts(vs: &[Var]) -> Vec<String> {
    vs.iter().map(|v| v.to_string()).collect()
}

#[test]
fn ok_unbound_var() {
    let searcher = MultiPattern::from_str("?x = (foo ?y)").unwrap();
    let applier = MultiPattern::from_str("?z = (baz ?y), ?x = ?z").unwrap();
    let bound = searcher.vars();
    for v in applier.applier_vars() {
        assert!(bound.iter().any(|b| b.same(&v)), "unbound var {}", v.to_string());
    }
}

#[test]
fn bad_unbound_applier_var_is_reported() {
    let searcher = MultiPattern::from_str("?x  = (foo ?y)").unwrap();
    let applier = MultiPattern::from_str("?x = ?z").unwrap();
    let bound = searcher.vars();
    let unbound: Vec<String> = applier
        .applier_vars()
        .into_iter()
        .filter(|v| !bound.iter().any(|b| b.same(v)))
        .map(|v| v.to_string())
        .collect();
    assert_eq!(unbound, vec!["?z".to_string()]);
}

#[test]
fn named_subpattern_is_var() {
    let p: MultiPattern = MultiPattern::from_str("?root = (+ ?x ?y)").unwrap();
    assert_eq!(p.vars().len(), 3);
}

#[test]
fn pattern_parses_post_order() {
    let p = Pattern::from_str("(+ ?a (f b))").unwrap();
    let nodes = p.ast.as_ref();
    assert_eq!(nodes.len(), 4);
    match &nodes[0] {
        ENodeOrVar::Var(v) => assert_eq!(v.to_string(), "?a"),
        _ => panic!("expected a variable"),
    }
    match &nodes[1] {
        ENodeOrVar::ENode(n, None) => {
            assert_eq!(n.op, "b");
            assert!(n.children.is_empty());
        }
        _ => panic!("expected a leaf"),
    }
    match &nodes[2] {
        ENodeOrVar::ENode(n, None) => {
            assert_eq!(n.op, "f");
            assert_eq!(n.children, vec![Id(1)]);
        }
        _ => panic!("expected f"),
    }
    match &nodes[3] {
        ENodeOrVar::ENode(n, None) => {
            assert_eq!(n.op, "+");
            assert_eq!(n.children, vec![Id(0), Id(2)]);
        }
        _ => panic!("expected +"),
    }
    assert_eq!(texts(&p.vars()), vec!["?a".to_string()]);
}

#[test]
fn pattern_parse_errors() {
    assert!(matches!(PatternAst::from_str("   "), Err(RecExprParseError::EmptySexp)));
    assert!(matches!(PatternAst::from_str("()"), Err(RecExprParseError::EmptySexp)));
    assert!(matches!(PatternAst::from_str("((f) a)"), Err(RecExprParseError::HeadList)));
    assert!(matches!(PatternAst::from_str("(f a"), Err(RecExprParseError::BadSexp(_))));
    assert!(matches!(PatternAst::from_str("a b"), Err(RecExprParseError::BadSexp(_))));
    assert!(matches!(PatternAst::from_str(")"), Err(RecExprParseError::BadSexp(_))));
    match PatternAst::from_str("(?x a)") {
        Err(RecExprParseError::BadOp(ENodeOrVarParseError::UnexpectedVar(t))) => assert_eq!(t, "?x"),
        _ => panic!("a variable in operator position must be refused"),
    }
}

#[test]
fn pattern_vars_in_first_order() {
    let p = Pattern::from_str("(f ?b (g ?a ?b) ?c)").unwrap();
    assert_eq!(texts(&p.vars()), vec!["?b".to_string(), "?a".to_string(), "?c".to_string()]);
}

#[test]
fn from_op_str_names_and_errors() {
    match ENodeOrVar::from_op_str("|@|?n|@|f", vec![Id(0)]) {
        Ok(ENodeOrVar::ENode(n, Some(name))) => {
            assert_eq!(n.op, "f");
            assert_eq!(name, "?n");
            assert_eq!(n.children, vec![Id(0)]);
        }
        _ => panic!("expected a named node"),
    }
    assert_eq!(
        ENodeOrVar::from_op_str("|@|n|@|f", vec![]).err().unwrap(),
        "Invalid name for pattern: n. Name should start with ?"
    );
    assert_eq!(
        ENodeOrVar::from_op_str("?v", vec![Id(1)]).err().unwrap(),
        "Tried to parse pattern variable '?v' in the op position"
    );
    match ENodeOrVar::from_op_str("?v", vec![]) {
        Ok(ENodeOrVar::Var(v)) => assert_eq!(v.to_string(), "?v"),
        _ => panic!("expected a variable"),
    }
    match ENodeOrVar::from_op_str("|@|only", vec![]) {
        Ok(ENodeOrVar::ENode(n, None)) => assert_eq!(n.op, "|@|only"),
        _ => panic!("a single marker is an ordinary operator"),
    }
}

#[test]
fn multipattern_clause_kinds() {
    let p = MultiPattern::from_str("?v1 = x, ?v2 = (f ?w), ?v2 != w, ?w |= (cons ?l), ?w |= nil").unwrap();
    assert_eq!(texts(&p.vars()), vec!["?v1".to_string(), "?v2".to_string(), "?w".to_string()]);
    assert_eq!(texts(&p.applier_vars()), vec!["?w".to_string()]);
}

#[test]
fn multipattern_parse_errors() {
    match MultiPattern::from_str("x = (f a)") {
        Err(MultiPatternParseError::PatternAssignmentError(t)) => assert_eq!(t, "x = (f a)"),
        _ => panic!("a clause without a variable must be refused"),
    }
    match MultiPattern::from_str("?x = (f a") {
        Err(MultiPatternParseError::PatternParseError(RecExprParseError::BadSexp(_))) => {}
        _ => panic!("a bad pattern must be refused"),
    }
    // empty clauses are skipped
    let p = MultiPattern::from_str(" , ?x = a ,").unwrap();
    assert_eq!(texts(&p.vars()), vec!["?x".to_string()]);
}

#[test]
fn multipattern_orders_ground_patterns_first() {
    let p = MultiPattern::from_str("?x = (f ?a ?b), ?y = (g c), ?z = (h d ?e)").unwrap();
    // (g c) has no variables: searched first; then more constants first
    assert_eq!(texts(&p.vars()), vec!["?y".to_string(), "?z".to_string(), "?e".to_string(), "?x".to_string(), "?a".to_string(), "?b".to_string()]);
}

#[test]
fn multipattern_bang_in_var_name() {
    // the name takes every name character, so `?x!=y` binds `?x!` with `=`
    let p = MultiPattern::from_str("?x!=y").unwrap();
    assert_eq!(texts(&p.vars()), vec!["?x!".to_string()]);
}

#[test]
fn pattern_expression_round_trip() {
    let expr = vec![
        SymbolLang { op: "a".to_string(), children: vec![] },
        SymbolLang { op: "f".to_string(), children: vec![Id(0)] },
    ];
    let p = Pattern::from_expr(&expr);
    assert_eq!(p.ast.as_ref().len(), 2);
    let back = p.to_expr().unwrap();
    assert_eq!(back.len(), 2);
    assert_eq!(back[0].op, "a");
    assert_eq!(back[1].op, "f");
    assert_eq!(back[1].children, vec![Id(0)]);
    match Pattern::from_str("(g ?y (f ?x))").unwrap().to_expr() {
        Err(v) => assert_eq!(v.to_string(), "?y"),
        Ok(_) => panic!("a pattern with variables has no expression"),
    }
    let ground = Pattern::from_str("(f a)").unwrap().to_expr().unwrap();
    assert_eq!(ground.len(), 2);
    assert_eq!(ground[1].op, "f");
}

#[test]
fn display_op_shows_operator_or_variable() {
    let p = Pattern::from_str("(f ?x)").unwrap();
    let nodes = p.ast.as_ref();
    assert_eq!(nodes[0].display_op(), "?x");
    assert_eq!(nodes[1].display_op(), "f");
}

fn clause(v: &str, p: &str) -> (Var, PatternAst) {
    (Var::from_str(v).unwrap(), PatternAst::from_str(p).unwrap())
}

#[test]
fn new_with_specials_puts_ground_and_constant_rich_clauses_first() {
    let asts = vec![clause("?a", "(f ?x ?y)"), clause("?b", "(g c ?x)"), clause("?c", "(h d)")];
    let p = MultiPattern::new_with_specials(asts, vec![], vec![]);
    assert_eq!(texts(&p.vars()), vec!["?c", "?b", "?x", "?a", "?y"]);
}

#[test]
fn new_with_specials_keeps_clauses_of_one_rank_in_place() {
    let make = || vec![clause("?a", "(f ?x ?y)"), clause("?b", "(g ?y ?z)")];
    let sorted = MultiPattern::new_with_specials(make(), vec![], vec![]);
    let plain = MultiPattern::new(make());
    assert_eq!(texts(&sorted.vars()), texts(&plain.vars()));
    assert_eq!(texts(&plain.vars()), vec!["?a", "?x", "?y", "?b", "?z"]);
}
