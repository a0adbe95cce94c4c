use easter_egg::egraph::EGraph;
use easter_egg::pattern::SymbolLang;
use easter_egg::Id;

fn leaf(op: &str) -> SymbolLang {
    SymbolLang { op: op.to_string(), children: vec![] }
}

fn node(op: &str, children: Vec<Id>) -> SymbolLang {
    SymbolLang { op: op.to_string(), children }
}

#[test]
fn egraph_simple_add() {
    let mut egraph = EGraph::new();
    let x = egraph.add(leaf("x"));
    let x2 = egraph.add(leaf("x"));
    assert_eq!(x, x2);
    let _plus = egraph.add(node("+", vec![x, x2]));
    let y = egraph.add(leaf("y"));
    egraph.union(x, y);
    egraph.rebuild();
    assert_eq!(egraph.find(x), egraph.find(y));
}

#[test]
fn egraph_size_after_union() {
    let mut egraph = EGraph::new();
    assert!(egraph.is_empty());
    let x = egraph.add(leaf("x"));
    let y = egraph.add(leaf("y"));
    assert!(!egraph.is_empty());
    assert_ne!(egraph.find(x), egraph.find(y));
    assert_eq!(egraph.union(x, y), (x, true));
    assert_eq!(egraph.union(y, x), (x, false));
    assert_eq!(egraph.rebuild(), 0);
    assert_eq!(egraph.total_size(), 2);
    assert_eq!(egraph.number_of_classes(), 1);
    assert_eq!(egraph.find(y), egraph.find(x));
    // an id outside the e-graph is its own leader
    assert_eq!(egraph.find(Id(9)), Id(9));
}

#[test]
fn egraph_lookup_after_rebuild() {
    let mut egraph = EGraph::new();
    let a = egraph.add(leaf("a"));
    let b = egraph.add(leaf("b"));
    let c = egraph.add(leaf("c"));
    let mut f_ac = node("f", vec![a, c]);
    assert_eq!(egraph.lookup(&mut node("f", vec![a, c])), None);
    let id = egraph.add(node("f", vec![a, c]));
    assert_eq!(egraph.lookup(&mut node("f", vec![a, c])), Some(id));
    egraph.union(b, c);
    egraph.rebuild();
    // the node's children are canonicalized in place
    assert_eq!(egraph.lookup(&mut f_ac), Some(id));
    assert_eq!(f_ac.children, vec![a, b]);
    assert_eq!(f_ac.op, "f".to_string());
    assert_eq!(egraph.lookup(&mut node("f", vec![a, b])), Some(id));
}

#[test]
fn egraph_rebuild_merges_only_congruent_classes() {
    let mut egraph = EGraph::new();
    let x = egraph.add(leaf("x"));
    let y = egraph.add(leaf("y"));
    let ax = egraph.add_expr(&vec![leaf("a"), leaf("x"), node("+", vec![Id(0), Id(1)])]);
    let ay = egraph.add_expr(&vec![leaf("a"), leaf("y"), node("+", vec![Id(0), Id(1)])]);
    egraph.union(x, y);
    assert_eq!(egraph.number_of_classes(), 4);
    assert_ne!(egraph.find(ax), egraph.find(ay));
    egraph.rebuild();
    assert_eq!(egraph.number_of_classes(), 3);
    assert_eq!(egraph.find(ax), egraph.find(ay));
}

#[test]
fn egraph_add_again_finds_same_class() {
    let mut egraph = EGraph::new();
    let a = egraph.add(leaf("a"));
    let fa = egraph.add(node("f", vec![a]));
    assert_eq!(egraph.add(node("f", vec![a])), fa);
    assert_eq!(egraph.total_size(), 2);
}

#[test]
fn egraph_rebuild_restores_congruence() {
    let mut egraph = EGraph::new();
    let a = egraph.add(leaf("a"));
    let b = egraph.add(leaf("b"));
    let fa = egraph.add(node("f", vec![a]));
    let fb = egraph.add(node("f", vec![b]));
    let gfa = egraph.add(node("g", vec![fa]));
    let gfb = egraph.add(node("g", vec![fb]));
    assert_eq!(egraph.total_size(), 6);
    assert_eq!(egraph.number_of_classes(), 6);
    egraph.union(a, b);
    // f(a) = f(b), then g(f(a)) = g(f(b))
    assert_eq!(egraph.rebuild(), 2);
    assert_eq!(egraph.find(fa), egraph.find(fb));
    assert_eq!(egraph.find(gfa), egraph.find(gfb));
    assert_eq!(egraph.number_of_classes(), 3);
    assert_eq!(egraph.total_size(), 4);
    assert_eq!(egraph.id_len(), 6);
}

#[test]
fn egraph_add_expr_finds_added_nodes() {
    let mut egraph = EGraph::new();
    let x = egraph.add(leaf("x"));
    let y = egraph.add(leaf("y"));
    let plus = egraph.add(node("+", vec![x, y]));
    let expr = vec![leaf("x"), leaf("y"), node("+", vec![Id(0), Id(1)])];
    assert_eq!(egraph.add_expr(&expr), plus);
    assert_eq!(egraph.total_size(), 3);
    let expr2 = vec![leaf("z"), node("+", vec![Id(0), Id(0)])];
    let p2 = egraph.add_expr(&expr2);
    assert_ne!(p2, plus);
    assert_eq!(egraph.total_size(), 5);
}

#[test]
fn egraph_lookup_expr_ids_and_lookup_expr() {
    let mut egraph = EGraph::new();
    let x = egraph.add(leaf("x"));
    let y = egraph.add(leaf("y"));
    let plus = egraph.add(node("+", vec![x, y]));
    let expr = vec![leaf("x"), leaf("y"), node("+", vec![Id(0), Id(1)])];
    assert_eq!(egraph.lookup_expr_ids(&expr), Some(vec![x, y, plus]));
    assert_eq!(egraph.lookup_expr(&expr), Some(plus));
    let missing = vec![leaf("x"), leaf("z"), node("+", vec![Id(0), Id(1)])];
    assert_eq!(egraph.lookup_expr_ids(&missing), None);
    assert_eq!(egraph.lookup_expr(&missing), None);
    let empty: Vec<SymbolLang> = vec![];
    assert_eq!(egraph.lookup_expr(&empty), None);
}

fn pat(s: &str) -> easter_egg::pattern::PatternAst {
    easter_egg::pattern::PatternAst::from_str(s).unwrap()
}

fn var(s: &str) -> easter_egg::subst::Var {
    easter_egg::subst::Var::from_str(s).unwrap()
}

#[test]
fn egraph_search_eclass_binds_children() {
    let mut egraph = EGraph::new();
    let a = egraph.add(leaf("a"));
    let fa = egraph.add(node("f", vec![a]));
    let found = egraph.search_eclass(&pat("(f ?x)"), fa);
    assert_eq!(found.len(), 1);
    assert_eq!(found[0].get(&var("?x")), Some(&a));
    assert_eq!(egraph.search_eclass(&pat("(f ?x)"), a).len(), 0);
    let root = egraph.search_eclass(&pat("?y"), a);
    assert_eq!(root.len(), 1);
    assert_eq!(root[0].get(&var("?y")), Some(&a));
}

#[test]
fn egraph_search_repeated_variable_needs_equal_classes() {
    let mut egraph = EGraph::new();
    let a = egraph.add(leaf("a"));
    let b = egraph.add(leaf("b"));
    let gab = egraph.add(node("g", vec![a, b]));
    assert_eq!(egraph.search_eclass(&pat("(g ?x ?x)"), gab).len(), 0);
    assert_eq!(egraph.search_eclass(&pat("(g ?x ?y)"), gab).len(), 1);
    egraph.union(a, b);
    egraph.rebuild();
    let g = egraph.find(gab);
    let found = egraph.search_eclass(&pat("(g ?x ?x)"), g);
    assert_eq!(found.len(), 1);
    assert_eq!(egraph.search_eclass(&pat("(g a ?z)"), g).len(), 1);
    assert_eq!(egraph.search_eclass(&pat("(g c ?z)"), g).len(), 0);
}

#[test]
fn egraph_search_lists_matching_classes() {
    let mut egraph = EGraph::new();
    let a = egraph.add(leaf("a"));
    let b = egraph.add(leaf("b"));
    let fa = egraph.add(node("f", vec![a]));
    let fb = egraph.add(node("f", vec![b]));
    let found = egraph.search(&pat("(f ?x)"));
    assert_eq!(found.len(), 2);
    assert_eq!(found[0].0, fa);
    assert_eq!(found[1].0, fb);
    assert_eq!(found[0].1[0].get(&var("?x")), Some(&a));
    assert_eq!(found[1].1[0].get(&var("?x")), Some(&b));
    assert_eq!(egraph.search(&pat("(h ?x)")).len(), 0);
}

#[test]
fn egraph_search_eclass_finds_every_match() {
    let mut egraph = EGraph::new();
    let a = egraph.add(leaf("a"));
    let b = egraph.add(leaf("b"));
    let c = egraph.add(leaf("c"));
    let fab = egraph.add(node("f", vec![a, b]));
    let fac = egraph.add(node("f", vec![a, c]));
    egraph.union(fab, fac);
    egraph.rebuild();
    let root = egraph.find(fab);
    let found = egraph.search_eclass(&pat("(f ?x ?y)"), root);
    assert_eq!(found.len(), 2);
    let mut ys: Vec<Id> = found.iter().map(|s| *s.get(&var("?y")).unwrap()).collect();
    ys.sort();
    assert_eq!(ys, vec![b, c]);
    for s in found.iter() {
        assert_eq!(s.get(&var("?x")), Some(&a));
    }
}

#[test]
fn egraph_search_finds_every_class() {
    let mut egraph = EGraph::new();
    let a = egraph.add(leaf("a"));
    let b = egraph.add(leaf("b"));
    let ga = egraph.add(node("g", vec![a, a]));
    let gb = egraph.add(node("g", vec![b, b]));
    let _gab = egraph.add(node("g", vec![a, b]));
    let found = egraph.search(&pat("(g ?x ?x)"));
    assert_eq!(found.len(), 2);
    assert_eq!(found[0].0, ga);
    assert_eq!(found[1].0, gb);
}

fn bindings(found: &[easter_egg::subst::Subst], vars: &[&str]) -> Vec<Vec<Id>> {
    let mut out: Vec<Vec<Id>> = found
        .iter()
        .map(|s| vars.iter().map(|v| *s.get(&var(v)).unwrap()).collect())
        .collect();
    out.sort();
    out.dedup();
    out
}

#[test]
fn egraph_run_program_agrees_with_search() {
    let mut egraph = EGraph::new();
    let a = egraph.add(leaf("a"));
    let b = egraph.add(leaf("b"));
    let fab = egraph.add(node("f", vec![a, b]));
    let fba = egraph.add(node("f", vec![b, a]));
    let gf = egraph.add(node("g", vec![fab, a]));
    let _gg = egraph.add(node("g", vec![fba, b]));
    egraph.union(fab, fba);
    egraph.rebuild();
    let cases: Vec<(&str, Vec<&str>)> = vec![
        ("(g (f ?x ?y) ?x)", vec!["?x", "?y"]),
        ("(f ?x ?y)", vec!["?x", "?y"]),
        ("(g ?z ?w)", vec!["?z", "?w"]),
        ("?q", vec!["?q"]),
        ("(f a ?y)", vec!["?y"]),
    ];
    for (p, vars) in cases {
        let prog = easter_egg::machine::Program::compile_from_pat(&pat(p));
        for id in [a, b, fab, gf] {
            let class = egraph.find(id);
            let by_machine = egraph.run_program(&prog, class, 1000);
            let by_search = egraph.search_eclass(&pat(p), class);
            assert_eq!(bindings(&by_machine, &vars), bindings(&by_search, &vars), "pattern {} in class {:?}", p, class);
        }
    }
    let prog = easter_egg::machine::Program::compile_from_pat(&pat("(f ?x ?y)"));
    let root = egraph.find(fab);
    assert_eq!(egraph.run_program(&prog, root, 1000).len(), 2);
    assert_eq!(egraph.run_program(&prog, root, 1).len(), 1);
    assert_eq!(egraph.run_program(&prog, a, 1000).len(), 0);
}
