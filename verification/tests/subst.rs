use easter_egg::subst::{Subst, Var, VarParseError};
use easter_egg::{ColorId, Id};

#[test]
fn var_parse() {
    assert_eq!(Var::from_str("?a").unwrap().to_string(), "?a");
    assert_eq!(Var::from_str("?abc 123").unwrap().to_string(), "?abc 123");
    assert!(Var::from_str("a").is_err());
    assert!(Var::from_str("a?").is_err());
    assert!(Var::from_str("?").is_err());
}

#[test]
fn var_parse_error_carries_text() {
    match Var::from_str("x?") {
        Err(VarParseError::MissingQuestionMark(t)) => assert_eq!(t, "x?"),
        Ok(_) => panic!("parsed a variable without a leading ?"),
    }
}

fn var(s: &str) -> Var {
    Var::from_str(s).unwrap()
}

#[test]
fn subst_insert_then_get() {
    let mut s = Subst::with_capacity(2);
    assert_eq!(s.insert(var("?x"), Id(1)), None);
    assert_eq!(s.insert(var("?y"), Id(2)), None);
    // rebinding returns the old id and replaces in place
    assert_eq!(s.insert(var("?x"), Id(3)), Some(Id(1)));
    assert_eq!(s.get(&var("?x")), Some(&Id(3)));
    assert_eq!(s.get(&var("?y")), Some(&Id(2)));
    assert_eq!(s.get(&var("?z")), None);
    assert_eq!(s.index(&var("?y")), Id(2));
    assert_eq!(s.len(), 2);
    assert_eq!(s.color(), None);
}

#[test]
fn subst_merge_keeps_first_and_adds_second() {
    let mut a = Subst::with_capacity(2);
    a.insert(var("?x"), Id(1));
    let mut b = Subst::colored_with_capacity(2, Some(ColorId::from(4)));
    b.insert(var("?x"), Id(1));
    b.insert(var("?y"), Id(7));
    let m = a.merge(b);
    assert_eq!(m.get(&var("?x")), Some(&Id(1)));
    assert_eq!(m.get(&var("?y")), Some(&Id(7)));
    assert_eq!(m.color(), Some(ColorId::from(4)));
    assert_eq!(m.len(), 2);
}

#[test]
fn subst_same_as_compares_values() {
    let mut a = Subst::with_capacity(1);
    a.insert(var("?x"), Id(1));
    let b = a.duplicate();
    assert!(a.same_as(&b));
    let mut c = Subst::colored_with_capacity(1, Some(ColorId::from(1)));
    c.insert(var("?x"), Id(1));
    assert!(!a.same_as(&c));
}

#[test]
fn id_conversions_and_text() {
    assert_eq!(Id::from(7usize), Id(7));
    assert_eq!(usize::from(Id(9)), 9usize);
    assert_eq!(usize::from(ColorId::from(3usize)), 3usize);
    assert_eq!(Id(120).to_string(), "120");
    assert_eq!(ColorId::from(0usize).to_string(), "0");
}

#[test]
fn subst_text_lists_bindings_then_color() {
    let mut s = Subst::with_capacity(2);
    s.insert(Var::from_str("?x").unwrap(), Id(1));
    s.insert(Var::from_str("?y").unwrap(), Id(22));
    assert_eq!(s.to_string(), "{?x: 1, ?y: 22 color: None}");
    let mut c = Subst::colored_with_capacity(1, Some(ColorId::from(2usize)));
    c.insert(Var::from_str("?a").unwrap(), Id(3));
    assert_eq!(c.to_string(), "{?a: 3 color: 2}");
    assert_eq!(Subst::with_capacity(0).to_string(), "{ color: None}");
}

#[test]
fn integers_convert_into_ids() {
    let a: Id = 7u32.into();
    assert_eq!(a, Id(7));
    let b: Id = (-1i32).into();
    assert_eq!(b, Id(u32::MAX));
}
