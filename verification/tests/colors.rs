use easter_egg::colors::{black_color, Color};
use easter_egg::{ColorId, Id};

fn sorted(mut v: Vec<Id>) -> Vec<Id> {
    v.sort();
    v
}

#[test]
fn black_color_is_zero() {
    assert_eq!(usize::from(black_color()), 0);
    assert_eq!(black_color(), ColorId::from(0usize));
}

#[test]
fn new_color_records_its_lineage() {
    let top = Color::new(ColorId::from(1usize), None);
    assert_eq!(top.get_id(), ColorId::from(1usize));
    assert_eq!(top.parent(), None);
    assert!(top.parents().is_empty());
    assert!(top.children().is_empty());
    assert!(!top.is_dirty());

    let child = Color::new(ColorId::from(2usize), Some(&top));
    assert_eq!(child.parent(), Some(ColorId::from(1usize)));
    assert_eq!(child.parents(), &[ColorId::from(1usize)]);

    let grandchild = Color::new(ColorId::from(3usize), Some(&child));
    assert_eq!(grandchild.parent(), Some(ColorId::from(2usize)));
    assert_eq!(grandchild.parents(), &[ColorId::from(1usize), ColorId::from(2usize)]);
}

#[test]
fn colored_union_merges_classes_under_smaller_leader() {
    let mut c = Color::new(ColorId::from(1usize), None);
    assert_eq!(c.find(Id(5)), Id(5));
    assert_eq!(c.base_equality_class(Id(5)), None);

    assert_eq!(c.inner_colored_union(Id(5), Id(3)), (Id(3), Id(5)));
    assert!(c.is_dirty());
    assert_eq!(c.find(Id(5)), Id(3));
    assert_eq!(c.find(Id(3)), Id(3));
    assert_eq!(sorted(c.base_equality_class(Id(5)).unwrap()), vec![Id(3), Id(5)]);
    assert_eq!(c.current_black_reps(), vec![Id(3)]);

    assert_eq!(c.inner_colored_union(Id(7), Id(5)), (Id(3), Id(7)));
    assert_eq!(sorted(c.base_equality_class(Id(7)).unwrap()), vec![Id(3), Id(5), Id(7)]);
    assert_eq!(c.find_mut(Id(7)), Id(3));

    // A union within one class changes nothing.
    assert_eq!(c.inner_colored_union(Id(7), Id(3)), (Id(3), Id(3)));
    assert_eq!(c.current_black_reps(), vec![Id(3)]);

    // A separate class.
    assert_eq!(c.inner_colored_union(Id(10), Id(12)), (Id(10), Id(12)));
    assert_eq!(sorted(c.current_black_reps()), vec![Id(3), Id(10)]);
    assert_eq!(sorted(c.base_equality_class(Id(12)).unwrap()), vec![Id(10), Id(12)]);
    assert_eq!(c.base_equality_class(Id(11)), None);

    // Joining the two classes keeps the smaller leader's record only.
    assert_eq!(c.inner_colored_union(Id(12), Id(5)), (Id(3), Id(10)));
    assert_eq!(c.current_black_reps(), vec![Id(3)]);
    assert_eq!(
        sorted(c.base_equality_class(Id(10)).unwrap()),
        vec![Id(3), Id(5), Id(7), Id(10), Id(12)]
    );
}
