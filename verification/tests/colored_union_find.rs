use easter_egg::colored_union_find::ColoredUnionFind;
use easter_egg::Id;

#[test]
fn colored_union_find_union_find() {
    let n = 10;

    let mut uf = ColoredUnionFind::default();
    for i in 0..n {
        uf.insert(Id(i));
    }

    // build up one set
    uf.union(&Id(0), &Id(1));
    uf.union(&Id(0), &Id(2));
    uf.union(&Id(0), &Id(3));

    // build up another set
    uf.union(&Id(6), &Id(7));
    uf.union(&Id(6), &Id(8));
    uf.union(&Id(6), &Id(9));

    // indexes:         0, 1, 2, 3, 4, 5, 6, 7, 8, 9
    let expected = vec![0, 0, 0, 0, 4, 5, 6, 6, 6, 6].into_iter().map(Id).collect::<Vec<_>>();
    for i in 0..n {
        assert_eq!(uf.find(&Id(i)).unwrap(), expected[i as usize]);
    }
}

#[test]
fn test_on_str() {
    let mut uf = ColoredUnionFind::default();
    let a = Id(0);
    let b = Id(1);
    let c = Id(2);
    let d = Id(3);
    let e = Id(4);
    let x = Id(5);
    uf.insert(a);
    uf.insert(b);
    uf.insert(c);
    uf.insert(d);
    uf.insert(e);

    uf.union(&a, &b);
    uf.union(&b, &c);

    uf.union(&d, &e);

    assert_eq!(None, uf.union(&x, &a));
    assert_eq!(None, uf.union(&a, &x));
    assert_eq!(None, uf.find(&x));

    assert_eq!(uf.find(&a), uf.find(&c));
    assert_ne!(uf.find(&a), uf.find(&d));

    uf.union(&a, &d);

    assert_eq!(uf.find(&a), uf.find(&e));
    assert_eq!(a, uf.find(&a).unwrap());
}

#[test]
fn colored_remove_member_keeps_set() {
    let mut uf = ColoredUnionFind::new();
    for i in 0..4 {
        uf.insert(Id(i));
    }
    // equal sizes: the leader of the first id leads
    assert_eq!(uf.union(&Id(3), &Id(1)), Some((Id(3), Id(1))));
    // the bigger set leads
    assert_eq!(uf.union(&Id(2), &Id(3)), Some((Id(3), Id(2))));
    assert_eq!(uf.size(), 4);
    // a leader or an unknown id is refused
    assert_eq!(uf.remove(&Id(3), None::<Vec<Id>>), None);
    assert_eq!(uf.remove(&Id(7), None::<Vec<Id>>), None);
    // a member goes; the rest of its set keeps its leader
    assert_eq!(uf.remove(&Id(1), Some(vec![Id(2)])), Some(()));
    assert_eq!(uf.find(&Id(1)), None);
    assert_eq!(uf.find(&Id(2)), Some(Id(3)));
    assert_eq!(uf.size(), 3);
    // union within one set reports its leader twice
    assert_eq!(uf.union(&Id(2), &Id(3)), Some((Id(3), Id(3))));
}

#[test]
fn colored_iter_lists_ids_with_leaders() {
    let mut uf = ColoredUnionFind::default();
    for i in [5u32, 1, 3, 8] {
        uf.insert(Id(i));
    }
    uf.union(&Id(8), &Id(3));
    uf.union(&Id(5), &Id(8));
    assert_eq!(
        uf.iter(),
        vec![(Id(1), Id(1)), (Id(3), Id(8)), (Id(5), Id(8)), (Id(8), Id(8))]
    );
}
