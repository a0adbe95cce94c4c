use easter_egg::unionfind::{SimpleUnionFind, UnionFind, MutUnionFind};
use easter_egg::keyed_union_find::UnionFindWrapper;
use easter_egg::Id;

fn parents_of(uf: &SimpleUnionFind) -> Vec<Id> {
    (0..uf.len()).map(|i| uf.parent(Id(i as u32))).collect()
}

fn ids(us: impl IntoIterator<Item = usize>) -> Vec<Id> {
    us.into_iter().map(|u| Id::from(u)).collect()
}

#[test]
fn unionfind_union_find() {
    let n = 10;
    let id = Id::from;

    let mut uf = SimpleUnionFind::default();
    for _ in 0..n {
        uf.make_set();
    }

    // test the initial condition of everyone in their own set
    assert_eq!(parents_of(&uf), ids(0..n));

    // build up one set
    uf.union(id(0), id(1));
    uf.union(id(0), id(2));
    uf.union(id(0), id(3));

    // build up another set
    uf.union(id(6), id(7));
    uf.union(id(6), id(8));
    uf.union(id(6), id(9));

    // this should compress all paths
    for i in 0..n {
        uf.find_mut(id(i));
    }

    // indexes:         0, 1, 2, 3, 4, 5, 6, 7, 8, 9
    let expected = vec![0, 0, 0, 0, 4, 5, 6, 6, 6, 6];
    assert_eq!(parents_of(&uf), ids(expected));
}

#[test]
fn union_keeps_first_leader() {
    let mut uf = SimpleUnionFind::new();
    for _ in 0..5 {
        uf.make_set();
    }
    assert_eq!(uf.union(Id(4), Id(2)), (Id(4), Id(2)));
    assert_eq!(uf.union(Id(1), Id(4)), (Id(1), Id(4)));
    assert_eq!(uf.find(Id(4)), Id(1));
    assert_eq!(uf.find(Id(2)), Id(1));
    assert_eq!(uf.find(Id(3)), Id(3));
    // a union of one set with itself changes nothing
    assert_eq!(uf.union(Id(2), Id(4)), (Id(1), Id(1)));
    assert_eq!(SimpleUnionFind::iter(&uf), vec![Id(0), Id(1), Id(3)]);
}

#[test]
fn find_outside_returns_the_id() {
    let mut uf = SimpleUnionFind::new();
    uf.make_set();
    assert_eq!(uf.find(Id(7)), Id(7));
    assert_eq!(uf.find(Id(0)), Id(0));
}

#[test]
fn find_mut_points_path_at_leader() {
    let mut uf = SimpleUnionFind::new();
    for _ in 0..4 {
        uf.make_set();
    }
    uf.union_no_swap(Id(1), Id(0));
    uf.union_no_swap(Id(2), Id(1));
    uf.union_no_swap(Id(3), Id(2));
    // 0 -> 1 -> 2 -> 3
    assert_eq!(parents_of(&uf), ids([1, 2, 3, 3]));
    assert_eq!(uf.find_mut(Id(0)), Id(3));
    assert_eq!(parents_of(&uf), ids([3, 3, 3, 3]));
}

#[test]
fn union_no_swap_keeps_first_leader() {
    let mut uf = SimpleUnionFind::new();
    for _ in 0..3 {
        uf.make_set();
    }
    assert_eq!(uf.union_no_swap(Id(2), Id(0)), (Id(2), Id(0)));
    assert_eq!(uf.find(Id(0)), Id(2));
}

#[test]
fn find_is_idempotent_and_joins() {
    let mut uf = SimpleUnionFind::new();
    for _ in 0..6 {
        uf.make_set();
    }
    uf.union(Id(5), Id(3));
    uf.union(Id(3), Id(4));
    let l = uf.find(Id(5));
    assert_eq!(uf.find(l), l);
    assert_eq!(uf.find(Id(4)), uf.find(Id(5)));
    assert_ne!(uf.find(Id(0)), uf.find(Id(5)));
}

#[test]
fn trait_calls_agree() {
    let mut uf = SimpleUnionFind::new();
    for _ in 0..4 {
        uf.make_set();
    }
    let r = <SimpleUnionFind as UnionFind<Id>>::union(&mut uf, Id(3), Id(1));
    assert_eq!(r, (Id(3), Id(1)));
    assert_eq!(<SimpleUnionFind as UnionFind<Id>>::find(&uf, Id(1)), Id(3));
    assert_eq!(<SimpleUnionFind as MutUnionFind<Id>>::find_mut(&mut uf, Id(1)), Id(3));
    assert_eq!(<SimpleUnionFind as UnionFind<Id>>::len(&uf), 4);
}

#[test]
fn wrapper_union_find_and_remove() {
    let mut uf = UnionFindWrapper::default();
    // absent keys are their own leaders
    assert_eq!(uf.find(Id(40)), Id(40));
    // union inserts missing keys; the smaller key leads
    assert_eq!(uf.union(Id(30), Id(10)), (Id(10), Id(30)));
    assert_eq!(uf.union(Id(20), Id(30)), (Id(10), Id(20)));
    assert_eq!(uf.find(Id(20)), Id(10));
    assert_eq!(uf.find_mut(Id(30)), Id(10));
    assert_eq!(uf.len(), 3);
    assert!(uf.contains(&Id(20)));
    assert_eq!(uf.iter(), vec![Id(10), Id(20), Id(30)]);
    // the leader cannot be removed, a member can
    assert_eq!(uf.remove(&Id(10)), None);
    assert_eq!(uf.remove(&Id(99)), None);
    assert_eq!(uf.remove(&Id(30)), Some(()));
    assert!(!uf.contains(&Id(30)));
    assert_eq!(uf.find(Id(20)), Id(10));
    assert_eq!(uf.len(), 2);
    uf.insert(Id(5));
    uf.insert(Id(5));
    assert_eq!(uf.len(), 3);
    assert_eq!(uf.find(Id(5)), Id(5));
}
