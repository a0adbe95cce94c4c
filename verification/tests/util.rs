use easter_egg::util::{Singleton, UniqueQueue};
use easter_egg::Id;

#[test]
fn unique_queue_keeps_first_insertion_only() {
    let mut q = UniqueQueue::new();
    assert!(q.is_empty());
    q.insert(Id(1));
    q.insert(Id(2));
    q.insert(Id(1));
    q.insert(Id(3));
    assert!(!q.is_empty());
    assert_eq!(q.into_vec(), vec![Id(1), Id(2), Id(3)]);
}

#[test]
fn unique_queue_pop_frees_the_element() {
    let mut q = UniqueQueue::default();
    q.extend(vec![Id(4), Id(5), Id(4)]);
    assert_eq!(q.pop(), Some(Id(4)));
    // Once popped, the element can be queued again, at the back.
    q.insert(Id(4));
    assert_eq!(q.pop(), Some(Id(5)));
    assert_eq!(q.pop(), Some(Id(4)));
    assert_eq!(q.pop(), None);
    assert!(q.is_empty());
}

#[test]
fn unique_queue_from_vec_drops_repeats() {
    let q = UniqueQueue::from_vec(vec![Id(7), Id(7), Id(2), Id(7), Id(9), Id(2)]);
    assert_eq!(q.into_vec(), vec![Id(7), Id(2), Id(9)]);
}

#[test]
fn singleton_vec_holds_one_element() {
    let v: Vec<u32> = Singleton::singleton(5);
    assert_eq!(v, vec![5]);
    let w = <Vec<Id> as Singleton<Id>>::singleton(Id(3));
    assert_eq!(w, vec![Id(3)]);
}
