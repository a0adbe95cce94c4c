//! Small utilities: a queue that holds each element at most once, and
//! building a collection from a single element.

use vstd::prelude::*;

use std::collections::VecDeque;
use indexmap::IndexSet;

use crate::index_support::{index_set_items, index_set_new, index_set_insert, index_set_swap_remove};

use crate::Id;

verus! {

/// A queue that holds each element at most once: inserting an element that
/// is already queued does nothing. Its view is the queue, front first.
pub struct UniqueQueue {
    set: IndexSet<u32>,
    queue: VecDeque<u32>,
}

impl View for UniqueQueue {
    type V = Seq<u32>;

    closed spec fn view(&self) -> Seq<u32> {
        self.queue@
    }
}

/// The view of a list of ids.
pub open spec fn ids_view(v: Seq<Id>) -> Seq<u32> {
    v.map_values(|x: Id| x.0)
}

/// The queue after `xs` are inserted one by one into `q`.
pub open spec fn insert_all(q: Seq<u32>, xs: Seq<u32>) -> Seq<u32>
    decreases xs.len(),
{
    if xs.len() == 0 {
        q
    } else {
        let q2 = insert_all(q, xs.drop_last());
        if q2.contains(xs.last()) {
            q2
        } else {
            q2.push(xs.last())
        }
    }
}

impl UniqueQueue {
    /// The set and the queue hold the same elements, and the queue holds
    /// each once.
    pub closed spec fn wf(&self) -> bool {
        &&& index_set_items(self.set) == self.queue@.to_set()
        &&& self.queue@.no_duplicates()
    }

    /// An empty queue.
    pub fn new() -> (r: Self)
        ensures
            r.wf(),
            r@ == Seq::<u32>::empty(),
    {
        let r = UniqueQueue { set: index_set_new(), queue: VecDeque::new() };
        proof {
            assert(index_set_items(r.set) =~= r.queue@.to_set());
        }
        r
    }

    /// Adds `t` at the back, unless it is already queued.
    pub fn insert(&mut self, t: Id)
        requires
            old(self).wf(),
        ensures
            final(self).wf(),
            final(self)@ == (if old(self)@.contains(t.0) {
                old(self)@
            } else {
                old(self)@.push(t.0)
            }),
    {
        let ghost q0 = self.queue@;
        proof {
            assert(q0.to_set().contains(t.0) == q0.contains(t.0));
        }
        if index_set_insert(&mut self.set, t.0) {
            self.queue.push_back(t.0);
            proof {
                q0.lemma_push_to_set_commute(t.0);
                assert forall|i: int, j: int|
                    0 <= i < self.queue@.len() && 0 <= j < self.queue@.len() && i != j implies self.queue@[i]
                    != self.queue@[j] by {
                    if j == q0.len() {
                        assert(q0[i] != t.0);
                    } else if i == q0.len() {
                        assert(q0[j] != t.0);
                    }
                }
            }
        } else {
            proof {
                assert(index_set_items(self.set) =~= q0.to_set());
            }
        }
    }

    /// Adds each of `items` in turn, as [`insert`](Self::insert) does.
    pub fn extend(&mut self, items: Vec<Id>)
        requires
            old(self).wf(),
        ensures
            final(self).wf(),
            final(self)@ == insert_all(old(self)@, ids_view(items@)),
    {
        let mut i: usize = 0;
        while i < items.len()
            invariant
                0 <= i <= items@.len(),
                self.wf(),
                self@ == insert_all(old(self)@, ids_view(items@).subrange(0, i as int)),
            decreases items@.len() - i,
        {
            let ghost pre = ids_view(items@).subrange(0, i as int);
            let ghost next = ids_view(items@).subrange(0, i + 1);
            proof {
                assert(next.drop_last() =~= pre);
                assert(next.last() == items@[i as int].0);
            }
            self.insert(items[i]);
            i = i + 1;
        }
        proof {
            assert(ids_view(items@).subrange(0, items@.len() as int) =~= ids_view(items@));
        }
    }

    /// Takes the front element, if any.
    pub fn pop(&mut self) -> (r: Option<Id>)
        requires
            old(self).wf(),
        ensures
            final(self).wf(),
            old(self)@.len() == 0 ==> r is None && final(self)@ == old(self)@,
            old(self)@.len() > 0 ==> r == Some(Id(old(self)@[0])) && final(self)@ == old(self)@.drop_first(),
    {
        let ghost q0 = self.queue@;
        let res = self.queue.pop_front();
        match res {
            Some(t) => {
                let was = index_set_swap_remove(&mut self.set, t);
                proof {
                    assert(self.queue@ =~= q0.drop_first());
                    assert forall|x: u32| #[trigger] index_set_items(self.set).contains(x)
                        == self.queue@.to_set().contains(x) by {
                        if x == t {
                            if self.queue@.contains(x) {
                                let j = choose|j: int| 0 <= j < self.queue@.len() && self.queue@[j] == x;
                                assert(q0[j + 1] == q0[0]);
                            }
                        } else {
                            if q0.contains(x) {
                                let j = choose|j: int| 0 <= j < q0.len() && q0[j] == x;
                                assert(j != 0);
                                assert(self.queue@[j - 1] == x);
                            }
                            if self.queue@.contains(x) {
                                let j = choose|j: int| 0 <= j < self.queue@.len() && self.queue@[j] == x;
                                assert(q0[j + 1] == x);
                            }
                        }
                    }
                    assert(index_set_items(self.set) =~= self.queue@.to_set());
                    assert(self.queue@.no_duplicates()) by {
                        assert forall|i: int, j: int|
                            0 <= i < self.queue@.len() && 0 <= j < self.queue@.len() && i != j implies self.queue@[i]
                            != self.queue@[j] by {
                            assert(self.queue@[i] == q0[i + 1]);
                            assert(self.queue@[j] == q0[j + 1]);
                        }
                    }
                }
                Some(Id(t))
            },
            None => None,
        }
    }

    /// Whether the queue is empty.
    pub fn is_empty(&self) -> (r: bool)
        requires
            self.wf(),
        ensures
            r == (self@.len() == 0),
    {
        self.queue.len() == 0
    }

    /// The queued elements, front first.
    pub fn into_vec(self) -> (r: Vec<Id>)
        ensures
            ids_view(r@) == self@,
    {
        let mut q = self.queue;
        let mut out: Vec<Id> = Vec::new();
        let ghost q0 = q@;
        while q.len() > 0
            invariant
                ids_view(out@) + q@ == q0,
            decreases q@.len(),
        {
            let ghost before = q@;
            let x = q.pop_front().unwrap();
            let ghost o = ids_view(out@);
            out.push(Id(x));
            proof {
                assert(ids_view(out@) =~= o.push(x));
                assert(ids_view(out@) + q@ =~= o + before);
            }
        }
        proof {
            assert(ids_view(out@) =~= q0);
        }
        out
    }

    /// A queue of `items`, inserted in turn.
    pub fn from_vec(items: Vec<Id>) -> (r: Self)
        ensures
            r.wf(),
            r@ == insert_all(Seq::empty(), ids_view(items@)),
    {
        let mut q = UniqueQueue::new();
        q.extend(items);
        q
    }
}

impl Default for UniqueQueue {
    fn default() -> (r: Self)
        ensures
            r.wf(),
            r@ == Seq::<u32>::empty(),
    {
        UniqueQueue::new()
    }
}

/// Building a collection from a single element.
pub trait Singleton<T>: Sized {
    /// The collection holding just `t`.
    fn singleton(t: T) -> Self;
}

impl<T> Singleton<T> for Vec<T> {
    fn singleton(t: T) -> (r: Vec<T>)
        ensures
            r@ == seq![t],
    {
        let mut v = Vec::new();
        v.push(t);
        v
    }
}

} // verus!
