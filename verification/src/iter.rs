//! The iterators that a heap hands out. Each owns or borrows what it still
//! has to yield, and its view is exactly that: what is left can be read off
//! the iterator at any time, not only foretold. The owning ones hold their
//! elements in a queue, so that both ends can be taken from.

use crate::ext_heap::ExtHeap;
use crate::order::{le, total_order};
use std::collections::VecDeque;
use vstd::prelude::*;

verus! {

/// Yields references to the elements of a heap in the order of their slots.
#[derive(Debug)]
pub struct Iter<'a, T> {
    items: &'a [T],
    front: usize,
    back: usize,
}

impl<'a, T> View for Iter<'a, T> {
    type V = Seq<T>;

    closed spec fn view(&self) -> Seq<T> {
        self.items@.subrange(self.front as int, self.back as int)
    }
}

impl<'a, T> Iter<'a, T> {
    #[verifier::type_invariant]
    spec fn inv(&self) -> bool {
        self.front <= self.back <= self.items@.len()
    }

    pub(crate) fn new(items: &'a [T]) -> (it: Self)
        ensures
            it@ == items@,
    {
        let it = Iter { items, front: 0, back: items.len() };
        assert(it@ =~= items@);
        it
    }

    /// The next element from the front, or `None` when none is left.
    pub fn next(&mut self) -> (r: Option<&'a T>)
        ensures
            match r {
                None => old(self)@.len() == 0 && final(self)@ == old(self)@,
                Some(e) => old(self)@.len() > 0 && *e == old(self)@[0] && final(self)@ == old(
                    self,
                )@.drop_first(),
            },
    {
        proof {
            use_type_invariant(&*self);
        }
        if self.front < self.back {
            let e = &self.items[self.front];
            self.front = self.front + 1;
            assert(self@ =~= old(self)@.drop_first());
            Some(e)
        } else {
            None
        }
    }

    /// The next element from the back, or `None` when none is left.
    pub fn next_back(&mut self) -> (r: Option<&'a T>)
        ensures
            match r {
                None => old(self)@.len() == 0 && final(self)@ == old(self)@,
                Some(e) => old(self)@.len() > 0 && *e == old(self)@.last() && final(self)@ == old(
                    self,
                )@.drop_last(),
            },
    {
        proof {
            use_type_invariant(&*self);
        }
        if self.front < self.back {
            self.back = self.back - 1;
            let e = &self.items[self.back];
            assert(self@ =~= old(self)@.drop_last());
            Some(e)
        } else {
            None
        }
    }

    /// The number of elements left, as a lower and an upper bound.
    pub fn size_hint(&self) -> (r: (usize, Option<usize>))
        ensures
            r.0 == self@.len(),
            r.1 == Some(r.0),
    {
        proof {
            use_type_invariant(self);
        }
        let left = self.back - self.front;
        (left, Some(left))
    }

    /// The last element left, or `None` when none is left.
    pub fn last(self) -> (r: Option<&'a T>)
        ensures
            match r {
                None => self@.len() == 0,
                Some(e) => self@.len() > 0 && *e == self@.last(),
            },
    {
        proof {
            use_type_invariant(&self);
        }
        if self.front < self.back {
            Some(&self.items[self.back - 1])
        } else {
            None
        }
    }

    /// Whether no element is left.
    pub fn is_empty(&self) -> (r: bool)
        ensures
            r == (self@.len() == 0),
    {
        proof {
            use_type_invariant(self);
        }
        self.front == self.back
    }
}

/// Moves the elements of `items` into a queue, first slot first.
fn queue_of<T>(items: Vec<T>) -> (queue: VecDeque<T>)
    ensures
        queue@ == items@,
{
    let mut items = items;
    let ghost given = items@;
    let mut queue: VecDeque<T> = VecDeque::new();
    while items.len() > 0
        invariant
            given == items@ + queue@,
        decreases items.len(),
    {
        let ghost before = items@;
        let ghost held = queue@;
        match items.pop() {
            Some(e) => {
                queue.push_front(e);
                assert(items@ + queue@ =~= before + held);
            },
            None => {},
        }
    }
    assert(queue@ =~= given);
    queue
}

/// Yields the elements of a heap in the order of their slots.
#[derive(Clone, Debug)]
pub struct IntoIter<T> {
    items: VecDeque<T>,
}

impl<T> View for IntoIter<T> {
    type V = Seq<T>;

    closed spec fn view(&self) -> Seq<T> {
        self.items@
    }
}

impl<T> IntoIter<T> {
    pub(crate) fn new(items: Vec<T>) -> (it: Self)
        ensures
            it@ == items@,
    {
        IntoIter { items: queue_of(items) }
    }

    /// The next element from the front, or `None` when none is left.
    pub fn next(&mut self) -> (r: Option<T>)
        ensures
            match r {
                None => old(self)@.len() == 0 && final(self)@ == old(self)@,
                Some(e) => old(self)@.len() > 0 && e == old(self)@[0] && final(self)@ == old(
                    self,
                )@.drop_first(),
            },
    {
        let r = self.items.pop_front();
        assert(old(self)@.len() > 0 ==> self@ =~= old(self)@.drop_first());
        r
    }

    /// The next element from the back, or `None` when none is left.
    pub fn next_back(&mut self) -> (r: Option<T>)
        ensures
            match r {
                None => old(self)@.len() == 0 && final(self)@ == old(self)@,
                Some(e) => old(self)@.len() > 0 && e == old(self)@.last() && final(self)@ == old(
                    self,
                )@.drop_last(),
            },
    {
        let r = self.items.pop_back();
        assert(old(self)@.len() > 0 ==> self@ =~= old(self)@.drop_last());
        r
    }

    /// The number of elements left, as a lower and an upper bound.
    pub fn size_hint(&self) -> (r: (usize, Option<usize>))
        ensures
            r.0 == self@.len(),
            r.1 == Some(r.0),
    {
        let left = self.items.len();
        (left, Some(left))
    }

    /// Whether no element is left.
    pub fn is_empty(&self) -> (r: bool)
        ensures
            r == (self@.len() == 0),
    {
        self.items.len() == 0
    }
}

/// Yields the elements that were drained from a heap, in the order of their
/// slots.
#[derive(Debug)]
pub struct Drain<T> {
    items: VecDeque<T>,
}

impl<T> View for Drain<T> {
    type V = Seq<T>;

    closed spec fn view(&self) -> Seq<T> {
        self.items@
    }
}

impl<T> Drain<T> {
    pub(crate) fn new(items: Vec<T>) -> (it: Self)
        ensures
            it@ == items@,
    {
        Drain { items: queue_of(items) }
    }

    /// The next element from the front, or `None` when none is left.
    pub fn next(&mut self) -> (r: Option<T>)
        ensures
            match r {
                None => old(self)@.len() == 0 && final(self)@ == old(self)@,
                Some(e) => old(self)@.len() > 0 && e == old(self)@[0] && final(self)@ == old(
                    self,
                )@.drop_first(),
            },
    {
        let r = self.items.pop_front();
        assert(old(self)@.len() > 0 ==> self@ =~= old(self)@.drop_first());
        r
    }

    /// The next element from the back, or `None` when none is left.
    pub fn next_back(&mut self) -> (r: Option<T>)
        ensures
            match r {
                None => old(self)@.len() == 0 && final(self)@ == old(self)@,
                Some(e) => old(self)@.len() > 0 && e == old(self)@.last() && final(self)@ == old(
                    self,
                )@.drop_last(),
            },
    {
        let r = self.items.pop_back();
        assert(old(self)@.len() > 0 ==> self@ =~= old(self)@.drop_last());
        r
    }

    /// The number of elements left, as a lower and an upper bound.
    pub fn size_hint(&self) -> (r: (usize, Option<usize>))
        ensures
            r.0 == self@.len(),
            r.1 == Some(r.0),
    {
        let left = self.items.len();
        (left, Some(left))
    }

    /// Whether no element is left.
    pub fn is_empty(&self) -> (r: bool)
        ensures
            r == (self@.len() == 0),
    {
        self.items.len() == 0
    }
}

/// Yields the elements of a heap greatest first.
#[derive(Clone, Debug)]
pub struct IntoIterSorted<T> {
    inner: ExtHeap<T>,
}

impl<T> View for IntoIterSorted<T> {
    type V = Seq<T>;

    closed spec fn view(&self) -> Seq<T> {
        self.inner@
    }
}

impl<T: Ord> IntoIterSorted<T> {
    /// What is left is in heap order.
    pub closed spec fn wf(&self) -> bool {
        self.inner.wf()
    }

    pub(crate) fn new(inner: ExtHeap<T>) -> (it: Self)
        requires
            inner.wf(),
        ensures
            it@ == inner@,
            it.wf(),
    {
        IntoIterSorted { inner }
    }

    /// The greatest element left, or `None` when none is left.
    pub fn next(&mut self) -> (r: Option<T>)
        requires
            total_order::<T>(),
            old(self).wf(),
        ensures
            final(self).wf(),
            match r {
                None => old(self)@.len() == 0 && final(self)@ == old(self)@,
                Some(top) => {
                    &&& old(self)@.len() > 0
                    &&& top == old(self)@[0]
                    &&& forall|i: int| 0 <= i < old(self)@.len() ==> le(#[trigger] old(self)@[i], top)
                    &&& final(self)@.len() == old(self)@.len() - 1
                    &&& final(self)@.to_multiset() == old(self)@.to_multiset().remove(top)
                },
            },
    {
        let mut quiet = |s: &mut [T], i: usize|
            ensures
                final(s)@ == old(s)@,
            {};
        self.inner.pop(&mut quiet)
    }

    /// The number of elements left, as a lower and an upper bound.
    pub fn size_hint(&self) -> (r: (usize, Option<usize>))
        ensures
            r.0 == self@.len(),
            r.1 == Some(r.0),
    {
        let exact = self.inner.len();
        (exact, Some(exact))
    }
}

/// Yields the elements that were drained from a heap, greatest first.
#[derive(Debug)]
pub struct DrainSorted<T> {
    inner: ExtHeap<T>,
}

impl<T> View for DrainSorted<T> {
    type V = Seq<T>;

    closed spec fn view(&self) -> Seq<T> {
        self.inner@
    }
}

impl<T: Ord> DrainSorted<T> {
    /// What is left is in heap order.
    pub closed spec fn wf(&self) -> bool {
        self.inner.wf()
    }

    pub(crate) fn new(inner: ExtHeap<T>) -> (it: Self)
        requires
            inner.wf(),
        ensures
            it@ == inner@,
            it.wf(),
    {
        DrainSorted { inner }
    }

    /// The greatest element left, or `None` when none is left.
    pub fn next(&mut self) -> (r: Option<T>)
        requires
            total_order::<T>(),
            old(self).wf(),
        ensures
            final(self).wf(),
            match r {
                None => old(self)@.len() == 0 && final(self)@ == old(self)@,
                Some(top) => {
                    &&& old(self)@.len() > 0
                    &&& top == old(self)@[0]
                    &&& forall|i: int| 0 <= i < old(self)@.len() ==> le(#[trigger] old(self)@[i], top)
                    &&& final(self)@.len() == old(self)@.len() - 1
                    &&& final(self)@.to_multiset() == old(self)@.to_multiset().remove(top)
                },
            },
    {
        let mut quiet = |s: &mut [T], i: usize|
            ensures
                final(s)@ == old(s)@,
            {};
        self.inner.pop(&mut quiet)
    }

    /// The number of elements left, as a lower and an upper bound.
    pub fn size_hint(&self) -> (r: (usize, Option<usize>))
        ensures
            r.0 == self@.len(),
            r.1 == Some(r.0),
    {
        let exact = self.inner.len();
        (exact, Some(exact))
    }
}

} // verus!
