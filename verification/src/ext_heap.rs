//! A binary max-heap that reports every element that comes to rest in another
//! slot, so that a table outside the heap can follow where each element is.
//!
//! Every operation that moves elements takes a callback and calls it with the
//! elements and a slot, once for each element that has come to rest in that
//! slot, from within the sift that moves it. The callback is an observer: it
//! is handed the elements mutably, but has to leave them as they are. The
//! contracts say what an observer learns from these calls: see
//! [`crate::notice`].
//!
//! The order of the elements is that of their comparison operators, which
//! have to form a total order: see [`crate::order::total_order`].

pub use crate::iter::{Drain, DrainSorted, IntoIter, IntoIterSorted, Iter};
use crate::notice::{
    announce, climbs, consistent, consistent_but, descends, lemma_consistent_chain,
    lemma_seen_push, lemma_silence, seen, told, Notice,
};
use crate::order::{
    below, le, lemma_le_total, lemma_le_transitive, not_above, not_below, same_rank, total_order,
    truthful,
};
use crate::shape::{
    ascending, drop_end, dropped, edge_ok, greatest_below, heap_ordered, heapified,
    heapified_from, larger_child, lemma_children, lemma_heapified_heap, lemma_ordered_from_root,
    lemma_replaced, lemma_rise_done, lemma_rise_step, lemma_root_is_greatest, lemma_sink_done,
    lemma_sink_step, lemma_sink_to_rise, lemma_swapped_multiset, ordered_from, parent_of,
    prefix_ordered, rebuilds, rebuilt_tail, refilled, removed, rise_end, risen, risen_from,
    rising, settled, sink_end, sinking, slot, sunk, sunk_from, swapped, tail_risen, with_slot,
};
use crate::vec_ext::{capacity_of, reserve_exact_in, shrink_to_fit_in, shrink_to_in};
use core::cmp::Ordering;
use vstd::layout::size_of;
use vstd::prelude::*;
use vstd::std_specs::iter::IteratorSpec;

verus! {

/// Exchanges the elements of the slots `i < j`.
fn swap_slots<T>(v: &mut Vec<T>, i: usize, j: usize)
    requires
        i < j < old(v).len(),
    ensures
        final(v)@ == swapped(old(v)@, i as int, j as int),
{
    let s = v.as_mut_slice();
    let (a, b) = s.split_at_mut(j);
    core::mem::swap(&mut a[i], &mut b[0]);
    assert(v@ =~= swapped(old(v)@, i as int, j as int));
}

/// Where an element that was changed in place has to go.
enum Way {
    Up,
    Down,
    Stay,
}

/// A priority queue over a vector, greatest element first.
#[derive(Debug)]
pub struct ExtHeap<T> {
    data: Vec<T>,
}

impl<T> View for ExtHeap<T> {
    type V = Seq<T>;

    closed spec fn view(&self) -> Seq<T> {
        self.data@
    }
}

impl<T: Ord> ExtHeap<T> {
    /// The elements are in heap order.
    pub open spec fn wf(&self) -> bool {
        heap_ordered(self@)
    }

    /// Creates an empty heap.
    pub fn new() -> (heap: ExtHeap<T>)
        ensures
            heap@ == Seq::<T>::empty(),
            heap.wf(),
    {
        ExtHeap { data: Vec::new() }
    }

    /// Creates an empty heap with room for `capacity` elements.
    pub fn with_capacity(capacity: usize) -> (heap: ExtHeap<T>)
        requires
            capacity * size_of::<T>() <= isize::MAX,
        ensures
            heap@ == Seq::<T>::empty(),
            heap.wf(),
    {
        ExtHeap { data: Vec::with_capacity(capacity) }
    }

    /// Makes a heap of the elements of `vec`, in place: the element of every
    /// slot that has a child is sifted away from the root, the last such slot
    /// first. A vector that is in heap order stays as it is.
    pub fn from(vec: Vec<T>) -> (heap: ExtHeap<T>)
        requires
            total_order::<T>(),
        ensures
            heap@ == heapified(vec@),
            heap_ordered(vec@) ==> heap@ == vec@,
            heap.wf(),
            heap@.len() == vec@.len(),
            heap@.to_multiset() == vec@.to_multiset(),
    {
        proof {
            if heap_ordered(vec@) {
                lemma_heapified_heap(vec@, vec@.len() as int / 2);
            }
        }
        let mut heap = ExtHeap { data: vec };
        let mut quiet = |s: &mut [T], i: usize|
            ensures
                final(s)@ == old(s)@,
            {};
        proof {
            lemma_silence(heap@);
        }
        let _ = heap.rebuild(&mut quiet, Ghost(heap@), Ghost(Seq::empty()));
        heap
    }

    /// Takes the heap apart into a vector in ascending order.
    pub fn into_sorted_vec(self) -> (v: Vec<T>)
        requires
            total_order::<T>(),
            self.wf(),
        ensures
            v@.len() == self@.len(),
            v@.to_multiset() == self@.to_multiset(),
            ascending(v@),
    {
        let ghost given = self@;
        let mut heap = self;
        let len = heap.data.len();
        let mut end = len;
        let mut quiet = |s: &mut [T], i: usize|
            ensures
                final(s)@ == old(s)@,
            {};
        while end > 1
            invariant
                total_order::<T>(),
                end <= len == heap@.len(),
                len == given.len(),
                prefix_ordered(heap@, end as int),
                heap@.to_multiset() == given.to_multiset(),
                forall|i: int, j: int|
                    end <= i <= j < len ==> le(#[trigger] heap@[i], #[trigger] heap@[j]),
                forall|i: int, j: int|
                    0 <= i < end <= j < len ==> le(#[trigger] heap@[i], #[trigger] heap@[j]),
                forall|s: &mut [T], i: usize| i < s@.len() ==> call_requires(quiet, (s, i)),
                forall|s: &mut [T], i: usize| #[trigger]
                    call_ensures(quiet, (s, i), ()) ==> final(s)@ == s@,
            decreases end,
        {
            end -= 1;
            let ghost s = heap@;
            swap_slots(&mut heap.data, 0, end);
            let ghost t = heap@;
            proof {
                lemma_swapped_multiset(s, 0, end as int);
                assert forall|i: int| 1 <= i < end && parent_of(i) != 0 implies #[trigger] edge_ok(
                    t,
                    i,
                ) by {
                    assert(edge_ok(s, i));
                }
                lemma_silence(t);
                assert(told(quiet, Seq::<Notice<T>>::empty()));
            }
            let _ = heap.sift_down_range(0, end, &mut quiet, Ghost(0), Ghost(t), Ghost(Seq::empty()));
            proof {
                let u = heap@;
                lemma_ordered_from_root(u, end as int);
                lemma_le_total(s[0], s[0]);
                assert forall|i: int, j: int| 0 <= i < end <= j < len implies le(
                    #[trigger] u[i],
                    #[trigger] u[j],
                ) by {
                    lemma_prefix_kept(t, u, end as int, i);
                    let k = choose|k: int| 0 <= k < end && t[k] == u[i];
                    let from = if k == 0 {
                        end as int
                    } else {
                        k
                    };
                    assert(u[i] == s[from]);
                    lemma_root_is_greatest(s, end + 1, from);
                    if j == end {
                        assert(u[j] == s[0]);
                    } else {
                        assert(u[j] == s[j]);
                    }
                }
                assert forall|i: int, j: int| end <= i <= j < len implies le(
                    #[trigger] u[i],
                    #[trigger] u[j],
                ) by {
                    if i == end {
                        assert(u[i] == s[0]);
                        if j > end {
                            assert(u[j] == s[j]);
                        }
                    } else {
                        assert(u[i] == s[i] && u[j] == s[j]);
                    }
                }
            }
        }
        proof {
            if len > 0 {
                lemma_le_total(heap@[0], heap@[0]);
            }
        }
        heap.into_vec()
    }

    /// Moves the element of slot `from` into the vacated slot `hole`, tells
    /// `func` of it, and leaves the element that is on its way in `from`.
    fn move_to<F: FnMut(&mut [T], usize)>(
        &mut self,
        hole: usize,
        from: usize,
        func: &mut F,
        Ghost(base): Ghost<Seq<T>>,
        Ghost(trace): Ghost<Seq<Notice<T>>>,
    ) -> (out: Ghost<Seq<Notice<T>>>)
        requires
            hole < old(self)@.len(),
            from < old(self)@.len(),
            hole != from,
            forall|s: &mut [T], i: usize| i < s@.len() ==> call_requires(*old(func), (s, i)),
            forall|s: &mut [T], i: usize| #[trigger]
                call_ensures(*old(func), (s, i), ()) ==> final(s)@ == s@,
            told(*old(func), trace),
            consistent_but(base, trace, old(self)@, hole as int),
        ensures
            final(self)@ == swapped(old(self)@, hole as int, from as int),
            final(self)@.to_multiset() == old(self)@.to_multiset(),
            *final(func) == *old(func),
            told(*old(func), out@),
            out@ == trace.push(Notice { layout: final(self)@, slot: hole }),
            consistent_but(base, out@, final(self)@, from as int),
    {
        if hole < from {
            swap_slots(&mut self.data, hole, from);
        } else {
            swap_slots(&mut self.data, from, hole);
            assert(self@ =~= swapped(old(self)@, hole as int, from as int));
        }
        let Ghost(next) = announce(&mut self.data, hole, func, Ghost(trace));
        proof {
            lemma_swapped_multiset(old(self)@, hole as int, from as int);
            assert forall|i: int| 0 <= i < self@.len() && i != from implies #[trigger] seen(
                base,
                next,
                i,
            ) == Some(self@[i]) by {
                lemma_seen_push(base, trace, Notice { layout: self@, slot: hole }, i);
            }
        }
        Ghost(next)
    }

    /// Tells `func` of the element that has come to rest in `hole`.
    fn settle<F: FnMut(&mut [T], usize)>(
        &mut self,
        hole: usize,
        func: &mut F,
        Ghost(base): Ghost<Seq<T>>,
        Ghost(trace): Ghost<Seq<Notice<T>>>,
    ) -> (out: Ghost<Seq<Notice<T>>>)
        requires
            hole < old(self)@.len(),
            forall|s: &mut [T], i: usize| i < s@.len() ==> call_requires(*old(func), (s, i)),
            forall|s: &mut [T], i: usize| #[trigger]
                call_ensures(*old(func), (s, i), ()) ==> final(s)@ == s@,
            told(*old(func), trace),
            consistent_but(base, trace, old(self)@, hole as int),
        ensures
            final(self)@ == old(self)@,
            *final(func) == *old(func),
            told(*old(func), out@),
            out@ == trace.push(Notice { layout: final(self)@, slot: hole }),
            consistent(base, out@, final(self)@),
    {
        let Ghost(next) = announce(&mut self.data, hole, func, Ghost(trace));
        proof {
            assert forall|i: int| 0 <= i < self@.len() implies #[trigger] seen(base, next, i)
                == Some(self@[i]) by {
                lemma_seen_push(base, trace, Notice { layout: self@, slot: hole }, i);
            }
        }
        Ghost(next)
    }

    /// Moves the element of slot `pos` towards the root until it is not above
    /// its parent. Returns the slot it came to. Where only the edge above
    /// `pos` was out of order among the first `n` slots, these are in heap
    /// order afterwards.
    fn sift_up<F: FnMut(&mut [T], usize)>(
        &mut self,
        pos: usize,
        func: &mut F,
        Ghost(n): Ghost<int>,
        Ghost(base): Ghost<Seq<T>>,
        Ghost(trace): Ghost<Seq<Notice<T>>>,
    ) -> (out: (usize, Ghost<Seq<Notice<T>>>))
        requires
            total_order::<T>(),
            pos < n <= old(self)@.len(),
            forall|s: &mut [T], i: usize| i < s@.len() ==> call_requires(*old(func), (s, i)),
            forall|s: &mut [T], i: usize| #[trigger]
                call_ensures(*old(func), (s, i), ()) ==> final(s)@ == s@,
            told(*old(func), trace),
            consistent_but(base, trace, old(self)@, pos as int),
        ensures
            final(self)@ == risen(old(self)@, pos as int),
            out.0 == rise_end(old(self)@, pos as int),
            out.0 <= pos,
            final(self)@[out.0 as int] == old(self)@[pos as int],
            rising(old(self)@, n, pos as int) ==> prefix_ordered(final(self)@, n),
            final(self)@.len() == old(self)@.len(),
            final(self)@.to_multiset() == old(self)@.to_multiset(),
            forall|i: int| pos < i < old(self)@.len() ==> final(self)@[i] == old(self)@[i],
            *final(func) == *old(func),
            told(*old(func), out.1@),
            consistent(base, out.1@, final(self)@),
            climbs(out.1@, trace, pos as int, out.0 as int),
    {
        let mut hole = pos;
        let ghost mut heard = trace;
        let ghost ordered = rising(old(self)@, n, pos as int);
        proof {
            assert(heard.subrange(0, trace.len() as int) =~= trace);
        }
        while hole > 0
            invariant
                total_order::<T>(),
                hole <= pos < n <= self@.len(),
                self@.len() == old(self)@.len(),
                risen(self@, hole as int) == risen(old(self)@, pos as int),
                rise_end(self@, hole as int) == rise_end(old(self)@, pos as int),
                ordered ==> rising(self@, n, hole as int),
                self@.to_multiset() == old(self)@.to_multiset(),
                forall|i: int| pos < i < old(self)@.len() ==> self@[i] == old(self)@[i],
                self@[hole as int] == old(self)@[pos as int],
                *func == *old(func),
                forall|s: &mut [T], i: usize| i < s@.len() ==> call_requires(*old(func), (s, i)),
                forall|s: &mut [T], i: usize| #[trigger]
                    call_ensures(*old(func), (s, i), ()) ==> final(s)@ == s@,
                told(*old(func), heard),
                consistent_but(base, heard, self@, hole as int),
                heard.len() >= trace.len(),
                heard.subrange(0, trace.len() as int) == trace,
                forall|k: int|
                    trace.len() <= k < heard.len() - 1 ==> (#[trigger] heard[k + 1]).slot
                        == parent_of(heard[k].slot as int),
                heard.len() == trace.len() ==> hole == pos,
                heard.len() > trace.len() ==> heard[trace.len() as int].slot == pos
                    && heard.last().slot >= 1 && parent_of(heard.last().slot as int) == hole,
            ensures
                hole == 0 || le(self@[hole as int], self@[parent_of(hole as int)]),
            decreases hole,
        {
            let parent = (hole - 1) / 2;
            if not_above(&self.data[hole], &self.data[parent]) {
                break;
            }
            proof {
                if ordered {
                    lemma_rise_step(self@, n, hole as int);
                    assert(swapped(self@, hole as int, parent as int) =~= swapped(
                        self@,
                        parent as int,
                        hole as int,
                    ));
                }
            }
            let Ghost(next) = self.move_to(hole, parent, func, Ghost(base), Ghost(heard));
            proof {
                assert(next.subrange(0, trace.len() as int) =~= heard.subrange(
                    0,
                    trace.len() as int,
                ));
                heard = next;
            }
            hole = parent;
        }
        proof {
            if ordered {
                lemma_rise_done(self@, n, hole as int);
            }
        }
        let Ghost(last) = self.settle(hole, func, Ghost(base), Ghost(heard));
        proof {
            assert(last.subrange(0, trace.len() as int) =~= heard.subrange(0, trace.len() as int));
        }
        (hole, Ghost(last))
    }

    /// The slot below `hole` that a sift away from the root looks at, among
    /// the first `end` slots.
    fn greater_child(&self, hole: usize, end: usize) -> (r: usize)
        requires
            total_order::<T>(),
            2 * hole + 1 < end <= self@.len(),
        ensures
            r == larger_child(self@, hole as int, end as int),
            greatest_below(self@, end as int, hole as int, r as int),
    {
        let first = 2 * hole + 1;
        let r = if first + 1 < end && not_above(&self.data[first], &self.data[first + 1]) {
            first + 1
        } else {
            first
        };
        proof {
            let s = self@;
            if first + 1 < end {
                lemma_le_total(s[first as int], s[first + 1]);
                lemma_le_total(s[first + 1], s[first + 1]);
            } else {
                lemma_le_total(s[first as int], s[first as int]);
            }
            assert forall|c: int| 1 <= c < end && parent_of(c) == hole implies le(
                #[trigger] s[c],
                s[r as int],
            ) by {
                lemma_children(hole as int, c);
            }
        }
        r
    }

    /// Moves the element of slot `pos` away from the root, among the first
    /// `end` slots, while an element below it is above it. Returns the slot
    /// it came to. Where only the edges below `pos` were out of order among
    /// those with a parent in slot `lo` or later, these are in order
    /// afterwards.
    fn sift_down_range<F: FnMut(&mut [T], usize)>(
        &mut self,
        pos: usize,
        end: usize,
        func: &mut F,
        Ghost(lo): Ghost<int>,
        Ghost(base): Ghost<Seq<T>>,
        Ghost(trace): Ghost<Seq<Notice<T>>>,
    ) -> (out: (usize, Ghost<Seq<Notice<T>>>))
        requires
            total_order::<T>(),
            0 <= lo <= pos < end <= old(self)@.len(),
            forall|s: &mut [T], i: usize| i < s@.len() ==> call_requires(*old(func), (s, i)),
            forall|s: &mut [T], i: usize| #[trigger]
                call_ensures(*old(func), (s, i), ()) ==> final(s)@ == s@,
            told(*old(func), trace),
            consistent_but(base, trace, old(self)@, pos as int),
        ensures
            final(self)@ == sunk(old(self)@, pos as int, end as int),
            out.0 == sink_end(old(self)@, pos as int, end as int),
            pos <= out.0 < end,
            final(self)@[out.0 as int] == old(self)@[pos as int],
            sinking(old(self)@, lo, end as int, pos as int, false) ==> ordered_from(
                final(self)@,
                lo,
                end as int,
            ),
            final(self)@.len() == old(self)@.len(),
            final(self)@.to_multiset() == old(self)@.to_multiset(),
            forall|i: int| 0 <= i < pos ==> final(self)@[i] == old(self)@[i],
            forall|i: int| end <= i < old(self)@.len() ==> final(self)@[i] == old(self)@[i],
            *final(func) == *old(func),
            told(*old(func), out.1@),
            consistent(base, out.1@, final(self)@),
            descends(out.1@, trace, pos as int, out.0 as int),
    {
        let mut hole = pos;
        let ghost mut heard = trace;
        let ghost ordered = sinking(old(self)@, lo, end as int, pos as int, false);
        proof {
            assert(heard.subrange(0, trace.len() as int) =~= trace);
        }
        loop
            invariant
                total_order::<T>(),
                0 <= lo <= pos <= hole < end <= self@.len(),
                self@.len() == old(self)@.len(),
                sunk(self@, hole as int, end as int) == sunk(old(self)@, pos as int, end as int),
                sink_end(self@, hole as int, end as int) == sink_end(
                    old(self)@,
                    pos as int,
                    end as int,
                ),
                ordered ==> sinking(self@, lo, end as int, hole as int, false),
                self@.to_multiset() == old(self)@.to_multiset(),
                forall|i: int| 0 <= i < pos ==> self@[i] == old(self)@[i],
                forall|i: int| end <= i < old(self)@.len() ==> self@[i] == old(self)@[i],
                self@[hole as int] == old(self)@[pos as int],
                *func == *old(func),
                forall|s: &mut [T], i: usize| i < s@.len() ==> call_requires(*old(func), (s, i)),
                forall|s: &mut [T], i: usize| #[trigger]
                    call_ensures(*old(func), (s, i), ()) ==> final(s)@ == s@,
                told(*old(func), heard),
                consistent_but(base, heard, self@, hole as int),
                heard.len() >= trace.len(),
                heard.subrange(0, trace.len() as int) == trace,
                forall|k: int|
                    trace.len() <= k < heard.len() - 1 ==> parent_of(
                        (#[trigger] heard[k + 1]).slot as int,
                    ) == heard[k].slot,
                heard.len() == trace.len() ==> hole == pos,
                heard.len() > trace.len() ==> heard[trace.len() as int].slot == pos && hole >= 1
                    && parent_of(hole as int) == heard.last().slot,
            ensures
                sunk(self@, hole as int, end as int) == self@,
                sink_end(self@, hole as int, end as int) == hole,
                forall|c: int|
                    1 <= c < end && parent_of(c) == hole ==> le(
                        #[trigger] self@[c],
                        self@[hole as int],
                    ),
            decreases end - hole,
        {
            if end < 2 || hole > (end - 2) / 2 {
                proof {
                    assert forall|c: int| 1 <= c < end implies parent_of(c) != hole by {
                        lemma_children(hole as int, c);
                    }
                }
                break;
            }
            let child = self.greater_child(hole, end);
            if not_below(&self.data[hole], &self.data[child]) {
                proof {
                    let s = self@;
                    assert forall|c: int| 1 <= c < end && parent_of(c) == hole implies le(
                        #[trigger] s[c],
                        s[hole as int],
                    ) by {
                        lemma_le_transitive(s[c], s[child as int], s[hole as int]);
                    }
                }
                break;
            }
            proof {
                lemma_le_total(self@[hole as int], self@[child as int]);
                if ordered {
                    lemma_sink_step(self@, lo, end as int, hole as int, child as int, false);
                }
            }
            let Ghost(next) = self.move_to(hole, child, func, Ghost(base), Ghost(heard));
            proof {
                assert(next.subrange(0, trace.len() as int) =~= heard.subrange(
                    0,
                    trace.len() as int,
                ));
                heard = next;
            }
            hole = child;
        }
        proof {
            if ordered {
                lemma_sink_done(self@, lo, end as int, hole as int);
            }
        }
        let Ghost(last) = self.settle(hole, func, Ghost(base), Ghost(heard));
        proof {
            assert(last.subrange(0, trace.len() as int) =~= heard.subrange(0, trace.len() as int));
        }
        (hole, Ghost(last))
    }

    /// Moves the element of slot `pos` away from the root while an element
    /// below it is above it.
    fn sift_down<F: FnMut(&mut [T], usize)>(
        &mut self,
        pos: usize,
        func: &mut F,
        Ghost(lo): Ghost<int>,
        Ghost(base): Ghost<Seq<T>>,
        Ghost(trace): Ghost<Seq<Notice<T>>>,
    ) -> (out: Ghost<Seq<Notice<T>>>)
        requires
            total_order::<T>(),
            0 <= lo <= pos < old(self)@.len(),
            forall|s: &mut [T], i: usize| i < s@.len() ==> call_requires(*old(func), (s, i)),
            forall|s: &mut [T], i: usize| #[trigger]
                call_ensures(*old(func), (s, i), ()) ==> final(s)@ == s@,
            told(*old(func), trace),
            consistent_but(base, trace, old(self)@, pos as int),
        ensures
            final(self)@ == sunk(old(self)@, pos as int, old(self)@.len() as int),
            sinking(old(self)@, lo, old(self)@.len() as int, pos as int, false) ==> ordered_from(
                final(self)@,
                lo,
                final(self)@.len() as int,
            ),
            final(self)@.len() == old(self)@.len(),
            final(self)@.to_multiset() == old(self)@.to_multiset(),
            *final(func) == *old(func),
            told(*old(func), out@),
            consistent(base, out@, final(self)@),
            out@.len() > trace.len(),
    {
        let len = self.data.len();
        let (_, out) = self.sift_down_range(pos, len, func, Ghost(lo), Ghost(base), Ghost(trace));
        out
    }

    /// Moves the element of slot `pos` all the way to the bottom, then
    /// towards the root to where it belongs. Where only the edges at `pos`
    /// were out of order, the heap is in order afterwards.
    fn sift_down_to_bottom<F: FnMut(&mut [T], usize)>(
        &mut self,
        pos: usize,
        func: &mut F,
        Ghost(base): Ghost<Seq<T>>,
        Ghost(trace): Ghost<Seq<Notice<T>>>,
    ) -> (out: Ghost<Seq<Notice<T>>>)
        requires
            total_order::<T>(),
            pos < old(self)@.len(),
            forall|s: &mut [T], i: usize| i < s@.len() ==> call_requires(*old(func), (s, i)),
            forall|s: &mut [T], i: usize| #[trigger]
                call_ensures(*old(func), (s, i), ()) ==> final(s)@ == s@,
            told(*old(func), trace),
            consistent_but(base, trace, old(self)@, pos as int),
        ensures
            final(self)@ == settled(old(self)@, pos as int),
            sinking(old(self)@, 0, old(self)@.len() as int, pos as int, true) ==> heap_ordered(
                final(self)@,
            ),
            final(self)@.len() == old(self)@.len(),
            final(self)@.to_multiset() == old(self)@.to_multiset(),
            *final(func) == *old(func),
            told(*old(func), out@),
            consistent(base, out@, final(self)@),
    {
        let end = self.data.len();
        let mut hole = pos;
        let ghost mut heard = trace;
        let ghost ordered = sinking(old(self)@, 0, end as int, pos as int, true);
        while end >= 2 && hole <= (end - 2) / 2
            invariant
                total_order::<T>(),
                hole < end == self@.len(),
                self@.len() == old(self)@.len(),
                dropped(self@, hole as int, end as int) == dropped(
                    old(self)@,
                    pos as int,
                    end as int,
                ),
                drop_end(self@, hole as int, end as int) == drop_end(
                    old(self)@,
                    pos as int,
                    end as int,
                ),
                ordered ==> sinking(self@, 0, end as int, hole as int, true),
                self@.to_multiset() == old(self)@.to_multiset(),
                *func == *old(func),
                forall|s: &mut [T], i: usize| i < s@.len() ==> call_requires(*old(func), (s, i)),
                forall|s: &mut [T], i: usize| #[trigger]
                    call_ensures(*old(func), (s, i), ()) ==> final(s)@ == s@,
                told(*old(func), heard),
                consistent_but(base, heard, self@, hole as int),
            decreases end - hole,
        {
            let child = self.greater_child(hole, end);
            proof {
                if ordered {
                    lemma_sink_step(self@, 0, end as int, hole as int, child as int, true);
                }
            }
            let Ghost(next) = self.move_to(hole, child, func, Ghost(base), Ghost(heard));
            proof {
                heard = next;
            }
            hole = child;
        }
        proof {
            if ordered {
                assert forall|c: int| 1 <= c < end implies parent_of(c) != hole by {
                    lemma_children(hole as int, c);
                }
                lemma_sink_to_rise(self@, end as int, hole as int);
            }
        }
        let (_, out) = self.sift_up(hole, func, Ghost(end as int), Ghost(base), Ghost(heard));
        proof {
            if ordered {
                assert(heap_ordered(self@));
            }
        }
        out
    }

    /// Tells `func` of every element from slot `from` on.
    fn report_from<F: FnMut(&mut [T], usize)>(
        &mut self,
        from: usize,
        func: &mut F,
        Ghost(base): Ghost<Seq<T>>,
    ) -> (out: Ghost<Seq<Notice<T>>>)
        requires
            from <= old(self)@.len(),
            from <= base.len(),
            forall|i: int| 0 <= i < from ==> old(self)@[i] == base[i],
            forall|s: &mut [T], i: usize| i < s@.len() ==> call_requires(*old(func), (s, i)),
            forall|s: &mut [T], i: usize| #[trigger]
                call_ensures(*old(func), (s, i), ()) ==> final(s)@ == s@,
        ensures
            final(self)@ == old(self)@,
            *final(func) == *old(func),
            told(*old(func), out@),
            consistent(base, out@, final(self)@),
            out@.len() == old(self)@.len() - from,
    {
        let len = self.data.len();
        let mut slot = from;
        let ghost mut heard: Seq<Notice<T>> = Seq::empty();
        while slot < len
            invariant
                from <= slot <= len,
                len == self@.len(),
                self@ == old(self)@,
                from <= base.len(),
                forall|i: int| 0 <= i < from ==> self@[i] == base[i],
                *func == *old(func),
                forall|s: &mut [T], i: usize| i < s@.len() ==> call_requires(*old(func), (s, i)),
                forall|s: &mut [T], i: usize| #[trigger]
                    call_ensures(*old(func), (s, i), ()) ==> final(s)@ == s@,
                told(*old(func), heard),
                heard.len() == slot - from,
                forall|i: int| 0 <= i < slot ==> #[trigger] seen(base, heard, i) == Some(self@[i]),
            decreases len - slot,
        {
            let ghost earlier = heard;
            let Ghost(next) = announce(&mut self.data, slot, func, Ghost(heard));
            proof {
                heard = next;
                assert forall|i: int| 0 <= i < slot + 1 implies #[trigger] seen(base, heard, i)
                    == Some(self@[i]) by {
                    lemma_seen_push(base, earlier, Notice { layout: self@, slot }, i);
                }
            }
            slot += 1;
        }
        Ghost(heard)
    }

    /// Adds `item`: it is put into the slot after the last and sifted towards
    /// the root. Tells `func` of every element that came to rest in another
    /// slot, `item` included.
    pub fn push(&mut self, item: T, func: &mut impl FnMut(&mut [T], usize))
        requires
            total_order::<T>(),
            old(self).wf(),
            forall|s: &mut [T], i: usize| i < s@.len() ==> call_requires(*old(func), (s, i)),
            forall|s: &mut [T], i: usize| #[trigger]
                call_ensures(*old(func), (s, i), ()) ==> final(s)@ == s@,
        ensures
            final(self)@ == risen(old(self)@.push(item), old(self)@.len() as int),
            final(self).wf(),
            final(self)@.len() == old(self)@.len() + 1,
            final(self)@.to_multiset() == old(self)@.to_multiset().insert(item),
            *final(func) == *old(func),
            exists|trace: Seq<Notice<T>>|
                told(*old(func), trace) && consistent(old(self)@, trace, final(self)@),
    {
        let old_len = self.data.len();
        self.data.push(item);
        proof {
            broadcast use vstd::seq_lib::group_to_multiset_ensures;

            assert forall|i: int| 1 <= i < self@.len() && i != old_len implies #[trigger] edge_ok(
                self@,
                i,
            ) by {
                assert(edge_ok(old(self)@, i));
            }
        }
        let (_, Ghost(trace)) = self.sift_up(
            old_len,
            func,
            Ghost(old_len + 1),
            Ghost(old(self)@),
            Ghost(Seq::empty()),
        );
        assert(told(*old(func), trace) && consistent(old(self)@, trace, self@));
    }

    /// Takes the greatest element out, or returns `None` if there is none:
    /// the last element is put into the root, taken to the bottom and sifted
    /// towards the root. Tells `func` of every element that came to rest in
    /// another slot.
    pub fn pop(&mut self, func: &mut impl FnMut(&mut [T], usize)) -> (r: Option<T>)
        requires
            total_order::<T>(),
            old(self).wf(),
            forall|s: &mut [T], i: usize| i < s@.len() ==> call_requires(*old(func), (s, i)),
            forall|s: &mut [T], i: usize| #[trigger]
                call_ensures(*old(func), (s, i), ()) ==> final(s)@ == s@,
        ensures
            final(self).wf(),
            *final(func) == *old(func),
            match r {
                None => old(self)@.len() == 0 && final(self)@ == old(self)@,
                Some(top) => {
                    &&& old(self)@.len() > 0
                    &&& top == old(self)@[0]
                    &&& forall|i: int| 0 <= i < old(self)@.len() ==> le(#[trigger] old(self)@[i], top)
                    &&& final(self)@ == removed(old(self)@, 0)
                    &&& final(self)@.len() == old(self)@.len() - 1
                    &&& final(self)@.to_multiset() == old(self)@.to_multiset().remove(top)
                },
            },
            exists|trace: Seq<Notice<T>>|
                told(*old(func), trace) && consistent(old(self)@, trace, final(self)@),
    {
        let ghost before = self@;
        proof {
            lemma_silence(before);
            assert(told(*old(func), Seq::<Notice<T>>::empty()));
        }
        match self.data.pop() {
            None => None,
            Some(mut item) => {
                proof {
                    assert forall|i: int| 0 <= i < before.len() implies le(
                        #[trigger] before[i],
                        before[0],
                    ) by {
                        lemma_root_is_greatest(before, before.len() as int, i);
                    }
                    lemma_shortened(before);
                }
                if self.data.len() > 0 {
                    core::mem::swap(&mut item, &mut self.data[0]);
                    proof {
                        lemma_replaced(before.drop_last(), before.len() - 1, 0, before.last());
                        assert(self@ =~= before.drop_last().update(0, before.last()));
                        assert(self@ =~= refilled(before, 0));
                        lemma_refilled_multiset(before, 0);
                    }
                    let Ghost(trace) = self.sift_down_to_bottom(
                        0,
                        func,
                        Ghost(before),
                        Ghost(Seq::empty()),
                    );
                    assert(told(*old(func), trace) && consistent(before, trace, self@));
                } else {
                    proof {
                        assert(self@ =~= before.drop_last());
                        assert(self@ =~= refilled(before, 0));
                        lemma_refilled_multiset(before, 0);
                        assert(consistent(before, Seq::<Notice<T>>::empty(), self@));
                    }
                }
                Some(item)
            },
        }
    }

    /// Takes the element of slot `index` out. The last slot is simply given
    /// up, with no element moved and none reported; for any other, the last
    /// element is put in its place, taken to the bottom and sifted towards
    /// the root. Tells `func` of every element that came to rest in another
    /// slot.
    pub fn remove(&mut self, index: usize, func: &mut impl FnMut(&mut [T], usize)) -> (item: T)
        requires
            total_order::<T>(),
            old(self).wf(),
            index < old(self)@.len(),
            forall|s: &mut [T], i: usize| i < s@.len() ==> call_requires(*old(func), (s, i)),
            forall|s: &mut [T], i: usize| #[trigger]
                call_ensures(*old(func), (s, i), ()) ==> final(s)@ == s@,
        ensures
            final(self).wf(),
            *final(func) == *old(func),
            item == old(self)@[index as int],
            final(self)@ == removed(old(self)@, index as int),
            final(self)@.len() == old(self)@.len() - 1,
            final(self)@.to_multiset() == old(self)@.to_multiset().remove(item),
            exists|trace: Seq<Notice<T>>|
                {
                    &&& told(*old(func), trace)
                    &&& #[trigger] consistent(old(self)@, trace, final(self)@)
                    &&& index == old(self)@.len() - 1 ==> trace.len() == 0
                },
    {
        let ghost before = self@;
        let item = self.data.swap_remove(index);
        proof {
            lemma_silence(before);
            assert(told(*old(func), Seq::<Notice<T>>::empty()));
            lemma_shortened(before);
            lemma_refilled_multiset(before, index as int);
            assert(self@ =~= refilled(before, index as int));
        }
        if index < self.data.len() {
            proof {
                lemma_replaced(before.drop_last(), before.len() - 1, index as int, before.last());
                assert(self@ =~= before.drop_last().update(index as int, before.last()));
            }
            let Ghost(trace) = self.sift_down_to_bottom(
                index,
                func,
                Ghost(before),
                Ghost(Seq::empty()),
            );
            assert(told(*old(func), trace) && consistent(before, trace, self@));
        } else {
            proof {
                assert(self@ =~= before.drop_last());
                assert(consistent(before, Seq::<Notice<T>>::empty(), self@));
            }
        }
        item
    }

    /// Puts the element of slot `index`, which was at rest in `before` and
    /// has been changed in place since, where it belongs.
    fn resift<F: FnMut(&mut [T], usize)>(
        &mut self,
        index: usize,
        way: Way,
        func: &mut F,
        Ghost(before): Ghost<Seq<T>>,
    ) -> (out: Ghost<Seq<Notice<T>>>)
        requires
            total_order::<T>(),
            heap_ordered(before),
            index < before.len(),
            old(self)@ == before.update(index as int, old(self)@[index as int]),
            match way {
                Way::Up => le(before[index as int], old(self)@[index as int]),
                Way::Down => le(old(self)@[index as int], before[index as int]),
                Way::Stay => same_rank(before[index as int], old(self)@[index as int]),
            },
            forall|s: &mut [T], i: usize| i < s@.len() ==> call_requires(*old(func), (s, i)),
            forall|s: &mut [T], i: usize| #[trigger]
                call_ensures(*old(func), (s, i), ()) ==> final(s)@ == s@,
        ensures
            final(self)@ == match way {
                Way::Up => if index > 0 {
                    risen_from(old(self)@, index)
                } else {
                    old(self)@
                },
                Way::Down => if index + 1 < old(self)@.len() {
                    sunk_from(old(self)@, index)
                } else {
                    old(self)@
                },
                Way::Stay => old(self)@,
            },
            out@.len() > 0 <==> match way {
                Way::Up => index > 0,
                Way::Down => index + 1 < old(self)@.len(),
                Way::Stay => false,
            },
            heap_ordered(final(self)@),
            final(self)@.len() == old(self)@.len(),
            final(self)@.to_multiset() == old(self)@.to_multiset(),
            *final(func) == *old(func),
            told(*old(func), out@),
            consistent(old(self)@, out@, final(self)@),
    {
        let ghost start = self@;
        let len = self.data.len();
        proof {
            lemma_silence(start);
            lemma_replaced(before, before.len() as int, index as int, start[index as int]);
        }
        match way {
            Way::Up => {
                if index > 0 {
                    let (_, out) = self.sift_up(
                        index,
                        func,
                        Ghost(len as int),
                        Ghost(start),
                        Ghost(Seq::empty()),
                    );
                    out
                } else {
                    proof {
                        lemma_rise_done(start, len as int, 0);
                    }
                    Ghost(Seq::empty())
                }
            },
            Way::Down => {
                if index < len - 1 {
                    let out = self.sift_down(index, func, Ghost(0), Ghost(start), Ghost(Seq::empty()));
                    proof {
                        lemma_ordered_from_root(self@, len as int);
                    }
                    out
                } else {
                    proof {
                        assert forall|c: int| 1 <= c < len implies parent_of(c) != index by {
                            lemma_children(index as int, c);
                        }
                        lemma_sink_done(start, 0, len as int, index as int);
                        lemma_ordered_from_root(start, len as int);
                    }
                    Ghost(Seq::empty())
                }
            },
            Way::Stay => {
                proof {
                    assert forall|c: int| 1 <= c < len && parent_of(c) == index implies le(
                        #[trigger] start[c],
                        start[index as int],
                    ) by {
                        assert(edge_ok(before, c));
                        lemma_le_transitive(before[c], before[index as int], start[index as int]);
                    }
                    lemma_sink_done(start, 0, len as int, index as int);
                    lemma_ordered_from_root(start, len as int);
                }
                Ghost(Seq::empty())
            },
        }
    }

    /// Lets `f` change the element of slot `index` in place, and goes by its
    /// answer: on `Greater` the element is sifted towards the root, unless it
    /// is the root; on `Less` it is sifted away from the root, unless it is
    /// in the last slot; on `Equal`, and in the two cases left out, nothing
    /// is moved and nothing reported. Tells `func` of every element that
    /// came to rest in another slot.
    pub fn modify(
        &mut self,
        index: usize,
        f: &mut impl FnMut(&mut T) -> Ordering,
        func: &mut impl FnMut(&mut [T], usize),
    )
        requires
            total_order::<T>(),
            old(self).wf(),
            index < old(self)@.len(),
            forall|e: &mut T| call_requires(*old(f), (e,)),
            forall|e: &mut T, answer: Ordering| #[trigger]
                call_ensures(*old(f), (e,), answer) ==> truthful(*e, *final(e), answer),
            forall|s: &mut [T], i: usize| i < s@.len() ==> call_requires(*old(func), (s, i)),
            forall|s: &mut [T], i: usize| #[trigger]
                call_ensures(*old(func), (s, i), ()) ==> final(s)@ == s@,
        ensures
            final(self).wf(),
            *final(f) == *old(f),
            *final(func) == *old(func),
            final(self)@.len() == old(self)@.len(),
            exists|e: &mut T, answer: Ordering, trace: Seq<Notice<T>>|
                {
                    &&& *e == slot(old(self)@, index)
                    &&& #[trigger] call_ensures(*old(f), (e,), answer)
                    &&& final(self)@ == resettled(
                        with_slot(old(self)@, index, *final(e)),
                        index,
                        answer,
                    )
                    &&& final(self)@.to_multiset() == with_slot(
                        old(self)@,
                        index,
                        *final(e),
                    ).to_multiset()
                    &&& told(*old(func), trace)
                    &&& #[trigger] consistent(with_slot(old(self)@, index, *final(e)), trace, final(self)@)
                    &&& trace.len() > 0 <==> sifts(old(self)@, index, answer)
                },
    {
        let ghost before = self@;
        let answer = f(&mut self.data[index]);
        let ghost changed = self@;
        let way = match answer {
            Ordering::Greater => Way::Up,
            Ordering::Less => Way::Down,
            Ordering::Equal => Way::Stay,
        };
        proof {
            let w = choose|e: &mut T|
                *e == slot(before, index) && *final(e) == slot(changed, index) && #[trigger] call_ensures(
                    *old(f),
                    (e,),
                    answer,
                );
            assert(truthful(*w, *final(w), answer));
            assert(changed =~= with_slot(before, index, *final(w)));
        }
        let Ghost(trace) = self.resift(index, way, func, Ghost(before));
        proof {
            let w = choose|e: &mut T|
                *e == slot(before, index) && *final(e) == slot(changed, index) && #[trigger] call_ensures(
                    *old(f),
                    (e,),
                    answer,
                );
            assert(consistent(with_slot(before, index, *final(w)), trace, self@));
            assert(self@ == resettled(with_slot(before, index, *final(w)), index, answer));
            assert(trace.len() > 0 <==> sifts(before, index, answer));
        }
    }

    /// Makes a heap of the whole vector.
    fn rebuild<F: FnMut(&mut [T], usize)>(
        &mut self,
        func: &mut F,
        Ghost(base): Ghost<Seq<T>>,
        Ghost(trace): Ghost<Seq<Notice<T>>>,
    ) -> (out: Ghost<Seq<Notice<T>>>)
        requires
            total_order::<T>(),
            forall|s: &mut [T], i: usize| i < s@.len() ==> call_requires(*old(func), (s, i)),
            forall|s: &mut [T], i: usize| #[trigger]
                call_ensures(*old(func), (s, i), ()) ==> final(s)@ == s@,
            told(*old(func), trace),
            consistent(base, trace, old(self)@),
        ensures
            final(self)@ == heapified(old(self)@),
            heap_ordered(final(self)@),
            final(self)@.len() == old(self)@.len(),
            final(self)@.to_multiset() == old(self)@.to_multiset(),
            *final(func) == *old(func),
            told(*old(func), out@),
            consistent(base, out@, final(self)@),
    {
        let len = self.data.len();
        let mut n = len / 2;
        let ghost mut heard = trace;
        while n > 0
            invariant
                total_order::<T>(),
                n <= len / 2,
                len == self@.len(),
                self@.len() == old(self)@.len(),
                heapified_from(self@, n as int) == heapified(old(self)@),
                ordered_from(self@, n as int, len as int),
                self@.to_multiset() == old(self)@.to_multiset(),
                *func == *old(func),
                forall|s: &mut [T], i: usize| i < s@.len() ==> call_requires(*old(func), (s, i)),
                forall|s: &mut [T], i: usize| #[trigger]
                    call_ensures(*old(func), (s, i), ()) ==> final(s)@ == s@,
                told(*old(func), heard),
                consistent(base, heard, self@),
            decreases n,
        {
            n -= 1;
            proof {
                let s = self@;
                assert forall|i: int|
                    1 <= i < len && parent_of(i) >= n && parent_of(i) != n implies #[trigger] edge_ok(
                    s,
                    i,
                ) by {
                    assert(parent_of(i) >= n + 1);
                }
            }
            let Ghost(next) = self.sift_down(n, func, Ghost(n as int), Ghost(base), Ghost(heard));
            proof {
                heard = next;
            }
        }
        proof {
            lemma_ordered_from_root(self@, len as int);
        }
        Ghost(heard)
    }

    /// Makes a heap of the whole vector, whose first `start` slots are one
    /// already: nothing is done if there is no tail; else the heap is made
    /// anew as a whole, or the elements of the tail are sifted towards the
    /// root one after the other, whichever [`rebuilds`] finds cheaper.
    fn rebuild_tail<F: FnMut(&mut [T], usize)>(
        &mut self,
        start: usize,
        func: &mut F,
        Ghost(base): Ghost<Seq<T>>,
        Ghost(trace): Ghost<Seq<Notice<T>>>,
    ) -> (out: Ghost<Seq<Notice<T>>>)
        requires
            total_order::<T>(),
            start <= old(self)@.len(),
            prefix_ordered(old(self)@, start as int),
            forall|s: &mut [T], i: usize| i < s@.len() ==> call_requires(*old(func), (s, i)),
            forall|s: &mut [T], i: usize| #[trigger]
                call_ensures(*old(func), (s, i), ()) ==> final(s)@ == s@,
            told(*old(func), trace),
            consistent(base, trace, old(self)@),
        ensures
            final(self)@ == rebuilt_tail(old(self)@, start as int),
            start == old(self)@.len() ==> final(self)@ == old(self)@ && out@ == trace,
            heap_ordered(final(self)@),
            final(self)@.len() == old(self)@.len(),
            final(self)@.to_multiset() == old(self)@.to_multiset(),
            *final(func) == *old(func),
            told(*old(func), out@),
            consistent(base, out@, final(self)@),
    {
        let len = self.data.len();
        if start == len {
            return Ghost(trace);
        }
        let tail_len = len - start;
        let better_to_rebuild = if start < tail_len {
            true
        } else if len <= 2048 {
            let depth = log2_fast(start);
            assert(tail_len * depth <= 2048 * 64) by (nonlinear_arith)
                requires
                    tail_len <= 2048,
                    depth < 64,
            ;
            2 * len < tail_len * depth
        } else {
            2 * (len as u128) < (tail_len as u128) * 11
        };
        assert(better_to_rebuild == rebuilds(start as int, len as int));
        if better_to_rebuild {
            self.rebuild(func, Ghost(base), Ghost(trace))
        } else {
            let mut i = start;
            let ghost mut heard = trace;
            while i < len
                invariant
                    total_order::<T>(),
                    start <= i <= len,
                    len == self@.len(),
                    self@.len() == old(self)@.len(),
                    tail_risen(self@, i as int, len as int) == tail_risen(
                        old(self)@,
                        start as int,
                        len as int,
                    ),
                    prefix_ordered(self@, i as int),
                    self@.to_multiset() == old(self)@.to_multiset(),
                    *func == *old(func),
                    forall|s: &mut [T], i: usize| i < s@.len() ==> call_requires(*old(func), (s, i)),
                    forall|s: &mut [T], i: usize| #[trigger]
                        call_ensures(*old(func), (s, i), ()) ==> final(s)@ == s@,
                    told(*old(func), heard),
                    consistent(base, heard, self@),
                decreases len - i,
            {
                proof {
                    assert forall|c: int| 1 <= c < i + 1 implies parent_of(c) != i by {
                        lemma_children(i as int, c);
                    }
                }
                let (_, Ghost(next)) = self.sift_up(
                    i,
                    func,
                    Ghost(i + 1),
                    Ghost(base),
                    Ghost(heard),
                );
                proof {
                    heard = next;
                }
                i += 1;
            }
            Ghost(heard)
        }
    }

    /// Moves all elements of `other` into `self`: the shorter of the two
    /// heaps is put behind the longer, the receiver's first where they are
    /// equally long, and a heap is made of the whole. Tells `func` of every
    /// element that came to rest in another slot than the receiver had for
    /// it: of every element taken over, and of the receiver's own where they
    /// were moved.
    pub fn append(&mut self, other: &mut Self, func: &mut impl FnMut(&mut [T], usize))
        requires
            total_order::<T>(),
            old(self).wf(),
            old(other).wf(),
            forall|s: &mut [T], i: usize| i < s@.len() ==> call_requires(*old(func), (s, i)),
            forall|s: &mut [T], i: usize| #[trigger]
                call_ensures(*old(func), (s, i), ()) ==> final(s)@ == s@,
        ensures
            final(self)@ == rebuilt_tail(
                joined(old(self)@, old(other)@),
                joined_head(old(self)@, old(other)@),
            ),
            final(self).wf(),
            final(other)@ == Seq::<T>::empty(),
            final(self)@.len() == old(self)@.len() + old(other)@.len(),
            final(self)@.to_multiset() == old(self)@.to_multiset().add(old(other)@.to_multiset()),
            *final(func) == *old(func),
            exists|trace: Seq<Notice<T>>|
                told(*old(func), trace) && consistent(old(self)@, trace, final(self)@),
    {
        let exchanged = self.data.len() < other.data.len();
        if exchanged {
            core::mem::swap(&mut self.data, &mut other.data);
        }
        let start = self.data.len();
        let ghost big = self@;
        let ghost small = other@;
        self.data.append(&mut other.data);
        proof {
            broadcast use vstd::seq_lib::group_to_multiset_ensures;

            let all = big + small;
            vstd::seq_lib::lemma_multiset_commutative(big, small);
            assert(big.to_multiset().add(small.to_multiset()) =~= small.to_multiset().add(
                big.to_multiset(),
            ));
            assert forall|i: int| 1 <= i < start implies #[trigger] edge_ok(all, i) by {
                assert(edge_ok(big, i));
            }
        }
        let from = if exchanged {
            0
        } else {
            start
        };
        let Ghost(placed) = self.report_from(from, func, Ghost(old(self)@));
        let Ghost(trace) = self.rebuild_tail(start, func, Ghost(old(self)@), Ghost(placed));
        assert(told(*old(func), trace) && consistent(old(self)@, trace, self@));
    }

    /// Keeps the elements for which `f` answers `true`: they close up in
    /// their order, and a heap is made of them, the slots before the first
    /// one dropped being one already. Tells `func` of every element that came
    /// to rest in another slot; where every element is kept, nothing is
    /// moved and nothing reported.
    pub fn retain<P: FnMut(&T) -> bool>(
        &mut self,
        mut f: P,
        func: &mut impl FnMut(&mut [T], usize),
    )
        requires
            total_order::<T>(),
            old(self).wf(),
            forall|e: &T| call_requires(f, (e,)),
            forall|s: &mut [T], i: usize| i < s@.len() ==> call_requires(*old(func), (s, i)),
            forall|s: &mut [T], i: usize| #[trigger]
                call_ensures(*old(func), (s, i), ()) ==> final(s)@ == s@,
        ensures
            final(self).wf(),
            *final(func) == *old(func),
            exists|kept: Seq<bool>, trace: Seq<Notice<T>>|
                #![trigger picked(old(self)@, kept), consistent(old(self)@, trace, final(self)@)]
                {
                    &&& kept.len() == old(self)@.len()
                    &&& forall|k: int|
                        0 <= k < kept.len() ==> call_ensures(f, (&old(self)@[k],), #[trigger] kept[k])
                    &&& final(self)@ == rebuilt_tail(picked(old(self)@, kept), first_dropped(kept))
                    &&& final(self)@.len() == picked(old(self)@, kept).len()
                    &&& final(self)@.to_multiset() == picked(old(self)@, kept).to_multiset()
                    &&& told(*old(func), trace)
                    &&& consistent(old(self)@, trace, final(self)@)
                    &&& first_dropped(kept) == kept.len() ==> final(self)@ == old(self)@
                        && trace.len() == 0
                },
    {
        let ghost before = self@;
        let ghost given = f;
        let len = self.data.len();
        let mut first_removed = len;
        let mut fill: usize = 0;
        let mut i: usize = 0;
        let ghost mut kept: Seq<bool> = Seq::empty();
        while i < len
            invariant
                fill <= i <= len,
                len == before.len(),
                self@.len() == len,
                kept.len() == i,
                f == given,
                forall|e: &T| call_requires(given, (e,)),
                forall|k: int| 0 <= k < i ==> call_ensures(given, (&before[k],), #[trigger] kept[k]),
                self@.subrange(0, fill as int) == picked(before.subrange(0, i as int), kept),
                forall|k: int| i <= k < len ==> self@[k] == before[k],
                first_removed <= len,
                first_removed == if first_dropped(kept) < i {
                    first_dropped(kept)
                } else {
                    len as int
                },
                first_removed == len ==> fill == i,
                first_removed < len ==> first_removed <= fill,
                forall|k: int| 0 <= k < first_removed && k < fill ==> self@[k] == before[k],
            decreases len - i,
        {
            let keep = f(&self.data[i]);
            let ghost earlier = self@;
            proof {
                let longer = before.subrange(0, i + 1);
                assert(longer.drop_last() =~= before.subrange(0, i as int));
                assert(kept.push(keep).drop_last() =~= kept);
            }
            if keep {
                if fill < i {
                    swap_slots(&mut self.data, fill, i);
                }
                proof {
                    assert(self@.subrange(0, fill + 1) =~= earlier.subrange(0, fill as int).push(
                        before[i as int],
                    ));
                }
                fill += 1;
            } else {
                if i < first_removed {
                    first_removed = i;
                }
            }
            proof {
                kept = kept.push(keep);
            }
            i += 1;
        }
        self.data.truncate(fill);
        let start = if first_removed < fill {
            first_removed
        } else {
            fill
        };
        proof {
            assert(before.subrange(0, len as int) =~= before);
            assert(self@ =~= picked(before, kept));
            lemma_picked_len(before, kept);
            if first_removed > fill {
                assert(fill == len);
            }
            assert(start == first_dropped(kept)) by {
                lemma_first_dropped(before, kept);
            }
            assert forall|k: int| 1 <= k < start implies #[trigger] edge_ok(self@, k) by {
                assert(edge_ok(before, k));
            }
            if start == len {
                assert(self@ =~= before);
            }
        }
        let Ghost(placed) = self.report_from(start, func, Ghost(before));
        let Ghost(trace) = self.rebuild_tail(start, func, Ghost(before), Ghost(placed));
        assert(told(*old(func), trace) && consistent(before, trace, self@));
    }

    /// Adds every item that `iter` yields, one after the other, and tells
    /// `func` of every element that came to rest in another slot.
    pub fn extend_desugared<I: Iterator<Item = T>>(
        &mut self,
        iter: I,
        func: &mut impl FnMut(&mut [T], usize),
    )
        requires
            total_order::<T>(),
            old(self).wf(),
            iter.obeys_prophetic_iter_laws(),
            iter.decrease() is Some,
            forall|s: &mut [T], i: usize| i < s@.len() ==> call_requires(*old(func), (s, i)),
            forall|s: &mut [T], i: usize| #[trigger]
                call_ensures(*old(func), (s, i), ()) ==> final(s)@ == s@,
        ensures
            final(self).wf(),
            final(self)@.len() == old(self)@.len() + iter.remaining().len(),
            final(self)@.to_multiset() == old(self)@.to_multiset().add(
                iter.remaining().to_multiset(),
            ),
            *final(func) == *old(func),
            exists|trace: Seq<Notice<T>>|
                told(*old(func), trace) && consistent(old(self)@, trace, final(self)@),
    {
        let mut iter = iter;
        let ghost items = iter.remaining();
        let ghost mut heard: Seq<Notice<T>> = Seq::empty();
        let ghost mut taken: Seq<T> = Seq::empty();
        proof {
            lemma_silence(old(self)@);
            assert(told(*old(func), heard));
            assert(taken + iter.remaining() =~= items);
            assert(old(self)@.to_multiset().add(taken.to_multiset()) =~= old(self)@.to_multiset()) by {
                broadcast use vstd::seq_lib::group_to_multiset_ensures;

            }
        }
        loop
            invariant
                total_order::<T>(),
                self.wf(),
                iter.obeys_prophetic_iter_laws(),
                iter.decrease() is Some,
                taken + iter.remaining() == items,
                self@.len() == old(self)@.len() + taken.len(),
                self@.to_multiset() == old(self)@.to_multiset().add(taken.to_multiset()),
                *func == *old(func),
                forall|s: &mut [T], i: usize| i < s@.len() ==> call_requires(*old(func), (s, i)),
                forall|s: &mut [T], i: usize| #[trigger]
                    call_ensures(*old(func), (s, i), ()) ==> final(s)@ == s@,
                told(*old(func), heard),
                consistent(old(self)@, heard, self@),
            ensures
                taken == items,
            decreases iter.decrease()->0,
        {
            let ghost rest = iter.remaining();
            let ghost before = self@;
            match iter.next() {
                Some(item) => {
                    self.push(item, func);
                    proof {
                        broadcast use vstd::seq_lib::group_to_multiset_ensures;

                        let step = choose|trace: Seq<Notice<T>>|
                            told(*old(func), trace) && consistent(before, trace, self@);
                        lemma_consistent_chain(*old(func), old(self)@, heard, before, step, self@);
                        heard = heard + step;
                        assert(taken.push(item) + iter.remaining() =~= taken + rest);
                        assert(old(self)@.to_multiset().add(taken.push(item).to_multiset())
                            =~= old(self)@.to_multiset().add(taken.to_multiset()).insert(item));
                        taken = taken.push(item);
                    }
                },
                None => {
                    proof {
                        assert(taken + rest =~= taken);
                    }
                    break;
                },
            }
        }
    }

    /// Adds every item that `iter` yields, one after the other.
    pub fn extend<I: Iterator<Item = T>>(&mut self, iter: I)
        requires
            total_order::<T>(),
            old(self).wf(),
            iter.obeys_prophetic_iter_laws(),
            iter.decrease() is Some,
        ensures
            final(self).wf(),
            final(self)@.len() == old(self)@.len() + iter.remaining().len(),
            final(self)@.to_multiset() == old(self)@.to_multiset().add(
                iter.remaining().to_multiset(),
            ),
    {
        let mut quiet = |s: &mut [T], i: usize|
            ensures
                final(s)@ == old(s)@,
            {};
        self.extend_desugared(iter, &mut quiet);
    }

    /// Adds `item`.
    pub fn extend_one(&mut self, item: T)
        requires
            total_order::<T>(),
            old(self).wf(),
        ensures
            final(self).wf(),
            final(self)@.len() == old(self)@.len() + 1,
            final(self)@.to_multiset() == old(self)@.to_multiset().insert(item),
    {
        let mut quiet = |s: &mut [T], i: usize|
            ensures
                final(s)@ == old(s)@,
            {};
        self.push(item, &mut quiet);
    }

    /// Makes a heap of the items that `iter` yields.
    pub fn from_iter<I: Iterator<Item = T>>(iter: I) -> (heap: ExtHeap<T>)
        requires
            total_order::<T>(),
            iter.obeys_prophetic_iter_laws(),
            iter.decrease() is Some,
        ensures
            heap.wf(),
            heap@.len() == iter.remaining().len(),
            heap@.to_multiset() == iter.remaining().to_multiset(),
    {
        let mut iter = iter;
        let ghost items = iter.remaining();
        let mut collected: Vec<T> = Vec::new();
        proof {
            assert(collected@ + iter.remaining() =~= items);
        }
        loop
            invariant
                iter.obeys_prophetic_iter_laws(),
                iter.decrease() is Some,
                collected@ + iter.remaining() == items,
            ensures
                collected@ == items,
            decreases iter.decrease()->0,
        {
            let ghost rest = iter.remaining();
            let ghost so_far = collected@;
            match iter.next() {
                Some(item) => {
                    collected.push(item);
                    proof {
                        assert(collected@ + iter.remaining() =~= so_far + rest);
                    }
                },
                None => {
                    proof {
                        assert(so_far + rest =~= so_far);
                    }
                    break;
                },
            }
        }
        ExtHeap::from(collected)
    }

    /// Hands the elements over to an iterator that yields them greatest
    /// first, and leaves the heap empty.
    pub fn drain_sorted(&mut self) -> (it: DrainSorted<T>)
        requires
            old(self).wf(),
        ensures
            final(self)@ == Seq::<T>::empty(),
            it@ == old(self)@,
            it.wf(),
    {
        let mut taken: Vec<T> = Vec::new();
        core::mem::swap(&mut self.data, &mut taken);
        DrainSorted::new(ExtHeap { data: taken })
    }

    /// Turns the heap into an iterator that yields the elements greatest
    /// first.
    pub fn into_iter_sorted(self) -> (it: IntoIterSorted<T>)
        requires
            self.wf(),
        ensures
            it@ == self@,
            it.wf(),
    {
        IntoIterSorted::new(self)
    }

}

impl<T> ExtHeap<T> {
    /// An iterator over the elements in the order of their slots.
    pub fn iter(&self) -> (it: Iter<'_, T>)
        ensures
            it@ == self@,
    {
        Iter::new(self.data.as_slice())
    }

    /// Turns the heap into an iterator over the elements in the order of
    /// their slots.
    pub fn into_iter(self) -> (it: IntoIter<T>)
        ensures
            it@ == self@,
    {
        IntoIter::new(self.data)
    }

    /// The greatest element, or `None` if there is none.
    pub fn peek(&self) -> (r: Option<&T>)
        ensures
            match r {
                None => self@.len() == 0,
                Some(top) => self@.len() > 0 && *top == self@[0],
            },
    {
        if self.data.len() == 0 {
            None
        } else {
            Some(&self.data[0])
        }
    }

    /// The number of elements.
    pub fn len(&self) -> (n: usize)
        ensures
            n == self@.len(),
    {
        self.data.len()
    }

    /// Whether there is no element.
    pub fn is_empty(&self) -> (r: bool)
        ensures
            r == (self@.len() == 0),
    {
        self.len() == 0
    }

    /// The room that the heap has, which is never less than what it holds.
    pub fn capacity(&self) -> (cap: usize)
        ensures
            cap >= self@.len(),
    {
        capacity_of(&self.data)
    }

    /// Asks for room for exactly `additional` more elements.
    pub fn reserve_exact(&mut self, additional: usize)
        requires
            old(self)@.len() + additional <= usize::MAX,
            (old(self)@.len() + additional) * size_of::<T>() <= isize::MAX,
        ensures
            final(self)@ == old(self)@,
    {
        reserve_exact_in(&mut self.data, additional);
    }

    /// Asks for room for at least `additional` more elements.
    pub fn reserve(&mut self, additional: usize)
        requires
            old(self)@.len() + additional <= usize::MAX,
            (old(self)@.len() + additional) * size_of::<T>() <= isize::MAX,
        ensures
            final(self)@ == old(self)@,
    {
        self.data.reserve(additional);
    }

    /// Asks for room for at least `additional` more elements.
    pub fn extend_reserve(&mut self, additional: usize)
        requires
            old(self)@.len() + additional <= usize::MAX,
            (old(self)@.len() + additional) * size_of::<T>() <= isize::MAX,
        ensures
            final(self)@ == old(self)@,
    {
        self.reserve(additional);
    }

    /// Gives back the room that is not in use.
    pub fn shrink_to_fit(&mut self)
        ensures
            final(self)@ == old(self)@,
    {
        shrink_to_fit_in(&mut self.data);
    }

    /// Gives back room, but keeps enough for `min_capacity` elements.
    pub fn shrink_to(&mut self, min_capacity: usize)
        ensures
            final(self)@ == old(self)@,
    {
        shrink_to_in(&mut self.data, min_capacity);
    }

    /// The elements in the order of their slots.
    pub fn as_slice(&self) -> (s: &[T])
        ensures
            s@ == self@,
    {
        self.data.as_slice()
    }

    /// Takes the heap apart into the vector of its elements, in the order of
    /// their slots.
    pub fn into_vec(self) -> (v: Vec<T>)
        ensures
            v@ == self@,
    {
        Vec::from(self)
    }

    /// Hands the elements over to an iterator that yields them in the order
    /// of their slots, and leaves the heap empty.
    pub fn drain(&mut self) -> (it: Drain<T>)
        ensures
            final(self)@ == Seq::<T>::empty(),
            it@ == old(self)@,
    {
        let mut taken: Vec<T> = Vec::new();
        core::mem::swap(&mut self.data, &mut taken);
        Drain::new(taken)
    }

    /// Drops all elements.
    pub fn clear(&mut self)
        ensures
            final(self)@ == Seq::<T>::empty(),
    {
        let _ = self.drain();
    }
}

impl<T> From<ExtHeap<T>> for Vec<T> {
    /// The vector of the elements of `heap`, in the order of their slots.
    fn from(heap: ExtHeap<T>) -> (v: Vec<T>)
        ensures
            v@ == heap@,
    {
        heap.data
    }
}

impl<T> vstd::std_specs::convert::FromSpecImpl<ExtHeap<T>> for Vec<T> {
    open spec fn obeys_from_spec() -> bool {
        true
    }

    closed spec fn from_spec(heap: ExtHeap<T>) -> Vec<T> {
        heap.data
    }
}

impl<T: Ord> Default for ExtHeap<T> {
    /// Creates an empty heap.
    fn default() -> (heap: ExtHeap<T>)
        ensures
            heap@ == Seq::<T>::empty(),
            heap.wf(),
    {
        ExtHeap::new()
    }
}

impl<T: Clone> Clone for ExtHeap<T> {
    /// A heap of clones of the elements, slot by slot.
    fn clone(&self) -> (heap: ExtHeap<T>)
        ensures
            heap@.len() == self@.len(),
            forall|i: int| 0 <= i < self@.len() ==> cloned::<T>(self@[i], #[trigger] heap@[i]),
    {
        ExtHeap { data: self.data.clone() }
    }
}

/// What stands in the first `end` slots of `u` stood in the first `end` slots
/// of `t`, if the two hold the same elements and agree from `end` on.
proof fn lemma_prefix_kept<T>(t: Seq<T>, u: Seq<T>, end: int, i: int)
    requires
        t.len() == u.len(),
        t.to_multiset() == u.to_multiset(),
        0 <= i < end <= t.len(),
        forall|k: int| end <= k < t.len() ==> u[k] == t[k],
    ensures
        exists|k: int| 0 <= k < end && t[k] == u[i],
{
    broadcast use vstd::seq_lib::group_to_multiset_ensures;

    let len = t.len() as int;
    let head_t = t.subrange(0, end);
    let head_u = u.subrange(0, end);
    let rest = t.subrange(end, len);
    assert(t =~= head_t + rest);
    assert(u =~= head_u + rest);
    vstd::seq_lib::lemma_multiset_commutative(head_t, rest);
    vstd::seq_lib::lemma_multiset_commutative(head_u, rest);
    assert forall|x: T| head_t.to_multiset().count(x) == head_u.to_multiset().count(x) by {
        assert(head_t.to_multiset().add(rest.to_multiset()).count(x) == head_u.to_multiset().add(
            rest.to_multiset(),
        ).count(x));
    }
    assert(head_u[i] == u[i]);
    assert(head_u.contains(u[i]));
    assert(head_u.to_multiset().count(u[i]) > 0);
    assert(head_t.to_multiset().count(u[i]) > 0);
    assert(head_t.contains(u[i]));
    let k = choose|k: int| 0 <= k < head_t.len() && head_t[k] == u[i];
    assert(t[k] == u[i]);
}

/// The whole part of the binary logarithm of `x`.
fn log2_fast(x: usize) -> (r: usize)
    requires
        x > 0,
    ensures
        r == 63 - vstd::std_specs::bits::u64_leading_zeros(x as u64),
        r < 64,
{
    proof {
        vstd::std_specs::bits::axiom_u64_leading_zeros(x as u64);
    }
    (63 - (x as u64).leading_zeros()) as usize
}

/// The layout from which [`ExtHeap::append`] starts: the longer of the two
/// heaps, the receiver's where they are equally long, followed by the other.
pub open spec fn joined<T>(receiver: Seq<T>, other: Seq<T>) -> Seq<T> {
    if receiver.len() < other.len() {
        other + receiver
    } else {
        receiver + other
    }
}

/// The number of slots that the first part of [`joined`] has.
pub open spec fn joined_head<T>(receiver: Seq<T>, other: Seq<T>) -> int {
    if receiver.len() < other.len() {
        other.len() as int
    } else {
        receiver.len() as int
    }
}

/// The first slot that is not marked in `kept`, or the number of slots if all
/// are marked.
pub open spec fn first_dropped(kept: Seq<bool>) -> int
    decreases kept.len(),
{
    if kept.len() == 0 {
        0
    } else if first_dropped(kept.drop_last()) < kept.len() - 1 {
        first_dropped(kept.drop_last())
    } else if kept.last() {
        kept.len() as int
    } else {
        kept.len() - 1
    }
}

/// Whether [`ExtHeap::modify`] sifts the element of slot `index` when the
/// mutator answers `answer`.
pub open spec fn sifts<T>(s: Seq<T>, index: usize, answer: Ordering) -> bool {
    match answer {
        Ordering::Greater => index > 0,
        Ordering::Less => index + 1 < s.len(),
        Ordering::Equal => false,
    }
}

/// The layout after [`ExtHeap::modify`] has put the element of slot `index`,
/// changed in place already, where the answer of the mutator sends it.
pub open spec fn resettled<T: PartialOrd>(s: Seq<T>, index: usize, answer: Ordering) -> Seq<T> {
    match answer {
        Ordering::Greater => if index > 0 {
            risen_from(s, index)
        } else {
            s
        },
        Ordering::Less => if index + 1 < s.len() {
            sunk_from(s, index)
        } else {
            s
        },
        Ordering::Equal => s,
    }
}

/// Up to the first slot that is not marked, what is picked is what was
/// there; and where all are marked, everything is picked.
proof fn lemma_first_dropped<T>(s: Seq<T>, kept: Seq<bool>)
    requires
        s.len() == kept.len(),
    ensures
        0 <= first_dropped(kept) <= kept.len(),
        first_dropped(kept) <= picked(s, kept).len(),
        first_dropped(kept) == kept.len() ==> picked(s, kept) == s,
        forall|k: int| 0 <= k < first_dropped(kept) ==> picked(s, kept)[k] == s[k],
    decreases s.len(),
{
    if s.len() > 0 {
        let head = picked(s.drop_last(), kept.drop_last());
        lemma_first_dropped(s.drop_last(), kept.drop_last());
        lemma_picked_len(s.drop_last(), kept.drop_last());
        if first_dropped(kept) == kept.len() {
            assert(picked(s, kept) =~= s.drop_last().push(s.last()));
            assert(s.drop_last().push(s.last()) =~= s);
        }
        assert forall|k: int| 0 <= k < first_dropped(kept) implies picked(s, kept)[k] == s[k] by {
            if k < first_dropped(kept.drop_last()) {
                assert(head[k] == s.drop_last()[k]);
                assert(picked(s, kept)[k] == head[k]);
            }
        }
    } else {
        assert(picked(s, kept) =~= s);
    }
}

/// No more is picked than there is.
proof fn lemma_picked_len<T>(s: Seq<T>, kept: Seq<bool>)
    ensures
        picked(s, kept).len() <= s.len(),
    decreases s.len(),
{
    if s.len() > 0 && kept.len() == s.len() {
        lemma_picked_len(s.drop_last(), kept.drop_last());
    }
}

/// The elements of `s` whose slot is marked in `kept`, in their order.
pub open spec fn picked<T>(s: Seq<T>, kept: Seq<bool>) -> Seq<T>
    decreases s.len(),
{
    if s.len() == 0 || kept.len() != s.len() {
        Seq::empty()
    } else if kept.last() {
        picked(s.drop_last(), kept.drop_last()).push(s.last())
    } else {
        picked(s.drop_last(), kept.drop_last())
    }
}

/// A heap without its last element is a heap.
proof fn lemma_shortened<T: PartialOrd>(s: Seq<T>)
    requires
        heap_ordered(s),
        s.len() > 0,
    ensures
        heap_ordered(s.drop_last()),
{
    let t = s.drop_last();
    assert forall|i: int| 1 <= i < t.len() implies #[trigger] edge_ok(t, i) by {
        assert(edge_ok(s, i));
    }
}

/// Taking the element of slot `index` out and filling the slot with the last
/// element takes exactly that element away.
proof fn lemma_refilled_multiset<T>(s: Seq<T>, index: int)
    requires
        0 <= index < s.len(),
    ensures
        s.update(index, s.last()).drop_last().to_multiset() == s.to_multiset().remove(s[index]),
{
    broadcast use vstd::seq_lib::group_to_multiset_ensures;

    let m = s.to_multiset();
    let u = s.update(index, s.last());
    let rest = u.drop_last();
    assert(s.contains(s[index]));
    assert(m.count(s[index]) > 0);
    assert(u.to_multiset() == m.insert(s.last()).remove(s[index]));
    assert(u =~= rest.push(s.last()));
    assert(u.to_multiset() == rest.to_multiset().insert(s.last()));
    assert forall|x: T| rest.to_multiset().count(x) == m.remove(s[index]).count(x) by {
        assert(rest.to_multiset().insert(s.last()).count(x) == m.insert(s.last()).remove(
            s[index],
        ).count(x));
    }
    assert(rest.to_multiset() =~= m.remove(s[index]));
}

} // verus!
