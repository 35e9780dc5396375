//! The shape of a binary heap stored in a sequence: slot `i` has its parent in
//! slot `(i - 1) / 2`, and no element is above its parent.

use crate::order::{le, lemma_le_total, lemma_le_transitive, total_order};
use vstd::prelude::*;

verus! {

/// The slot of the parent of slot `i`, for `i >= 1`.
pub open spec fn parent_of(i: int) -> int {
    (i - 1) / 2
}

/// The element in slot `i` is not above the one in its parent's slot.
pub open spec fn edge_ok<T: PartialOrd>(s: Seq<T>, i: int) -> bool {
    le(s[i], s[parent_of(i)])
}

/// The first `n` slots of `s` form a max-heap.
pub open spec fn prefix_ordered<T: PartialOrd>(s: Seq<T>, n: int) -> bool {
    forall|i: int| 1 <= i < n ==> #[trigger] edge_ok(s, i)
}

/// `s` is a max-heap: no element is above its parent.
pub open spec fn heap_ordered<T: PartialOrd>(s: Seq<T>) -> bool {
    prefix_ordered(s, s.len() as int)
}

/// The element in slot `i` of `s`.
pub open spec fn slot<T>(s: Seq<T>, i: usize) -> T {
    s[i as int]
}

/// `s` with `e` in slot `i`.
pub open spec fn with_slot<T>(s: Seq<T>, i: usize, e: T) -> Seq<T> {
    s.update(i as int, e)
}

/// `s` with the elements of slots `i` and `j` exchanged.
pub open spec fn swapped<T>(s: Seq<T>, i: int, j: int) -> Seq<T> {
    s.update(i, s[j]).update(j, s[i])
}

/// Exchanging two elements keeps the elements.
pub proof fn lemma_swapped_multiset<T>(s: Seq<T>, i: int, j: int)
    requires
        0 <= i < s.len(),
        0 <= j < s.len(),
    ensures
        swapped(s, i, j).to_multiset() == s.to_multiset(),
{
    broadcast use vstd::seq_lib::group_to_multiset_ensures;

    let m = s.to_multiset();
    let t = s.update(i, s[j]);
    assert(t.to_multiset() == m.insert(s[j]).remove(s[i]));
    assert(t[j] == if i == j { s[j] } else { s[j] });
    assert(swapped(s, i, j).to_multiset() == t.to_multiset().insert(s[i]).remove(t[j]));
    assert(swapped(s, i, j).to_multiset() =~= m);
}

/// In a max-heap prefix nothing is above the root.
pub proof fn lemma_root_is_greatest<T: PartialOrd>(s: Seq<T>, n: int, i: int)
    requires
        total_order::<T>(),
        prefix_ordered(s, n),
        0 <= i < n <= s.len(),
    ensures
        le(s[i], s[0]),
    decreases i,
{
    if i == 0 {
        lemma_le_total(s[0], s[0]);
    } else {
        assert(edge_ok(s, i));
        lemma_root_is_greatest(s, n, parent_of(i));
        lemma_le_transitive(s[i], s[parent_of(i)], s[0]);
    }
}

/// The state of a sift towards the root, among the first `n` slots: every
/// edge is in order but the one above `hole`, and what hangs below `hole` is
/// not above the parent of `hole`.
pub open spec fn rising<T: PartialOrd>(s: Seq<T>, n: int, hole: int) -> bool {
    &&& forall|i: int| 1 <= i < n && i != hole ==> #[trigger] edge_ok(s, i)
    &&& hole >= 1 ==> forall|c: int|
        1 <= c < n && parent_of(c) == hole ==> le(#[trigger] s[c], s[parent_of(hole)])
}

/// One step of a sift towards the root: the element in `hole` is above its
/// parent, and the two are exchanged.
pub proof fn lemma_rise_step<T: PartialOrd>(s: Seq<T>, n: int, hole: int)
    requires
        total_order::<T>(),
        1 <= hole < n <= s.len(),
        rising(s, n, hole),
        !le(s[hole], s[parent_of(hole)]),
    ensures
        rising(swapped(s, parent_of(hole), hole), n, parent_of(hole)),
{
    let p = parent_of(hole);
    let t = swapped(s, p, hole);
    lemma_le_total(s[hole], s[p]);
    assert forall|i: int| 1 <= i < n && i != p implies #[trigger] edge_ok(t, i) by {
        if i == hole {
            assert(le(t[i], t[parent_of(i)]));
        } else if parent_of(i) == hole {
            assert(le(s[i], s[p]));
            assert(le(t[i], t[parent_of(i)]));
        } else if parent_of(i) == p {
            assert(edge_ok(s, i));
            lemma_le_transitive(s[i], s[p], s[hole]);
            assert(le(t[i], t[parent_of(i)]));
        } else {
            assert(edge_ok(s, i));
            assert(le(t[i], t[parent_of(i)]));
        }
    }
    if p >= 1 {
        assert forall|c: int| 1 <= c < n && parent_of(c) == p implies le(
            #[trigger] t[c],
            t[parent_of(p)],
        ) by {
            assert(edge_ok(s, p));
            if c == hole {
            } else {
                assert(edge_ok(s, c));
                lemma_le_transitive(s[c], s[p], s[parent_of(p)]);
            }
        }
    }
}

/// A sift towards the root is over once the element in `hole` is not above
/// its parent, or `hole` is the root.
pub proof fn lemma_rise_done<T: PartialOrd>(s: Seq<T>, n: int, hole: int)
    requires
        0 <= hole < n <= s.len(),
        rising(s, n, hole),
        hole == 0 || le(s[hole], s[parent_of(hole)]),
    ensures
        prefix_ordered(s, n),
{
    assert forall|i: int| 1 <= i < n implies #[trigger] edge_ok(s, i) by {
        if i != hole {
        }
    }
}

/// No element of `s` is above a later one.
pub open spec fn ascending<T: PartialOrd>(s: Seq<T>) -> bool {
    forall|i: int, j: int| 0 <= i <= j < s.len() ==> le(#[trigger] s[i], #[trigger] s[j])
}

/// Every edge among the first `end` slots whose parent is in slot `lo` or
/// later is in order.
pub open spec fn ordered_from<T: PartialOrd>(s: Seq<T>, lo: int, end: int) -> bool {
    forall|i: int| 1 <= i < end && parent_of(i) >= lo ==> #[trigger] edge_ok(s, i)
}

/// With `lo == 0` every edge counts.
pub proof fn lemma_ordered_from_root<T: PartialOrd>(s: Seq<T>, end: int)
    ensures
        ordered_from(s, 0, end) == prefix_ordered(s, end),
{
    if ordered_from(s, 0, end) {
        assert forall|i: int| 1 <= i < end implies #[trigger] edge_ok(s, i) by {
            assert(parent_of(i) >= 0);
        }
    }
}

/// The state of a sift away from the root, among the first `end` slots and
/// for the edges whose parent is in slot `lo` or later: every such edge is in
/// order but those below `hole` and, where `loose` holds, the one above it;
/// and what hangs below `hole` is not above the parent of `hole`.
pub open spec fn sinking<T: PartialOrd>(s: Seq<T>, lo: int, end: int, hole: int, loose: bool) -> bool {
    &&& forall|i: int|
        1 <= i < end && parent_of(i) >= lo && parent_of(i) != hole && !(loose && i == hole)
            ==> #[trigger] edge_ok(s, i)
    &&& hole >= 1 && parent_of(hole) >= lo ==> forall|c: int|
        1 <= c < end && parent_of(c) == hole ==> le(#[trigger] s[c], s[parent_of(hole)])
}

/// `child` is a slot below `hole` among the first `end` slots, and no element
/// below `hole` is above the one in `child`.
pub open spec fn greatest_below<T: PartialOrd>(s: Seq<T>, end: int, hole: int, child: int) -> bool {
    &&& 1 <= child < end
    &&& parent_of(child) == hole
    &&& forall|c: int| 1 <= c < end && parent_of(c) == hole ==> le(#[trigger] s[c], s[child])
}

/// One step of a sift away from the root: the element in `hole` and the
/// greatest one below it are exchanged.
pub proof fn lemma_sink_step<T: PartialOrd>(
    s: Seq<T>,
    lo: int,
    end: int,
    hole: int,
    child: int,
    loose: bool,
)
    requires
        total_order::<T>(),
        0 <= lo <= hole < end <= s.len(),
        sinking(s, lo, end, hole, loose),
        greatest_below(s, end, hole, child),
        loose || le(s[hole], s[child]),
    ensures
        sinking(swapped(s, hole, child), lo, end, child, loose),
{
    let t = swapped(s, hole, child);
    assert forall|i: int|
        1 <= i < end && parent_of(i) >= lo && parent_of(i) != child && !(loose && i == child)
        implies #[trigger] edge_ok(t, i) by {
        if i == child {
            assert(le(t[i], t[parent_of(i)]));
        } else if parent_of(i) == hole {
            assert(le(s[i], s[child]));
            assert(le(t[i], t[parent_of(i)]));
        } else if i == hole {
            assert(le(s[child], s[parent_of(hole)]));
            assert(le(t[i], t[parent_of(i)]));
        } else {
            assert(edge_ok(s, i));
            assert(le(t[i], t[parent_of(i)]));
        }
    }
    assert forall|c: int| 1 <= c < end && parent_of(c) == child implies le(
        #[trigger] t[c],
        t[parent_of(child)],
    ) by {
        assert(edge_ok(s, c));
    }
}

/// A sift away from the root is over once nothing below `hole` is above the
/// element in `hole`.
pub proof fn lemma_sink_done<T: PartialOrd>(s: Seq<T>, lo: int, end: int, hole: int)
    requires
        0 <= hole < end <= s.len(),
        sinking(s, lo, end, hole, false),
        forall|c: int| 1 <= c < end && parent_of(c) == hole ==> le(#[trigger] s[c], s[hole]),
    ensures
        ordered_from(s, lo, end),
{
    assert forall|i: int| 1 <= i < end && parent_of(i) >= lo implies #[trigger] edge_ok(s, i) by {
        if parent_of(i) == hole {
            assert(le(s[i], s[hole]));
        }
    }
}

/// At the bottom a sift away from the root hands over to one towards it.
pub proof fn lemma_sink_to_rise<T: PartialOrd>(s: Seq<T>, end: int, hole: int)
    requires
        0 <= hole < end <= s.len(),
        sinking(s, 0, end, hole, true),
        forall|c: int| 1 <= c < end ==> parent_of(c) != hole,
    ensures
        rising(s, end, hole),
{
    assert forall|i: int| 1 <= i < end && i != hole implies #[trigger] edge_ok(s, i) by {
        assert(parent_of(i) >= 0);
    }
}

/// The slots below `hole` are `2 * hole + 1` and `2 * hole + 2`.
pub proof fn lemma_children(hole: int, c: int)
    requires
        0 <= hole,
        1 <= c,
    ensures
        parent_of(c) == hole <==> (c == 2 * hole + 1 || c == 2 * hole + 2),
{
}

/// The state of a heap prefix in which one slot got another element: ready to
/// sift that element away from the root if it may be above its parent, or if
/// it is not above the one it replaced; ready to sift it towards the root if
/// the one it replaced is not above it.
pub proof fn lemma_replaced<T: PartialOrd>(s: Seq<T>, n: int, index: int, e: T)
    requires
        total_order::<T>(),
        prefix_ordered(s, n),
        0 <= index < n <= s.len(),
    ensures
        sinking(s.update(index, e), 0, n, index, true),
        le(e, s[index]) ==> sinking(s.update(index, e), 0, n, index, false),
        le(s[index], e) ==> rising(s.update(index, e), n, index),
{
    let t = s.update(index, e);
    assert forall|i: int| 1 <= i < n && i != index && parent_of(i) != index implies #[trigger] edge_ok(
        t,
        i,
    ) by {
        assert(edge_ok(s, i));
    }
    if index >= 1 {
        assert forall|c: int| 1 <= c < n && parent_of(c) == index implies le(
            #[trigger] t[c],
            t[parent_of(index)],
        ) by {
            assert(edge_ok(s, c));
            assert(edge_ok(s, index));
            lemma_le_transitive(s[c], s[index], s[parent_of(index)]);
        }
    }
    if le(e, s[index]) {
        if index >= 1 {
            assert(edge_ok(s, index));
            lemma_le_transitive(e, s[index], s[parent_of(index)]);
            assert(edge_ok(t, index));
        }
    }
    if le(s[index], e) {
        assert forall|i: int| 1 <= i < n && i != index implies #[trigger] edge_ok(t, i) by {
            assert(edge_ok(s, i));
            if parent_of(i) == index {
                lemma_le_transitive(s[i], s[index], e);
            }
        }
    }
}

/// The slot below `hole` that a sift away from the root looks at, among the
/// first `end` slots: the first of the two, or the second where there is one
/// and the first is not above it.
pub open spec fn larger_child<T: PartialOrd>(s: Seq<T>, hole: int, end: int) -> int {
    let first = 2 * hole + 1;
    if first + 1 < end && le(s[first], s[first + 1]) {
        first + 1
    } else {
        first
    }
}

/// The slot to which the element of slot `pos` comes when it is sifted
/// towards the root: it passes every parent that it is above, and stops at
/// the first that it is not above, or at the root.
pub open spec fn rise_end<T: PartialOrd>(s: Seq<T>, pos: int) -> int
    decreases pos,
{
    if pos <= 0 || le(s[pos], s[parent_of(pos)]) {
        pos
    } else {
        rise_end(swapped(s, pos, parent_of(pos)), parent_of(pos))
    }
}

/// The layout after the element of slot `pos` was sifted towards the root:
/// every parent that it passed has moved one level down, into the slot that
/// it left, and every other slot is as it was.
pub open spec fn risen<T: PartialOrd>(s: Seq<T>, pos: int) -> Seq<T>
    decreases pos,
{
    if pos <= 0 || le(s[pos], s[parent_of(pos)]) {
        s
    } else {
        risen(swapped(s, pos, parent_of(pos)), parent_of(pos))
    }
}

/// The slot to which the element of slot `pos` comes when it is sifted away
/// from the root among the first `end` slots: it passes the larger child for
/// as long as that child is above it.
pub open spec fn sink_end<T: PartialOrd>(s: Seq<T>, pos: int, end: int) -> int
    decreases end - pos,
{
    if pos < 0 || 2 * pos + 1 >= end {
        pos
    } else {
        let child = larger_child(s, pos, end);
        if le(s[child], s[pos]) {
            pos
        } else {
            sink_end(swapped(s, pos, child), child, end)
        }
    }
}

/// The layout after the element of slot `pos` was sifted away from the root
/// among the first `end` slots: every child that it passed has moved one
/// level up, and every other slot is as it was.
pub open spec fn sunk<T: PartialOrd>(s: Seq<T>, pos: int, end: int) -> Seq<T>
    decreases end - pos,
{
    if pos < 0 || 2 * pos + 1 >= end {
        s
    } else {
        let child = larger_child(s, pos, end);
        if le(s[child], s[pos]) {
            s
        } else {
            sunk(swapped(s, pos, child), child, end)
        }
    }
}

/// The slot at the bottom to which the element of slot `pos` comes when it
/// passes the larger child at every level, whatever their ranks.
pub open spec fn drop_end<T: PartialOrd>(s: Seq<T>, pos: int, end: int) -> int
    decreases end - pos,
{
    if pos < 0 || 2 * pos + 1 >= end {
        pos
    } else {
        drop_end(swapped(s, pos, larger_child(s, pos, end)), larger_child(s, pos, end), end)
    }
}

/// The layout after the element of slot `pos` has passed the larger child at
/// every level, down to the bottom.
pub open spec fn dropped<T: PartialOrd>(s: Seq<T>, pos: int, end: int) -> Seq<T>
    decreases end - pos,
{
    if pos < 0 || 2 * pos + 1 >= end {
        s
    } else {
        dropped(swapped(s, pos, larger_child(s, pos, end)), larger_child(s, pos, end), end)
    }
}

/// The layout after the element of slot `pos` was taken to the bottom and
/// sifted towards the root from there.
pub open spec fn settled<T: PartialOrd>(s: Seq<T>, pos: int) -> Seq<T> {
    risen(dropped(s, pos, s.len() as int), drop_end(s, pos, s.len() as int))
}

/// `s` without the element of slot `index`, the last element in its place.
pub open spec fn refilled<T>(s: Seq<T>, index: int) -> Seq<T> {
    s.update(index, s.last()).drop_last()
}

/// The layout of a heap after the element of slot `index` was taken out: the
/// rest as it was if that was the last slot; else the last element put in
/// its place, taken to the bottom and sifted towards the root.
pub open spec fn removed<T: PartialOrd>(s: Seq<T>, index: int) -> Seq<T> {
    if index == s.len() - 1 {
        s.drop_last()
    } else {
        settled(refilled(s, index), index)
    }
}

/// The layout after the elements of the slots `n - 1` down to 0 were sifted
/// away from the root, one after the other.
pub open spec fn heapified_from<T: PartialOrd>(s: Seq<T>, n: int) -> Seq<T>
    decreases n,
{
    if n <= 0 {
        s
    } else {
        heapified_from(sunk(s, n - 1, s.len() as int), n - 1)
    }
}

/// The layout after a heap was made of the whole of `s`, from the last slot
/// that has a child down to the root.
pub open spec fn heapified<T: PartialOrd>(s: Seq<T>) -> Seq<T> {
    heapified_from(s, s.len() as int / 2)
}

/// The layout after the elements of the slots `i` up to `len` were sifted
/// towards the root, one after the other.
pub open spec fn tail_risen<T: PartialOrd>(s: Seq<T>, i: int, len: int) -> Seq<T>
    decreases len - i,
{
    if i < 0 || i >= len {
        s
    } else {
        tail_risen(risen(s, i), i + 1, len)
    }
}

/// Whether a heap of `len` slots, the first `start` of which are in order, is
/// made anew as a whole rather than by sifting the tail up: where the tail
/// is longer than the head, and else where that takes fewer comparisons by
/// the count for small heaps, or by the measured factor for large ones.
pub open spec fn rebuilds(start: int, len: int) -> bool {
    let tail = len - start;
    if start < tail {
        true
    } else if len <= 2048 {
        2 * len < tail * (63 - vstd::std_specs::bits::u64_leading_zeros(start as u64))
    } else {
        2 * len < tail * 11
    }
}

/// The layout after a heap was made of `s`, whose first `start` slots are one
/// already.
pub open spec fn rebuilt_tail<T: PartialOrd>(s: Seq<T>, start: int) -> Seq<T> {
    if start >= s.len() {
        s
    } else if rebuilds(start, s.len() as int) {
        heapified(s)
    } else {
        tail_risen(s, start, s.len() as int)
    }
}

/// As [`risen`], for a slot given as it is used in indexing.
pub open spec fn risen_from<T: PartialOrd>(s: Seq<T>, index: usize) -> Seq<T> {
    risen(s, index as int)
}

/// As [`sunk`] among all slots, for a slot given as it is used in indexing.
pub open spec fn sunk_from<T: PartialOrd>(s: Seq<T>, index: usize) -> Seq<T> {
    sunk(s, index as int, s.len() as int)
}

/// An element that no child is above stays where it is when it is sifted
/// away from the root.
pub proof fn lemma_sunk_in_order<T: PartialOrd>(s: Seq<T>, pos: int, end: int)
    requires
        0 <= pos < end <= s.len(),
        forall|c: int| 1 <= c < end && parent_of(c) == pos ==> le(#[trigger] s[c], s[pos]),
    ensures
        sunk(s, pos, end) == s,
        sink_end(s, pos, end) == pos,
{
    if 2 * pos + 1 < end {
        let child = larger_child(s, pos, end);
        lemma_children(pos, child);
        assert(le(s[child], s[pos]));
    }
}

/// Making a heap of what is a heap already changes nothing.
pub proof fn lemma_heapified_heap<T: PartialOrd>(s: Seq<T>, n: int)
    requires
        heap_ordered(s),
        0 <= n <= s.len(),
    ensures
        heapified_from(s, n) == s,
    decreases n,
{
    if n > 0 {
        assert forall|c: int| 1 <= c < s.len() && parent_of(c) == n - 1 implies le(
            #[trigger] s[c],
            s[n - 1],
        ) by {
            assert(edge_ok(s, c));
        }
        lemma_sunk_in_order(s, n - 1, s.len() as int);
        lemma_heapified_heap(s, n - 1);
    }
}

} // verus!
