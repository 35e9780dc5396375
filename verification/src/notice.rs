//! What an observer of a heap is told, and what it can conclude from it.
//!
//! A heap hands every element that comes to rest in another slot to a
//! callback, together with the slot. The calls that were made are modelled as
//! a sequence of [`Notice`] values; [`seen`] replays such a sequence over the
//! layout that the observer knew before.
//!
//! A contract that speaks of such a sequence says that these calls were made
//! and what an observer knows after them. It does not say that no other call
//! was made: a callback keeps no state that a contract could hold against
//! the calls it got.

use crate::shape::parent_of;
use vstd::prelude::*;

verus! {

/// One call of the callback: the layout it was handed and the slot it names.
pub ghost struct Notice<T> {
    pub layout: Seq<T>,
    pub slot: usize,
}

/// What `func` ensures of a call holds of the layout and the slot of `n`, as
/// it does once `func` has returned from such a call; and the slot lies
/// inside the layout.
pub open spec fn heard<T, F: FnMut(&mut [T], usize)>(func: F, n: Notice<T>) -> bool {
    &&& n.slot < n.layout.len()
    &&& exists|s: &mut [T]| s@ == n.layout && #[trigger] call_ensures(func, (s, n.slot), ())
}

/// Every notice of `trace` was heard by `func`.
pub open spec fn told<T, F: FnMut(&mut [T], usize)>(func: F, trace: Seq<Notice<T>>) -> bool {
    forall|k: int| 0 <= k < trace.len() ==> #[trigger] heard(func, trace[k])
}

/// The element that an observer believes to be in `slot`: the one named by the
/// latest notice for that slot, or the one of `base` if there was none.
pub open spec fn seen<T>(base: Seq<T>, trace: Seq<Notice<T>>, slot: int) -> Option<T>
    decreases trace.len(),
{
    if trace.len() == 0 {
        if 0 <= slot < base.len() {
            Some(base[slot])
        } else {
            None
        }
    } else if trace.last().slot == slot {
        Some(trace.last().layout[slot])
    } else {
        seen(base, trace.drop_last(), slot)
    }
}

/// An observer that knew `base` and heard `trace` knows every slot of `layout`.
pub open spec fn consistent<T>(base: Seq<T>, trace: Seq<Notice<T>>, layout: Seq<T>) -> bool {
    forall|i: int| 0 <= i < layout.len() ==> #[trigger] seen(base, trace, i) == Some(layout[i])
}

/// As [`consistent`], but for the one slot `hole`, whose element is on its way.
pub open spec fn consistent_but<T>(
    base: Seq<T>,
    trace: Seq<Notice<T>>,
    layout: Seq<T>,
    hole: int,
) -> bool {
    forall|i: int|
        0 <= i < layout.len() && i != hole ==> #[trigger] seen(base, trace, i) == Some(layout[i])
}

/// The notices that follow `before` in `out` tell of one sift towards the
/// root: the first names `pos`, each further one the parent of the slot named
/// before it, and the last one `top`.
pub open spec fn climbs<T>(out: Seq<Notice<T>>, before: Seq<Notice<T>>, pos: int, top: int) -> bool {
    &&& out.len() > before.len()
    &&& out.subrange(0, before.len() as int) == before
    &&& out[before.len() as int].slot == pos
    &&& out.last().slot == top
    &&& forall|k: int|
        before.len() <= k < out.len() - 1 ==> (#[trigger] out[k + 1]).slot == parent_of(
            out[k].slot as int,
        )
}

/// The notices that follow `before` in `out` tell of one sift away from the
/// root: the first names `pos`, each further one a slot below the one named
/// before it, and the last one `bottom`.
pub open spec fn descends<T>(
    out: Seq<Notice<T>>,
    before: Seq<Notice<T>>,
    pos: int,
    bottom: int,
) -> bool {
    &&& out.len() > before.len()
    &&& out.subrange(0, before.len() as int) == before
    &&& out[before.len() as int].slot == pos
    &&& out.last().slot == bottom
    &&& forall|k: int|
        before.len() <= k < out.len() - 1 ==> parent_of((#[trigger] out[k + 1]).slot as int)
            == out[k].slot
}

/// One more notice changes what is seen in its own slot only.
pub proof fn lemma_seen_push<T>(base: Seq<T>, trace: Seq<Notice<T>>, n: Notice<T>, slot: int)
    ensures
        seen(base, trace.push(n), slot) == if n.slot == slot {
            Some(n.layout[slot])
        } else {
            seen(base, trace, slot)
        },
{
    assert(trace.push(n).drop_last() =~= trace);
}

/// Nothing heard, nothing changed: the observer still knows `base`.
pub proof fn lemma_silence<T>(base: Seq<T>)
    ensures
        consistent(base, Seq::<Notice<T>>::empty(), base),
{
}

/// What is seen after two runs of notices, the second of which started from
/// the layout that the first had led to, is what is seen after the second.
pub proof fn lemma_seen_chain<T>(
    base: Seq<T>,
    first: Seq<Notice<T>>,
    between: Seq<T>,
    second: Seq<Notice<T>>,
    slot: int,
)
    requires
        consistent(base, first, between),
        seen(between, second, slot) is Some,
    ensures
        seen(base, first + second, slot) == seen(between, second, slot),
    decreases second.len(),
{
    if second.len() == 0 {
        assert(first + second =~= first);
    } else {
        assert((first + second).last() == second.last());
        assert((first + second).drop_last() =~= first + second.drop_last());
        if second.last().slot != slot {
            lemma_seen_chain(base, first, between, second.drop_last(), slot);
        }
    }
}

/// Notices add up: an observer that has followed one operation and then the
/// next knows the layout after both.
pub proof fn lemma_consistent_chain<T, F: FnMut(&mut [T], usize)>(
    func: F,
    base: Seq<T>,
    first: Seq<Notice<T>>,
    between: Seq<T>,
    second: Seq<Notice<T>>,
    layout: Seq<T>,
)
    requires
        told(func, first),
        told(func, second),
        consistent(base, first, between),
        consistent(between, second, layout),
    ensures
        told(func, first + second),
        consistent(base, first + second, layout),
{
    assert forall|k: int| 0 <= k < (first + second).len() implies #[trigger] heard(
        func,
        (first + second)[k],
    ) by {
        if k < first.len() {
            assert(heard(func, first[k]));
        } else {
            assert(heard(func, second[k - first.len()]));
        }
    }
    assert forall|i: int| 0 <= i < layout.len() implies #[trigger] seen(base, first + second, i)
        == Some(layout[i]) by {
        assert(seen(between, second, i) == Some(layout[i]));
        lemma_seen_chain(base, first, between, second, i);
    }
}

/// Calls `func` for `slot` and records the call.
pub(crate) fn announce<T, F: FnMut(&mut [T], usize)>(
    data: &mut Vec<T>,
    slot: usize,
    func: &mut F,
    Ghost(trace): Ghost<Seq<Notice<T>>>,
) -> (out: Ghost<Seq<Notice<T>>>)
    requires
        slot < old(data).len(),
        forall|s: &mut [T], i: usize| i < s@.len() ==> call_requires(*old(func), (s, i)),
        forall|s: &mut [T], i: usize| #[trigger]
            call_ensures(*old(func), (s, i), ()) ==> final(s)@ == s@,
        told(*old(func), trace),
    ensures
        final(data)@ == old(data)@,
        *final(func) == *old(func),
        out@ == trace.push(Notice { layout: old(data)@, slot }),
        told(*old(func), out@),
{
    let ghost layout = data@;
    func(data.as_mut_slice(), slot);
    proof {
        let n = Notice { layout, slot };
        let w = choose|s: &mut [T]| s@ == layout && #[trigger] call_ensures(*old(func), (s, slot), ());
        assert(w@ == n.layout && call_ensures(*old(func), (w, n.slot), ()));
        assert(heard(*old(func), n));
    }
    Ghost(trace.push(Notice { layout, slot }))
}

} // verus!
