//! Joining the results of futures that run side by side.
//!
//! An [`AsyncMap`] collects submissions. When it is started, every submission
//! gets a slot in a [`JoinBuffer`]; each future that resolves fills its slot,
//! and the one that fills the last slot wakes the task that waits for all.

use crate::error::ErrorKind;
use vstd::prelude::*;

verus! {

/// The first failure among the results, in the order in which they arrived.
pub open spec fn first_failure<T>(
    results: Map<int, Result<T, ErrorKind>>,
    arrival: Seq<int>,
) -> Option<ErrorKind>
    decreases arrival.len(),
{
    if arrival.len() == 0 {
        None
    } else {
        match first_failure(results, arrival.drop_last()) {
            Some(e) => Some(e),
            None => match results[arrival.last()] {
                Err(e) => Some(e),
                Ok(_) => None,
            },
        }
    }
}

/// The value of a result that is no failure.
pub open spec fn value_of<T>(r: Result<T, ErrorKind>) -> T {
    r->Ok_0
}

/// The state of a join as its contracts see it.
pub ghost struct Join<T> {
    /// The number of submissions.
    pub n: nat,
    /// Whether the values are handed out in the order of submission.
    pub ordered: bool,
    /// The results that have arrived, by the index of the submission.
    pub results: Map<int, Result<T, ErrorKind>>,
    /// The indices of the submissions that have resolved, in the order in
    /// which they did.
    pub arrival: Seq<int>,
}

impl<T> Join<T> {
    /// A join of `n` submissions, none of which has resolved.
    pub open spec fn fresh(n: nat, ordered: bool) -> Join<T> {
        Join { n, ordered, results: Map::empty(), arrival: Seq::empty() }
    }

    /// Every result belongs to a submission and has arrived once.
    pub open spec fn wf(self) -> bool {
        &&& self.arrival.no_duplicates()
        &&& forall|i: int| #[trigger] self.results.contains_key(i) <==> self.arrival.contains(i)
        &&& forall|i: int| #[trigger] self.results.contains_key(i) ==> 0 <= i < self.n
    }

    /// The submission `index` exists and has not resolved yet.
    pub open spec fn accepts(self, index: int) -> bool {
        0 <= index < self.n && !self.results.contains_key(index)
    }

    /// The submission `index` has resolved with `r`. A result for a
    /// submission that does not exist, or has resolved before, is dropped.
    pub open spec fn complete(self, index: int, r: Result<T, ErrorKind>) -> Join<T> {
        if self.accepts(index) {
            Join {
                results: self.results.insert(index, r),
                arrival: self.arrival.push(index),
                ..self
            }
        } else {
            self
        }
    }

    /// Every submission has resolved.
    pub open spec fn resolved(self) -> bool {
        forall|i: int| 0 <= i < self.n ==> #[trigger] self.results.contains_key(i)
    }

    /// The values, in the order of submission or in the order of arrival.
    pub open spec fn values(self) -> Seq<T> {
        if self.ordered {
            Seq::new(self.n, |k: int| value_of(self.results[k]))
        } else {
            Seq::new(self.arrival.len(), |k: int| value_of(self.results[self.arrival[k]]))
        }
    }

    /// What the join comes to: nothing while a submission is missing; then
    /// the first failure that arrived, if there was one; else the values.
    pub open spec fn outcome(self) -> Option<Result<Seq<T>, ErrorKind>> {
        if !self.resolved() {
            None
        } else {
            match first_failure(self.results, self.arrival) {
                Some(e) => Some(Err(e)),
                None => Some(Ok(self.values())),
            }
        }
    }
}

/// A join comes to something exactly when every submission has resolved; and
/// an ordered join without a failure yields one value for each submission,
/// the value of submission `k` in place `k`.
pub proof fn lemma_join_complete<T>(j: Join<T>)
    ensures
        j.outcome() is Some <==> j.resolved(),
        j.ordered ==> forall|v: Seq<T>|
            j.outcome() == Some(Ok::<Seq<T>, ErrorKind>(v)) ==> v.len() == j.n && forall|k: int|
                0 <= k < j.n ==> #[trigger] v[k] == value_of(j.results[k]),
{
}

/// One more result keeps a join in order.
pub proof fn lemma_complete_keeps_wf<T>(j: Join<T>, index: int, r: Result<T, ErrorKind>)
    requires
        j.wf(),
    ensures
        j.complete(index, r).wf(),
{
    if j.accepts(index) {
        let t = j.complete(index, r);
        assert(!j.arrival.contains(index));
        assert forall|i: int| #[trigger] t.arrival.contains(i) <==> (j.arrival.contains(i) || i
            == index) by {
            if t.arrival.contains(i) {
                let k = choose|k: int| 0 <= k < t.arrival.len() && t.arrival[k] == i;
                if k < j.arrival.len() {
                    assert(j.arrival[k] == i);
                }
            }
            if j.arrival.contains(i) {
                let k = choose|k: int| 0 <= k < j.arrival.len() && j.arrival[k] == i;
                assert(t.arrival[k] == i);
            }
            if i == index {
                assert(t.arrival[j.arrival.len() as int] == i);
            }
        }
        assert forall|a: int, b: int|
            0 <= a < t.arrival.len() && 0 <= b < t.arrival.len() && a != b implies t.arrival[a]
            != t.arrival[b] by {
            if a < j.arrival.len() && b < j.arrival.len() {
            } else if a < j.arrival.len() {
                assert(j.arrival[a] == t.arrival[a]);
            } else {
                assert(j.arrival[b] == t.arrival[b]);
            }
        }
        assert forall|i: int| #[trigger] t.results.contains_key(i) <==> t.arrival.contains(i) by {
            assert(j.results.contains_key(i) <==> j.arrival.contains(i));
        }
    }
}

/// What failed first stays the first failure when a result arrives for a
/// submission that had none.
pub proof fn lemma_first_failure_push<T>(
    results: Map<int, Result<T, ErrorKind>>,
    arrival: Seq<int>,
    index: int,
    r: Result<T, ErrorKind>,
)
    requires
        !results.contains_key(index),
        forall|k: int| 0 <= k < arrival.len() ==> results.contains_key(#[trigger] arrival[k]),
    ensures
        first_failure(results.insert(index, r), arrival.push(index)) == match first_failure(
            results,
            arrival,
        ) {
            Some(e) => Some(e),
            None => match r {
                Err(e) => Some(e),
                Ok(_) => None,
            },
        },
{
    lemma_first_failure_stable(results, arrival, index, r);
    assert(arrival.push(index).drop_last() =~= arrival);
}

/// A result for a submission that had none does not change what failed first
/// among those that had.
proof fn lemma_first_failure_stable<T>(
    results: Map<int, Result<T, ErrorKind>>,
    arrival: Seq<int>,
    index: int,
    r: Result<T, ErrorKind>,
)
    requires
        !results.contains_key(index),
        forall|k: int| 0 <= k < arrival.len() ==> results.contains_key(#[trigger] arrival[k]),
    ensures
        first_failure(results.insert(index, r), arrival) == first_failure(results, arrival),
    decreases arrival.len(),
{
    if arrival.len() > 0 {
        lemma_first_failure_stable(results, arrival.drop_last(), index, r);
        assert(results.contains_key(arrival[arrival.len() - 1]));
    }
}

/// Where nothing has failed, every result that has arrived is a value.
pub proof fn lemma_no_failure<T>(
    results: Map<int, Result<T, ErrorKind>>,
    arrival: Seq<int>,
    k: int,
)
    requires
        first_failure(results, arrival) is None,
        0 <= k < arrival.len(),
    ensures
        results[arrival[k]] is Ok,
    decreases arrival.len(),
{
    if k < arrival.len() - 1 {
        lemma_no_failure(results, arrival.drop_last(), k);
    }
}

/// The number of slots that are still open.
pub open spec fn open_slots(done: Seq<bool>) -> nat
    decreases done.len(),
{
    if done.len() == 0 {
        0
    } else {
        open_slots(done.drop_last()) + if done.last() {
            0nat
        } else {
            1nat
        }
    }
}

/// Closing an open slot leaves one open slot less.
proof fn lemma_close_slot(done: Seq<bool>, index: int)
    requires
        0 <= index < done.len(),
        !done[index],
    ensures
        open_slots(done.update(index, true)) + 1 == open_slots(done),
    decreases done.len(),
{
    let after = done.update(index, true);
    if index == done.len() - 1 {
        assert(after.drop_last() =~= done.drop_last());
    } else {
        lemma_close_slot(done.drop_last(), index);
        assert(after.drop_last() =~= done.drop_last().update(index, true));
    }
}

/// No slot is open exactly when every slot is closed.
proof fn lemma_none_open(done: Seq<bool>)
    ensures
        open_slots(done) == 0 <==> forall|i: int| 0 <= i < done.len() ==> #[trigger] done[i],
    decreases done.len(),
{
    if done.len() > 0 {
        lemma_none_open(done.drop_last());
        if open_slots(done) == 0 {
            assert forall|i: int| 0 <= i < done.len() implies #[trigger] done[i] by {
                if i < done.len() - 1 {
                    assert(done.drop_last()[i] == done[i]);
                }
            }
        }
        if forall|i: int| 0 <= i < done.len() ==> #[trigger] done[i] {
            assert forall|i: int| 0 <= i < done.drop_last().len() implies #[trigger] done.drop_last()[i] by {
                assert(done[i]);
            }
        }
    }
}

/// The results of the submissions of one join.
pub struct JoinBuffer<T> {
    slots: Vec<Option<T>>,
    done: Vec<bool>,
    arrived: Vec<usize>,
    failed: Option<ErrorKind>,
    missing: usize,
    ordered: bool,
    results: Ghost<Map<int, Result<T, ErrorKind>>>,
}

impl<T> View for JoinBuffer<T> {
    type V = Join<T>;

    closed spec fn view(&self) -> Join<T> {
        Join {
            n: self.slots@.len(),
            ordered: self.ordered,
            results: self.results@,
            arrival: self.arrived@.map_values(|i: usize| i as int),
        }
    }
}

impl<T> JoinBuffer<T> {
    /// The slots, the marks and the counter agree with the results that have
    /// arrived.
    pub closed spec fn wf(&self) -> bool {
        &&& self@.wf()
        &&& self.done@.len() == self.slots@.len()
        &&& self.missing == open_slots(self.done@)
        &&& forall|i: int|
            0 <= i < self.done@.len() ==> (#[trigger] self.done@[i] <==> self.results@.contains_key(
                i,
            ))
        &&& forall|i: int|
            0 <= i < self.slots@.len() ==> #[trigger] self.slots@[i] == if self.results@.contains_key(
                i,
            ) && self.results@[i] is Ok {
                Some(value_of(self.results@[i]))
            } else {
                None
            }
        &&& self.failed == first_failure(self.results@, self@.arrival)
    }

    /// A buffer that is in order shows a join that is.
    pub proof fn lemma_wf(&self)
        requires
            self.wf(),
        ensures
            self@.wf(),
    {
    }

    /// The counter is at zero exactly when every submission has resolved.
    proof fn lemma_counter(&self)
        requires
            self.wf(),
        ensures
            self.missing == 0 <==> self@.resolved(),
    {
        lemma_none_open(self.done@);
        if self.missing == 0 {
            assert forall|i: int| 0 <= i < self@.n implies #[trigger] self@.results.contains_key(
                i,
            ) by {
                assert(self.done@[i]);
            }
        }
        if self@.resolved() {
            assert forall|i: int| 0 <= i < self.done@.len() implies #[trigger] self.done@[i] by {
                assert(self@.results.contains_key(i));
            }
        }
    }

    /// Where every submission has resolved and none has failed, every slot
    /// holds the value of its submission.
    proof fn lemma_all_values(&self, i: int)
        requires
            self.wf(),
            self@.resolved(),
            self.failed is None,
            0 <= i < self@.n,
        ensures
            self.slots@[i] == Some(value_of(self@.results[i])),
    {
        assert(self@.results.contains_key(i));
        assert(self@.arrival.contains(i));
        let k = choose|k: int| 0 <= k < self@.arrival.len() && self@.arrival[k] == i;
        lemma_no_failure(self@.results, self@.arrival, k);
    }

    /// A buffer for `n` submissions, none of which has resolved.
    pub fn new(n: usize, ordered: bool) -> (buffer: Self)
        ensures
            buffer.wf(),
            buffer@ == Join::<T>::fresh(n as nat, ordered),
    {
        let mut slots: Vec<Option<T>> = Vec::new();
        let mut done: Vec<bool> = Vec::new();
        let mut k: usize = 0;
        while k < n
            invariant
                k <= n,
                slots@.len() == k,
                done@.len() == k,
                forall|i: int| 0 <= i < k ==> #[trigger] slots@[i] == None::<T>,
                forall|i: int| 0 <= i < k ==> !#[trigger] done@[i],
                open_slots(done@) == k,
            decreases n - k,
        {
            let ghost marks = done@;
            slots.push(None);
            done.push(false);
            proof {
                assert(done@.drop_last() =~= marks);
            }
            k += 1;
        }
        let buffer = JoinBuffer {
            slots,
            done,
            arrived: Vec::new(),
            failed: None,
            missing: n,
            ordered,
            results: Ghost(Map::empty()),
        };
        proof {
            assert(buffer@.arrival =~= Seq::<int>::empty());
            assert(buffer@ == Join::<T>::fresh(n as nat, ordered));
        }
        buffer
    }

    /// Records that the submission `index` has resolved with `r`; tells
    /// whether it was the last one missing, so that the task that waits for
    /// all is woken exactly once. A result for a submission that does not
    /// exist, or has resolved before, is dropped.
    pub fn complete(&mut self, index: usize, r: Result<T, ErrorKind>) -> (last: bool)
        requires
            old(self).wf(),
        ensures
            final(self).wf(),
            final(self)@ == old(self)@.complete(index as int, r),
            last == (old(self)@.accepts(index as int) && final(self)@.resolved()),
    {
        if index >= self.done.len() || self.done[index] {
            return false;
        }
        let ghost before = self@;
        let ghost marks = self.done@;
        proof {
            lemma_complete_keeps_wf(before, index as int, r);
            lemma_close_slot(marks, index as int);
            assert forall|k: int| 0 <= k < before.arrival.len() implies before.results.contains_key(
                #[trigger] before.arrival[k],
            ) by {
                assert(before.arrival.contains(before.arrival[k]));
            }
            lemma_first_failure_push(before.results, before.arrival, index as int, r);
            self.results = Ghost(self.results@.insert(index as int, r));
        }
        self.done[index] = true;
        self.arrived.push(index);
        self.missing = self.missing - 1;
        match r {
            Ok(v) => {
                self.slots[index] = Some(v);
            },
            Err(e) => {
                if self.failed.is_none() {
                    self.failed = Some(e);
                }
            },
        }
        proof {
            assert(self@.arrival =~= before.arrival.push(index as int));
            self.lemma_counter();
        }
        self.missing == 0
    }

    /// Whether every submission has resolved.
    pub fn is_resolved(&self) -> (r: bool)
        requires
            self.wf(),
        ensures
            r == self@.resolved(),
    {
        proof {
            self.lemma_counter();
        }
        self.missing == 0
    }

    /// What the join has come to: `None` while a submission is missing; then
    /// the first failure that arrived, if there was one; else the values, in
    /// the order of submission if the join is ordered, in the order of
    /// arrival if it is not.
    pub fn take(self) -> (r: Option<Result<Vec<T>, ErrorKind>>)
        requires
            self.wf(),
        ensures
            match r {
                None => self@.outcome() is None,
                Some(Err(e)) => self@.outcome() == Some(Err::<Seq<T>, ErrorKind>(e)),
                Some(Ok(values)) => self@.outcome() == Some(Ok::<Seq<T>, ErrorKind>(values@)),
            },
    {
        proof {
            self.lemma_counter();
        }
        if self.missing != 0 {
            return None;
        }
        let ghost join = self@;
        proof {
            if self.failed is None {
                assert forall|i: int| 0 <= i < join.n implies #[trigger] self.slots@[i] == Some(
                    value_of(join.results[i]),
                ) by {
                    self.lemma_all_values(i);
                }
                assert forall|i: int| 0 <= i < join.arrival.len() implies 0
                    <= #[trigger] join.arrival[i] < join.n by {
                    assert(join.arrival.contains(join.arrival[i]));
                    assert(join.results.contains_key(join.arrival[i]));
                }
            }
        }
        let JoinBuffer { slots, arrived, failed, ordered, .. } = self;
        match failed {
            Some(e) => {
                return Some(Err(e));
            },
            None => {},
        }
        let mut slots = slots;
        let mut values: Vec<T> = Vec::new();
        let n = slots.len();
        if ordered {
            let mut k: usize = 0;
            while k < n
                invariant
                    k <= n,
                    n == slots@.len(),
                    n == join.n,
                    values@.len() == k,
                    forall|i: int| 0 <= i < k ==> #[trigger] values@[i] == value_of(join.results[i]),
                    forall|i: int|
                        k <= i < n ==> #[trigger] slots@[i] == Some(value_of(join.results[i])),
                decreases n - k,
            {
                match slots[k].take() {
                    Some(v) => {
                        values.push(v);
                    },
                    None => {},
                }
                k += 1;
            }
            assert(values@ =~= join.values());
        } else {
            let count = arrived.len();
            let mut k: usize = 0;
            while k < count
                invariant
                    k <= count,
                    count == arrived@.len(),
                    n == slots@.len(),
                    n == join.n,
                    join.wf(),
                    join.arrival == arrived@.map_values(|i: usize| i as int),
                    values@.len() == k,
                    forall|i: int|
                        0 <= i < k ==> #[trigger] values@[i] == value_of(
                            join.results[join.arrival[i]],
                        ),
                    forall|i: int|
                        k <= i < count ==> 0 <= #[trigger] join.arrival[i] < n && slots@[join.arrival[i]]
                            == Some(value_of(join.results[join.arrival[i]])),
                decreases count - k,
            {
                let index = arrived[k];
                proof {
                    assert(join.arrival[k as int] == index);
                }
                match slots[index].take() {
                    Some(v) => {
                        values.push(v);
                    },
                    None => {},
                }
                proof {
                    assert forall|i: int| k + 1 <= i < count implies slots@[join.arrival[i]] == Some(
                        value_of(join.results[join.arrival[i]]),
                    ) by {
                        assert(join.arrival[i] != join.arrival[k as int]);
                    }
                }
                k += 1;
            }
            assert(values@ =~= join.values());
        }
        Some(Ok(values))
    }
}

/// The submissions of a join that has not been started: for each the runtime
/// that is to run it, and the future.
pub struct AsyncMap<R, F> {
    pending: Vec<(R, F)>,
}

impl<R, F> View for AsyncMap<R, F> {
    type V = Seq<(R, F)>;

    closed spec fn view(&self) -> Seq<(R, F)> {
        self.pending@
    }
}

impl<R, F> AsyncMap<R, F> {
    /// No submission yet.
    pub fn new() -> (map: Self)
        ensures
            map@ == Seq::<(R, F)>::empty(),
    {
        AsyncMap { pending: Vec::new() }
    }

    /// Adds the submission of `future`, to run on `runtime`.
    pub fn join(&mut self, runtime: R, future: F)
        ensures
            final(self)@ == old(self)@.push((runtime, future)),
    {
        self.pending.push((runtime, future));
    }

    /// The number of submissions.
    pub fn len(&self) -> (n: usize)
        ensures
            n == self@.len(),
    {
        self.pending.len()
    }

    /// Starts the join: hands out the submissions in their order, to be
    /// spawned, and a buffer with a slot for each.
    pub fn map<T>(self, ordered: bool) -> (started: (Vec<(R, F)>, JoinBuffer<T>))
        ensures
            started.0@ == self@,
            started.1.wf(),
            started.1@ == Join::<T>::fresh(self@.len(), ordered),
    {
        let buffer = JoinBuffer::new(self.pending.len(), ordered);
        (self.pending, buffer)
    }
}

} // verus!
