//! A value that is set once, on any runtime, and awaited by one task on the
//! runtime that the value is bound to.
//!
//! Setting and awaiting may come in either order. Whoever comes second
//! completes the rendezvous: a `set` that finds a waiter names the task to
//! wake, an await that finds the value takes it.

use crate::error::ErrorKind;
use crate::task_id::TaskId;
use vstd::prelude::*;

verus! {

/// What a value holds.
#[derive(Debug)]
pub enum ValueState<T> {
    /// Nothing was set yet.
    Empty,
    /// The value that was set, not yet taken.
    Filled(T),
    /// The value was set and taken.
    Taken,
}

/// The state of a value as its contracts see it.
pub ghost struct Rendezvous<T> {
    /// What the value holds.
    pub state: ValueState<T>,
    /// The task that awaits the value, if one does.
    pub waiter: Option<u64>,
}

impl<T> Rendezvous<T> {
    /// Nothing set, nobody waiting.
    pub open spec fn empty() -> Rendezvous<T> {
        Rendezvous { state: ValueState::Empty, waiter: None }
    }

    /// `v` can be set: nothing was set before.
    pub open spec fn can_set(self) -> bool {
        self.state is Empty
    }

    /// `v` was set, if nothing was set before; the waiter is gone, since it
    /// is woken.
    pub open spec fn set(self, v: T) -> Rendezvous<T> {
        if self.can_set() {
            Rendezvous { state: ValueState::Filled(v), waiter: None }
        } else {
            self
        }
    }

    /// The task that a `set` has to wake.
    pub open spec fn woken_by_set(self) -> Option<u64> {
        if self.can_set() {
            self.waiter
        } else {
            None
        }
    }

    /// What an await yields now: the value, if it is there.
    pub open spec fn yields(self) -> Option<T> {
        match self.state {
            ValueState::Filled(v) => Some(v),
            _ => None,
        }
    }

    /// The task `task` has awaited the value: it has taken it if it was
    /// there, and waits for it if nothing was set yet.
    pub open spec fn poll(self, task: u64) -> Rendezvous<T> {
        match self.state {
            ValueState::Filled(_) => Rendezvous { state: ValueState::Taken, waiter: None },
            ValueState::Empty => Rendezvous { state: ValueState::Empty, waiter: Some(task) },
            ValueState::Taken => self,
        }
    }
}

/// A value that is set before it is awaited is there at the first await, and
/// setting it wakes nobody.
pub proof fn lemma_set_then_await<T>(v: T, task: u64)
    ensures
        Rendezvous::<T>::empty().woken_by_set() == None::<u64>,
        Rendezvous::<T>::empty().set(v).yields() == Some(v),
        Rendezvous::<T>::empty().set(v).poll(task).state is Taken,
{
}

/// A value that is awaited before it is set yields nothing at first; setting
/// it wakes the task that waits, and the next await of that task yields
/// exactly what was set.
pub proof fn lemma_await_then_set<T>(v: T, task: u64)
    ensures
        Rendezvous::<T>::empty().yields() == None::<T>,
        Rendezvous::<T>::empty().poll(task).waiter == Some(task),
        Rendezvous::<T>::empty().poll(task).woken_by_set() == Some(task),
        Rendezvous::<T>::empty().poll(task).set(v).yields() == Some(v),
        Rendezvous::<T>::empty().poll(task).set(v).poll(task).state is Taken,
{
}

/// Whatever was set first stays: a second `set` changes nothing, wakes
/// nobody, and what an await yields is what the first one delivered.
pub proof fn lemma_set_once<T>(r: Rendezvous<T>, v: T, w: T)
    ensures
        r.set(v).set(w) == r.set(v),
        !r.set(v).can_set(),
        r.can_set() ==> r.set(v).set(w).yields() == Some(v),
{
}

/// A one-shot value bound to the runtime `R` of the task that awaits it.
pub struct AsyncValue<R, T> {
    home: R,
    state: ValueState<T>,
    waiter: Option<TaskId>,
}

impl<R, T> View for AsyncValue<R, T> {
    type V = Rendezvous<T>;

    closed spec fn view(&self) -> Rendezvous<T> {
        Rendezvous {
            state: self.state,
            waiter: match self.waiter {
                Some(id) => Some(id.0),
                None => None,
            },
        }
    }
}

impl<R, T> AsyncValue<R, T> {
    /// The runtime that the value is bound to.
    pub closed spec fn spec_home(&self) -> R {
        self.home
    }

    /// A value bound to `home`, with nothing set and nobody waiting.
    pub fn new(home: R) -> (value: Self)
        ensures
            value@ == Rendezvous::<T>::empty(),
            value.spec_home() == home,
    {
        AsyncValue { home, state: ValueState::Empty, waiter: None }
    }

    /// The runtime on which the task that awaits the value is woken.
    pub fn home(&self) -> (home: &R)
        ensures
            *home == self.spec_home(),
    {
        &self.home
    }

    /// Sets the value. `Ok` names the task to wake on the home runtime, if
    /// one waits. A value that was set before stays as it is, and the call
    /// fails with `ValueAlreadySet`.
    pub fn set(&mut self, v: T) -> (r: Result<Option<TaskId>, ErrorKind>)
        ensures
            final(self)@ == old(self)@.set(v),
            final(self).spec_home() == old(self).spec_home(),
            match r {
                Ok(Some(id)) => old(self)@.can_set() && old(self)@.woken_by_set() == Some(id.0),
                Ok(None) => old(self)@.can_set() && old(self)@.woken_by_set() == None::<u64>,
                Err(e) => !old(self)@.can_set() && e == ErrorKind::ValueAlreadySet,
            },
    {
        match self.state {
            ValueState::Empty => {
                self.state = ValueState::Filled(v);
                Ok(self.waiter.take())
            },
            _ => Err(ErrorKind::ValueAlreadySet),
        }
    }

    /// Sets the value if nothing was set before, and says nothing if it was:
    /// for a race in which only the first result counts. Names the task to
    /// wake on the home runtime, if the value was set and one waits.
    pub fn offer(&mut self, v: T) -> (wake: Option<TaskId>)
        ensures
            final(self)@ == old(self)@.set(v),
            final(self).spec_home() == old(self).spec_home(),
            match wake {
                Some(id) => old(self)@.woken_by_set() == Some(id.0),
                None => old(self)@.woken_by_set() == None::<u64>,
            },
    {
        match self.set(v) {
            Ok(wake) => wake,
            Err(_) => None,
        }
    }

    /// One await of the task `task`: takes the value if it is there;
    /// otherwise, if nothing was set yet, leaves `task` as the one to wake.
    pub fn poll(&mut self, task: TaskId) -> (r: Option<T>)
        ensures
            r == old(self)@.yields(),
            final(self)@ == old(self)@.poll(task.0),
            final(self).spec_home() == old(self).spec_home(),
    {
        match self.state {
            ValueState::Filled(_) => {
                let mut taken = ValueState::Taken;
                core::mem::swap(&mut self.state, &mut taken);
                self.waiter = None;
                match taken {
                    ValueState::Filled(v) => Some(v),
                    _ => None,
                }
            },
            ValueState::Empty => {
                self.waiter = Some(task);
                None
            },
            ValueState::Taken => None,
        }
    }

    /// Whether a value was set, taken or not.
    pub fn is_set(&self) -> (r: bool)
        ensures
            r == !self@.can_set(),
    {
        match self.state {
            ValueState::Empty => false,
            _ => true,
        }
    }

    /// The task that awaits the value, if one does.
    pub fn waiter(&self) -> (r: Option<TaskId>)
        ensures
            match r {
                Some(id) => self@.waiter == Some(id.0),
                None => self@.waiter == None::<u64>,
            },
    {
        self.waiter
    }
}

} // verus!
