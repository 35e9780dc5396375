//! The bookkeeping of a runtime: which task is ready, running, parked or
//! gone, and in which order the ready ones are polled.
//!
//! A runtime polls futures and moves wakers between threads; none of that is
//! here. Here is what it decides on: every event is a method of
//! [`Scheduler`], and what it does is a function of the model [`Sched`].

use crate::error::ErrorKind;
use crate::task_id::{IdAllocator, TaskId};
use std::collections::{HashMap, VecDeque};
use vstd::prelude::*;

verus! {

broadcast use vstd::std_specs::hash::group_hash_axioms;

/// Where a task that has been spawned and has not finished is.
#[derive(Clone, Copy, Debug, PartialEq, Eq, Structural)]
pub enum TaskState {
    /// In the ready queue, waiting to be polled.
    Ready,
    /// Suspended until it is woken.
    Parked,
    /// Taken from the ready queue and being polled.
    Running,
}

/// Whether a runtime takes tasks.
#[derive(Clone, Copy, Debug, PartialEq, Eq, Structural)]
pub enum Phase {
    /// Tasks can be spawned.
    Open,
    /// The runtime was torn down.
    Closed,
    /// The runtime gave up after a fault of its own.
    Shutdown,
}

/// The state of a runtime as its contracts see it.
pub ghost struct Sched {
    /// The identifiers that were handed out and are still in use.
    pub allocated: Set<u64>,
    /// The smallest number that was never handed out as an identifier.
    pub next_fresh: u64,
    /// The identifiers that were given back and not handed out again, oldest
    /// first.
    pub released: Seq<u64>,
    /// The tasks that were spawned and have not finished.
    pub tasks: Map<u64, TaskState>,
    /// The ready queue, head first.
    pub queue: Seq<u64>,
    /// Whether tasks can be spawned.
    pub phase: Phase,
    /// Whether the runtime is a local queue, which is not shared between
    /// threads.
    pub local: bool,
    /// How many tasks were spawned so far.
    pub spawned: nat,
    /// How many tasks have finished so far.
    pub completed: nat,
}

impl Sched {
    /// The task `id` exists and is in `state`.
    pub open spec fn holds(self, id: u64, state: TaskState) -> bool {
        self.tasks.contains_key(id) && self.tasks[id] == state
    }

    /// The number of tasks that were spawned and have not finished.
    pub open spec fn alive(self) -> nat {
        self.tasks.dom().len()
    }

    /// Every task has an identifier in use; the ready queue holds exactly the
    /// ready tasks, each once; and every task that was spawned has finished
    /// or is alive.
    pub open spec fn wf(self) -> bool {
        &&& self.tasks.dom().finite()
        &&& self.tasks.dom().subset_of(self.allocated)
        &&& self.queue.no_duplicates()
        &&& forall|id: u64| #[trigger] self.queue.contains(id) <==> self.holds(id, TaskState::Ready)
        &&& self.spawned == self.completed + self.alive()
    }

    /// A runtime in which nothing has happened yet.
    pub open spec fn fresh(local: bool) -> Sched {
        Sched {
            allocated: Set::empty(),
            next_fresh: 0,
            released: Seq::empty(),
            tasks: Map::empty(),
            queue: Seq::empty(),
            phase: Phase::Open,
            local,
            spawned: 0,
            completed: 0,
        }
    }

    /// What spawning under `id` answers.
    pub open spec fn spawn_answer(self, id: u64) -> Result<(), ErrorKind> {
        if self.phase == Phase::Shutdown {
            Err(ErrorKind::RuntimeShutdown)
        } else if self.phase == Phase::Closed {
            if self.local {
                Err(ErrorKind::QueueClosed)
            } else {
                Err(ErrorKind::SpawnClosed)
            }
        } else if !self.can_spawn(id) {
            Err(ErrorKind::TaskMissing)
        } else {
            Ok(())
        }
    }

    /// The running task `id` was polled: it has finished if its future has
    /// `resolved`, and is parked if it has not.
    pub open spec fn after_poll(self, id: u64, resolved: bool) -> Sched {
        if resolved {
            self.finish(id)
        } else {
            self.pending(id)
        }
    }

    /// The identifier that is handed out next: the one given back last, or
    /// the next unused number if none is waiting; none when neither is left.
    pub open spec fn next_id(self) -> Option<u64> {
        if self.released.len() > 0 {
            Some(self.released.last())
        } else if self.next_fresh < u64::MAX {
            Some(self.next_fresh)
        } else {
            None
        }
    }

    /// The identifier of [`Sched::next_id`] was handed out.
    pub open spec fn allocate(self) -> Sched {
        match self.next_id() {
            None => self,
            Some(id) => if self.released.len() > 0 {
                Sched {
                    allocated: self.allocated.insert(id),
                    released: self.released.drop_last(),
                    ..self
                }
            } else {
                Sched {
                    allocated: self.allocated.insert(id),
                    next_fresh: (self.next_fresh + 1) as u64,
                    ..self
                }
            },
        }
    }

    /// A task can be spawned under `id`.
    pub open spec fn can_spawn(self, id: u64) -> bool {
        self.phase == Phase::Open && self.allocated.contains(id) && !self.tasks.contains_key(id)
    }

    /// A task was spawned under `id`: it is ready, at the back of the queue.
    pub open spec fn spawn(self, id: u64) -> Sched {
        if self.can_spawn(id) {
            Sched {
                tasks: self.tasks.insert(id, TaskState::Ready),
                queue: self.queue.push(id),
                spawned: self.spawned + 1,
                ..self
            }
        } else {
            self
        }
    }

    /// The head of the ready queue was taken to be polled.
    pub open spec fn take_next(self) -> Sched {
        if self.queue.len() > 0 {
            Sched {
                tasks: self.tasks.insert(self.queue[0], TaskState::Running),
                queue: self.queue.drop_first(),
                ..self
            }
        } else {
            self
        }
    }

    /// The running task `id` has left a waker behind and is parked.
    pub open spec fn pending(self, id: u64) -> Sched {
        if self.holds(id, TaskState::Running) {
            Sched { tasks: self.tasks.insert(id, TaskState::Parked), ..self }
        } else {
            self
        }
    }

    /// The running task `id` has given way without parking: it is ready
    /// again, at the back of the queue.
    pub open spec fn yield_now(self, id: u64) -> Sched {
        if self.holds(id, TaskState::Running) {
            Sched {
                tasks: self.tasks.insert(id, TaskState::Ready),
                queue: self.queue.push(id),
                ..self
            }
        } else {
            self
        }
    }

    /// The task `id` was woken: if it was parked it is ready again, at the
    /// back of the queue; otherwise nothing changes.
    pub open spec fn wakeup(self, id: u64) -> Sched {
        if self.holds(id, TaskState::Parked) {
            Sched {
                tasks: self.tasks.insert(id, TaskState::Ready),
                queue: self.queue.push(id),
                ..self
            }
        } else {
            self
        }
    }

    /// The running task `id` has finished: it is gone, and its identifier is
    /// free again, the first to be handed out anew.
    pub open spec fn finish(self, id: u64) -> Sched {
        if self.holds(id, TaskState::Running) {
            Sched {
                allocated: self.allocated.remove(id),
                released: self.released.push(id),
                tasks: self.tasks.remove(id),
                completed: self.completed + 1,
                ..self
            }
        } else {
            self
        }
    }

    /// The runtime was torn down. A runtime that has shut down stays so.
    pub open spec fn close(self) -> Sched {
        if self.phase == Phase::Open {
            Sched { phase: Phase::Closed, ..self }
        } else {
            self
        }
    }

    /// The runtime gave up after a fault of its own.
    pub open spec fn shutdown(self) -> Sched {
        Sched { phase: Phase::Shutdown, ..self }
    }
}

/// A queue that held `id` nowhere holds it once after it was put at the back.
pub proof fn lemma_push_absent(queue: Seq<u64>, id: u64)
    requires
        queue.no_duplicates(),
        !queue.contains(id),
    ensures
        queue.push(id).no_duplicates(),
        forall|other: u64| #[trigger]
            queue.push(id).contains(other) <==> (queue.contains(other) || other == id),
{
    let longer = queue.push(id);
    assert forall|other: u64| #[trigger]
        longer.contains(other) <==> (queue.contains(other) || other == id) by {
        if longer.contains(other) {
            let k = choose|k: int| 0 <= k < longer.len() && longer[k] == other;
            if k < queue.len() {
                assert(queue[k] == other);
            }
        }
        if queue.contains(other) {
            let k = choose|k: int| 0 <= k < queue.len() && queue[k] == other;
            assert(longer[k] == other);
        }
        if other == id {
            assert(longer[queue.len() as int] == other);
        }
    }
    assert forall|i: int, j: int| 0 <= i < longer.len() && 0 <= j < longer.len() && i != j implies longer[i]
        != longer[j] by {
        if i < queue.len() && j < queue.len() {
        } else if i < queue.len() {
            assert(queue[i] == longer[i]);
        } else {
            assert(queue[j] == longer[j]);
        }
    }
}

/// A queue without its head holds every identifier but the head, once.
pub proof fn lemma_drop_head(queue: Seq<u64>)
    requires
        queue.no_duplicates(),
        queue.len() > 0,
    ensures
        queue.drop_first().no_duplicates(),
        forall|other: u64| #[trigger]
            queue.drop_first().contains(other) <==> (queue.contains(other) && other != queue[0]),
{
    let rest = queue.drop_first();
    assert forall|other: u64| #[trigger]
        rest.contains(other) <==> (queue.contains(other) && other != queue[0]) by {
        if rest.contains(other) {
            let k = choose|k: int| 0 <= k < rest.len() && rest[k] == other;
            assert(queue[k + 1] == other);
        }
        if queue.contains(other) && other != queue[0] {
            let k = choose|k: int| 0 <= k < queue.len() && queue[k] == other;
            assert(rest[k - 1] == other);
        }
    }
    assert forall|i: int, j: int| 0 <= i < rest.len() && 0 <= j < rest.len() && i != j implies rest[i]
        != rest[j] by {
        assert(rest[i] == queue[i + 1] && rest[j] == queue[j + 1]);
    }
}

/// Whatever happens to a runtime, every task stays in exactly one place, and
/// the number of tasks spawned is the number finished plus the number alive.
pub proof fn lemma_steps_keep_wf(s: Sched, id: u64)
    requires
        s.wf(),
    ensures
        s.allocate().wf(),
        s.spawn(id).wf(),
        s.take_next().wf(),
        s.pending(id).wf(),
        s.yield_now(id).wf(),
        s.wakeup(id).wf(),
        s.finish(id).wf(),
        s.close().wf(),
        s.shutdown().wf(),
{
    if s.can_spawn(id) {
        lemma_push_absent(s.queue, id);
        let t = s.spawn(id);
        assert(t.tasks.dom() =~= s.tasks.dom().insert(id));
        assert forall|other: u64| #[trigger] t.queue.contains(other) <==> t.holds(
            other,
            TaskState::Ready,
        ) by {
            assert(s.queue.contains(other) <==> s.holds(other, TaskState::Ready));
        }
    }
    if s.queue.len() > 0 {
        lemma_drop_head(s.queue);
        let head = s.queue[0];
        assert(s.queue.contains(head));
        let t = s.take_next();
        assert(t.tasks.dom() =~= s.tasks.dom());
        assert forall|other: u64| #[trigger] t.queue.contains(other) <==> t.holds(
            other,
            TaskState::Ready,
        ) by {
            assert(s.queue.contains(other) <==> s.holds(other, TaskState::Ready));
        }
    }
    if s.holds(id, TaskState::Running) {
        assert(!s.queue.contains(id));
        lemma_push_absent(s.queue, id);
        let p = s.pending(id);
        assert(p.tasks.dom() =~= s.tasks.dom());
        assert forall|other: u64| #[trigger] p.queue.contains(other) <==> p.holds(
            other,
            TaskState::Ready,
        ) by {
            assert(s.queue.contains(other) <==> s.holds(other, TaskState::Ready));
        }
        let y = s.yield_now(id);
        assert(y.tasks.dom() =~= s.tasks.dom());
        assert forall|other: u64| #[trigger] y.queue.contains(other) <==> y.holds(
            other,
            TaskState::Ready,
        ) by {
            assert(s.queue.contains(other) <==> s.holds(other, TaskState::Ready));
        }
        let f = s.finish(id);
        assert(f.tasks.dom() =~= s.tasks.dom().remove(id));
        assert forall|other: u64| #[trigger] f.queue.contains(other) <==> f.holds(
            other,
            TaskState::Ready,
        ) by {
            assert(s.queue.contains(other) <==> s.holds(other, TaskState::Ready));
        }
    }
    if s.holds(id, TaskState::Parked) {
        assert(!s.queue.contains(id));
        lemma_push_absent(s.queue, id);
        let w = s.wakeup(id);
        assert(w.tasks.dom() =~= s.tasks.dom());
        assert forall|other: u64| #[trigger] w.queue.contains(other) <==> w.holds(
            other,
            TaskState::Ready,
        ) by {
            assert(s.queue.contains(other) <==> s.holds(other, TaskState::Ready));
        }
    }
}

/// A parked task that is woken is put into the ready queue once, however
/// often it is woken: the first wake puts it at the back, and every further
/// one changes nothing until the task has been polled and has parked again.
pub proof fn lemma_wake_once(s: Sched, id: u64)
    requires
        s.wf(),
        s.holds(id, TaskState::Parked),
    ensures
        !s.queue.contains(id),
        s.wakeup(id).queue == s.queue.push(id),
        s.wakeup(id).queue.no_duplicates(),
        s.wakeup(id).holds(id, TaskState::Ready),
        s.wakeup(id).wakeup(id) == s.wakeup(id),
{
    lemma_steps_keep_wf(s, id);
}

/// A task that parks holds nobody up: the ready queue is as it was, and so is
/// every other task, so whoever drives the runtime goes on with the next
/// ready task while the parked one waits to be woken.
pub proof fn lemma_park_holds_nobody_up(s: Sched, id: u64)
    requires
        s.wf(),
        s.holds(id, TaskState::Running),
    ensures
        s.pending(id).holds(id, TaskState::Parked),
        s.pending(id).queue == s.queue,
        forall|other: u64|
            other != id ==> (#[trigger] s.pending(id).tasks.contains_key(other)
                <==> s.tasks.contains_key(other)),
        forall|other: u64|
            other != id && s.tasks.contains_key(other) ==> #[trigger] s.pending(id).tasks[other]
                == s.tasks[other],
        s.pending(id).take_next().queue == s.take_next().queue,
{
}

/// Waking a task that is ready, running or gone changes nothing.
pub proof fn lemma_wake_elsewhere(s: Sched, id: u64)
    requires
        !s.holds(id, TaskState::Parked),
    ensures
        s.wakeup(id) == s,
{
}

/// The bookkeeping of one runtime.
pub struct Scheduler {
    ids: IdAllocator,
    tasks: HashMap<u64, TaskState>,
    ready: VecDeque<u64>,
    phase: Phase,
    local: bool,
    spawned: Ghost<nat>,
    completed: Ghost<nat>,
}

impl View for Scheduler {
    type V = Sched;

    closed spec fn view(&self) -> Sched {
        Sched {
            allocated: self.ids.live(),
            next_fresh: self.ids.next_fresh(),
            released: self.ids.released(),
            tasks: self.tasks@,
            queue: self.ready@,
            phase: self.phase,
            local: self.local,
            spawned: self.spawned@,
            completed: self.completed@,
        }
    }
}

impl Scheduler {
    /// The books are in order: see [`Sched::wf`].
    pub closed spec fn wf(&self) -> bool {
        self.ids.wf() && self@.wf()
    }

    /// Books that are in order show a state that is.
    pub proof fn lemma_wf(&self)
        requires
            self.wf(),
        ensures
            self@.wf(),
    {
    }

    /// The bookkeeping of a runtime that is shared between threads, in which
    /// nothing has happened yet.
    pub fn new() -> (s: Scheduler)
        ensures
            s@ == Sched::fresh(false),
            s.wf(),
    {
        Scheduler::fresh(false)
    }

    /// The bookkeeping of a local queue, in which nothing has happened yet.
    pub fn local() -> (s: Scheduler)
        ensures
            s@ == Sched::fresh(true),
            s.wf(),
    {
        Scheduler::fresh(true)
    }

    fn fresh(local: bool) -> (s: Scheduler)
        ensures
            s@ == Sched::fresh(local),
            s.wf(),
    {
        let s = Scheduler {
            ids: IdAllocator::new(),
            tasks: HashMap::new(),
            ready: VecDeque::new(),
            phase: Phase::Open,
            local,
            spawned: Ghost(0),
            completed: Ghost(0),
        };
        assert(s@.tasks.dom() =~= Set::<u64>::empty());
        s
    }

    /// Hands out an identifier that is not in use: the one that a finished
    /// task has given back last, or the next unused number if none is
    /// waiting. `None` only when every number below `u64::MAX` is in use.
    pub fn allocate(&mut self) -> (r: Option<TaskId>)
        requires
            old(self).wf(),
        ensures
            final(self).wf(),
            final(self)@ == old(self)@.allocate(),
            match r {
                Some(id) => old(self)@.next_id() == Some(id.0) && !old(self)@.allocated.contains(
                    id.0,
                ),
                None => old(self)@.next_id() == None::<u64> && forall|i: u64|
                    i < u64::MAX ==> old(self)@.allocated.contains(i),
            },
    {
        proof {
            lemma_steps_keep_wf(self@, 0);
        }
        self.ids.allocate()
    }

    /// Spawns a task under `id`, which must have been handed out and not be
    /// in use by a task: the task is ready, at the back of the queue. On a
    /// runtime that was torn down the call fails with `SpawnClosed`, on a
    /// local queue with `QueueClosed`; after a shutdown with
    /// `RuntimeShutdown`; and under any other identifier with `TaskMissing`.
    pub fn spawn(&mut self, id: TaskId) -> (r: Result<(), ErrorKind>)
        requires
            old(self).wf(),
        ensures
            final(self).wf(),
            final(self)@ == old(self)@.spawn(id.0),
            r == old(self)@.spawn_answer(id.0),
    {
        proof {
            lemma_steps_keep_wf(self@, id.0);
        }
        match self.phase {
            Phase::Closed => {
                if self.local {
                    return Err(ErrorKind::QueueClosed);
                }
                return Err(ErrorKind::SpawnClosed);
            },
            Phase::Shutdown => {
                return Err(ErrorKind::RuntimeShutdown);
            },
            Phase::Open => {},
        }
        if !self.ids.is_live(id) || self.tasks.contains_key(&id.0) {
            return Err(ErrorKind::TaskMissing);
        }
        self.tasks.insert(id.0, TaskState::Ready);
        self.ready.push_back(id.0);
        proof {
            self.spawned = Ghost(self.spawned@ + 1);
        }
        Ok(())
    }

    /// Takes the head of the ready queue to be polled, or returns `None` if
    /// no task is ready.
    pub fn next_ready(&mut self) -> (r: Option<TaskId>)
        requires
            old(self).wf(),
        ensures
            final(self).wf(),
            final(self)@ == old(self)@.take_next(),
            match r {
                Some(id) => old(self)@.queue.len() > 0 && id.0 == old(self)@.queue[0],
                None => old(self)@.queue.len() == 0,
            },
    {
        proof {
            lemma_steps_keep_wf(self@, 0);
        }
        match self.ready.pop_front() {
            Some(id) => {
                self.tasks.insert(id, TaskState::Running);
                assert(self.ready@ =~= old(self).ready@.drop_first());
                Some(TaskId(id))
            },
            None => None,
        }
    }

    /// Whether the task `id` is in `state`.
    fn in_state(&self, id: TaskId, state: TaskState) -> (r: bool)
        ensures
            r == self@.holds(id.0, state),
    {
        match self.tasks.get(&id.0) {
            Some(found) => *found == state,
            None => false,
        }
    }

    /// Parks the running task `id`; tells whether it was running.
    pub fn pending(&mut self, id: TaskId) -> (parked: bool)
        requires
            old(self).wf(),
        ensures
            parked == old(self)@.holds(id.0, TaskState::Running),
            final(self).wf(),
            final(self)@ == old(self)@.pending(id.0),
    {
        proof {
            lemma_steps_keep_wf(self@, id.0);
        }
        if !self.in_state(id, TaskState::Running) {
            return false;
        }
        self.tasks.insert(id.0, TaskState::Parked);
        true
    }

    /// Puts the running task `id`, which has given way without parking, at
    /// the back of the ready queue; tells whether it was running.
    pub fn yield_now(&mut self, id: TaskId) -> (queued: bool)
        requires
            old(self).wf(),
        ensures
            queued == old(self)@.holds(id.0, TaskState::Running),
            final(self).wf(),
            final(self)@ == old(self)@.yield_now(id.0),
    {
        proof {
            lemma_steps_keep_wf(self@, id.0);
        }
        if !self.in_state(id, TaskState::Running) {
            return false;
        }
        self.tasks.insert(id.0, TaskState::Ready);
        self.ready.push_back(id.0);
        true
    }

    /// Wakes the task `id`: a parked task is put at the back of the ready
    /// queue; for any other identifier nothing happens. Tells whether the
    /// task was put into the queue.
    pub fn wakeup(&mut self, id: TaskId) -> (queued: bool)
        requires
            old(self).wf(),
        ensures
            queued == old(self)@.holds(id.0, TaskState::Parked),
            final(self).wf(),
            final(self)@ == old(self)@.wakeup(id.0),
    {
        proof {
            lemma_steps_keep_wf(self@, id.0);
        }
        if !self.in_state(id, TaskState::Parked) {
            return false;
        }
        self.tasks.insert(id.0, TaskState::Ready);
        self.ready.push_back(id.0);
        true
    }

    /// As [`Scheduler::wakeup`], but an identifier that names no task is an
    /// error.
    pub fn wakeup_strict(&mut self, id: TaskId) -> (r: Result<bool, ErrorKind>)
        requires
            old(self).wf(),
        ensures
            final(self).wf(),
            final(self)@ == old(self)@.wakeup(id.0),
            r == if old(self)@.tasks.contains_key(id.0) {
                Ok::<bool, ErrorKind>(old(self)@.holds(id.0, TaskState::Parked))
            } else {
                Err(ErrorKind::TaskMissing)
            },
    {
        if !self.tasks.contains_key(&id.0) {
            return Err(ErrorKind::TaskMissing);
        }
        Ok(self.wakeup(id))
    }

    /// Takes the running task `id`, whose future has resolved or failed, out
    /// of the books and frees its identifier; tells whether it was running.
    pub fn finish(&mut self, id: TaskId) -> (done: bool)
        requires
            old(self).wf(),
        ensures
            done == old(self)@.holds(id.0, TaskState::Running),
            final(self).wf(),
            final(self)@ == old(self)@.finish(id.0),
    {
        proof {
            lemma_steps_keep_wf(self@, id.0);
        }
        if !self.in_state(id, TaskState::Running) {
            return false;
        }
        self.tasks.remove(&id.0);
        let _ = self.ids.free(id);
        proof {
            self.completed = Ghost(self.completed@ + 1);
        }
        true
    }

    /// Books the poll of the running task `id`: the task has finished if its
    /// future has `resolved`, and is parked if it has not. Tells whether the
    /// task was running.
    pub fn after_poll(&mut self, id: TaskId, resolved: bool) -> (booked: bool)
        requires
            old(self).wf(),
        ensures
            final(self).wf(),
            booked == old(self)@.holds(id.0, TaskState::Running),
            final(self)@ == old(self)@.after_poll(id.0, resolved),
    {
        if resolved {
            self.finish(id)
        } else {
            self.pending(id)
        }
    }

    /// Tears the runtime down: from now on no task can be spawned.
    pub fn close(&mut self)
        requires
            old(self).wf(),
        ensures
            final(self).wf(),
            final(self)@ == old(self)@.close(),
    {
        match self.phase {
            Phase::Open => {
                self.phase = Phase::Closed;
            },
            _ => {},
        }
    }

    /// Gives up after a fault of the runtime: from now on spawning fails.
    pub fn shutdown(&mut self)
        requires
            old(self).wf(),
        ensures
            final(self).wf(),
            final(self)@ == old(self)@.shutdown(),
    {
        self.phase = Phase::Shutdown;
    }

    /// Where the task `id` is, or `None` if there is no such task.
    pub fn state(&self, id: TaskId) -> (r: Option<TaskState>)
        ensures
            match r {
                Some(state) => self@.holds(id.0, state),
                None => !self@.tasks.contains_key(id.0),
            },
    {
        match self.tasks.get(&id.0) {
            Some(found) => Some(*found),
            None => None,
        }
    }

    /// The number of tasks that were spawned and have not finished.
    pub fn alive(&self) -> (n: usize)
        ensures
            n == self@.alive(),
    {
        self.tasks.len()
    }

    /// The number of tasks that are ready to be polled.
    pub fn ready_len(&self) -> (n: usize)
        ensures
            n == self@.queue.len(),
    {
        self.ready.len()
    }

    /// Whether tasks can be spawned.
    pub fn phase(&self) -> (phase: Phase)
        ensures
            phase == self@.phase,
    {
        self.phase
    }
}

/// How a pool of workers is set up.
#[derive(Debug)]
pub struct PoolConfig {
    /// A name for diagnostics.
    pub name: String,
    /// The number of workers, at least one.
    pub workers: usize,
    /// The stack of each worker, in bytes.
    pub stack_size: usize,
    /// For how many milliseconds a worker without a task stays awake.
    pub idle_ms: u64,
}

impl PoolConfig {
    /// The setup of a pool of `workers` workers, or `None` if there is not at
    /// least one.
    pub fn new(name: String, workers: usize, stack_size: usize, idle_ms: u64) -> (r: Option<
        PoolConfig,
    >)
        ensures
            match r {
                Some(config) => {
                    &&& workers >= 1
                    &&& config.name == name
                    &&& config.workers == workers
                    &&& config.stack_size == stack_size
                    &&& config.idle_ms == idle_ms
                },
                None => workers == 0,
            },
    {
        if workers == 0 {
            None
        } else {
            Some(PoolConfig { name, workers, stack_size, idle_ms })
        }
    }
}

} // verus!
