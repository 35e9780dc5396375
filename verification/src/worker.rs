//! A worker of a thread pool: its status word, its task counter, and the
//! decisions of its loop. The status and the counter are shared between
//! threads, so what a call reads may be stale as soon as it returns; the
//! contracts here state what holds whatever the other threads do.

use std::sync::atomic::{AtomicUsize, Ordering};
use vstd::prelude::*;

verus! {

/// What a worker is doing.
#[derive(Clone, Copy, Debug, PartialEq, Eq, Structural)]
pub enum WorkerStatus {
    /// The worker has left its loop, or is about to.
    Stop,
    /// The worker waits to be told to run.
    Wait,
    /// The worker takes tasks.
    Running,
}

impl WorkerStatus {
    /// The number that stands for the status in the status word.
    pub open spec fn spec_code(&self) -> usize {
        match self {
            WorkerStatus::Stop => 0,
            WorkerStatus::Wait => 1,
            WorkerStatus::Running => 2,
        }
    }

    /// The number that stands for the status in the status word.
    #[verifier::when_used_as_spec(spec_code)]
    pub fn code(&self) -> (c: usize)
        ensures
            c == self.spec_code(),
    {
        match self {
            WorkerStatus::Stop => 0,
            WorkerStatus::Wait => 1,
            WorkerStatus::Running => 2,
        }
    }

    /// The status that `code` stands for, if any.
    pub fn from_code(code: usize) -> (r: Option<WorkerStatus>)
        ensures
            match r {
                Some(status) => status.spec_code() == code,
                None => code > 2,
            },
    {
        if code == 0 {
            Some(WorkerStatus::Stop)
        } else if code == 1 {
            Some(WorkerStatus::Wait)
        } else if code == 2 {
            Some(WorkerStatus::Running)
        } else {
            None
        }
    }
}

/// What the loop of a worker does next.
#[derive(Clone, Copy, Debug, PartialEq, Eq, Structural)]
pub enum LoopStep {
    /// Leave the loop.
    Exit,
    /// Sleep for a while, then look at the status again.
    Park,
    /// Wait for a task and run it.
    Work,
    /// Look at the status again at once.
    Retry,
}

/// What the loop of a worker does when it reads `status`.
pub open spec fn spec_next_step(status: usize) -> LoopStep {
    if status == 0 {
        LoopStep::Exit
    } else if status == 1 {
        LoopStep::Park
    } else if status == 2 {
        LoopStep::Work
    } else {
        LoopStep::Retry
    }
}

/// What the loop of a worker does when it reads `status`.
#[verifier::when_used_as_spec(spec_next_step)]
pub fn next_step(status: usize) -> (step: LoopStep)
    ensures
        step == spec_next_step(status),
{
    if status == 0 {
        LoopStep::Exit
    } else if status == 1 {
        LoopStep::Park
    } else if status == 2 {
        LoopStep::Work
    } else {
        LoopStep::Retry
    }
}

/// What a worker does about the signal that tasks are there.
#[derive(Clone, Copy, Debug, PartialEq, Eq, Structural)]
pub enum WaitStep {
    /// The signal is up: take a task.
    Fetch,
    /// The last wait ran out of time: go back to the loop.
    GiveUp,
    /// No signal yet: wait, or wait on.
    WaitOn,
}

/// What a worker does when the signal is `woken` and its last wait has, or
/// has not, `timed_out` (it has not if there was no wait yet). A wait that
/// ran out of time ends the attempt, whatever the signal says by then.
pub fn after_wait(woken: bool, timed_out: bool) -> (step: WaitStep)
    ensures
        step == if timed_out {
            WaitStep::GiveUp
        } else if woken {
            WaitStep::Fetch
        } else {
            WaitStep::WaitOn
        },
{
    if timed_out {
        WaitStep::GiveUp
    } else if woken {
        WaitStep::Fetch
    } else {
        WaitStep::WaitOn
    }
}

/// The microseconds in `secs` seconds and `nanos` nanoseconds, the latter
/// rounded down.
pub open spec fn spec_elapsed_micros(secs: u64, nanos: u32) -> int {
    secs * 1_000_000 + nanos / 1000
}

/// The microseconds in `secs` seconds and `nanos` nanoseconds, the latter
/// rounded down.
pub fn elapsed_micros(secs: u64, nanos: u32) -> (micros: u64)
    requires
        spec_elapsed_micros(secs, nanos) <= u64::MAX,
    ensures
        micros == spec_elapsed_micros(secs, nanos),
{
    secs * 1_000_000 + (nanos / 1000) as u64
}

/// Where an attempt to stop a worker stands.
#[derive(Clone, Copy, Debug, PartialEq, Eq, Structural)]
pub enum StopStage {
    /// Next, try to set the status to `Stop` if it is the one given.
    Try(WorkerStatus),
    /// The attempt is over; the status is `Stop` if the flag holds.
    Done(bool),
}

impl StopStage {
    /// How many exchanges may still follow.
    pub open spec fn rank(self) -> nat {
        match self {
            StopStage::Try(WorkerStatus::Running) => 2,
            StopStage::Try(_) => 1,
            StopStage::Done(_) => 0,
        }
    }
}

/// How stopping begins when the status word reads `read`: there is nothing
/// to do if the worker has stopped; otherwise a running worker is tried
/// first.
pub fn stop_begin(read: usize) -> (stage: StopStage)
    ensures
        stage == if read == 0 {
            StopStage::Done(true)
        } else {
            StopStage::Try(WorkerStatus::Running)
        },
{
    if read == 0 {
        StopStage::Done(true)
    } else {
        StopStage::Try(WorkerStatus::Running)
    }
}

/// How stopping goes on after the exchange from `from` has come to
/// `outcome`: the worker has stopped if the exchange took place; if not, and
/// a running worker was tried, a waiting one is tried next; else stopping
/// has failed.
pub fn stop_after(from: WorkerStatus, outcome: Result<usize, usize>) -> (stage: StopStage)
    ensures
        stage == match (outcome, from) {
            (Ok(_), _) => StopStage::Done(true),
            (Err(_), WorkerStatus::Running) => StopStage::Try(WorkerStatus::Wait),
            (Err(_), _) => StopStage::Done(false),
        },
        stage.rank() < StopStage::Try(from).rank(),
{
    match outcome {
        Ok(_) => StopStage::Done(true),
        Err(_) => match from {
            WorkerStatus::Running => StopStage::Try(WorkerStatus::Wait),
            _ => StopStage::Done(false),
        },
    }
}

/// Whether an exchange that has come to `outcome` took place.
pub fn exchanged(outcome: Result<usize, usize>) -> (done: bool)
    ensures
        done == outcome is Ok,
{
    match outcome {
        Ok(_) => true,
        Err(_) => false,
    }
}

/// `AtomicUsize::compare_exchange`, acquiring on success: writes `new` if the
/// word holds `current`. `Ok` carries what the word held, which then is
/// `current`; `Err` carries what it held instead, which then is something
/// else.
#[verifier::external_body]
fn exchange(word: &AtomicUsize, current: usize, new: usize) -> (r: Result<usize, usize>)
    ensures
        match r {
            Ok(held) => held == current,
            Err(held) => held != current,
        },
{
    word.compare_exchange(current, new, Ordering::Acquire, Ordering::Relaxed)
}

/// A worker of a thread pool.
#[derive(Debug)]
pub struct Worker {
    uid: u32,
    slow: u64,
    status: AtomicUsize,
    counter: AtomicUsize,
}

impl Worker {
    /// The number of the worker.
    pub closed spec fn spec_uid(&self) -> u32 {
        self.uid
    }

    /// The microseconds from which on a task counts as slow.
    pub closed spec fn spec_slow_micros(&self) -> u64 {
        self.slow
    }

    /// The number of the worker.
    #[verifier::when_used_as_spec(spec_uid)]
    pub fn uid(&self) -> (uid: u32)
        ensures
            uid == self.spec_uid(),
    {
        self.uid
    }

    /// The microseconds from which on a task counts as slow.
    #[verifier::when_used_as_spec(spec_slow_micros)]
    pub fn slow_micros(&self) -> (slow: u64)
        ensures
            slow == self.spec_slow_micros(),
    {
        self.slow
    }

    /// Creates a worker that waits, with no task counted.
    pub fn new(uid: u32, slow: u32) -> (worker: Worker)
        ensures
            worker.uid() == uid,
            worker.slow_micros() == slow,
    {
        Worker {
            uid,
            slow: slow as u64,
            status: AtomicUsize::new(WorkerStatus::Wait.code()),
            counter: AtomicUsize::new(0),
        }
    }

    /// The status word as it was at some moment of the call.
    #[inline]
    pub fn get_status(&self) -> usize {
        self.status.load(Ordering::Relaxed)
    }

    /// Sets the status to `new` if it is `current`; tells whether it did.
    pub fn set_status(&self, current: WorkerStatus, new: WorkerStatus) -> bool {
        exchanged(exchange(&self.status, current.code(), new.code()))
    }

    /// The number of tasks that the worker has run.
    pub fn count(&self) -> usize {
        self.counter.load(Ordering::Relaxed)
    }

    /// Counts one more task.
    pub fn record_task(&self) {
        let _ = self.counter.fetch_add(1, Ordering::Acquire);
    }

    /// Stops the worker: tells whether the status was `Stop` when the call
    /// read it, or was set to `Stop` by the call.
    pub fn stop(&self) -> bool {
        let mut stage = stop_begin(self.get_status());
        loop
            decreases stage.rank(),
        {
            match stage {
                StopStage::Done(stopped) => {
                    return stopped;
                },
                StopStage::Try(from) => {
                    let outcome = exchange(&self.status, from.code(), WorkerStatus::Stop.code());
                    stage = stop_after(from, outcome);
                },
            }
        }
    }

    /// Whether a task that took `secs` seconds and `nanos` nanoseconds counts
    /// as slow.
    pub fn is_slow(&self, secs: u64, nanos: u32) -> (slow: bool)
        ensures
            slow == (secs * 1_000_000_000 + nanos >= self.slow_micros() * 1000),
    {
        (secs as u128) * 1_000_000_000 + (nanos as u128) >= (self.slow as u128) * 1000
    }
}

} // verus!
