//! What can go wrong at the surface of a runtime.

use vstd::prelude::*;

verus! {

/// The kinds of failure that a runtime reports.
#[derive(Debug, Clone, PartialEq, Eq)]
pub enum ErrorKind {
    /// A task was spawned on a runtime that has been torn down.
    SpawnClosed,
    /// A task was spawned on a local queue that has been torn down.
    QueueClosed,
    /// An identifier names no task of the runtime.
    TaskMissing,
    /// A value was set that had been set before.
    ValueAlreadySet,
    /// The runtime has shut down after a fault of its own.
    RuntimeShutdown,
    /// A future that was waited for has failed; the text says how.
    WaitFailed(String),
}

} // verus!
