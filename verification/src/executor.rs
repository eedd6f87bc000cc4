//! The executor contract: constructing a handle to the runtime backend.

use vstd::prelude::*;

verus! {

/// The runtime backend could not be initialized. Fatal at startup: the
/// application cannot proceed without a working executor.
#[derive(Clone, Copy, PartialEq, Eq, Debug, Structural)]
pub enum InitError {
    /// The backend could not acquire the resources it needs.
    Backend,
}

/// A handle to the asynchronous runtime backend.
///
/// The backend itself schedules spawned tasks and drives the blocking
/// top-level run; those operations live with the backend glue, outside
/// this library. The handle is constructed once, at application start,
/// and is passed explicitly wherever the capability is needed.
#[derive(Clone, Copy, PartialEq, Eq, Debug, Structural)]
pub struct Executor;

impl Executor {
    /// Acquires the backend. The backend needs no resources of its own
    /// beyond what the process already holds, so construction always
    /// succeeds.
    pub fn new() -> (r: Result<Executor, InitError>)
        ensures
            r == Ok::<Executor, InitError>(Executor),
    {
        Ok(Executor)
    }
}

} // verus!
