//! The ways in which a dispatch can fail.

use vstd::prelude::*;

verus! {

/// Why a command could not be dispatched. That a command ran and exited
/// with a status other than zero is no error: it is a `CommandResult`.
#[derive(Clone, Copy, Debug, PartialEq, Eq)]
pub enum Error {
    /// No backend serves the host. Holds the name of the primitive.
    ProviderUnavailable(&'static str),
    /// The round trip to the agent did not complete, or its reply could not
    /// be read. Holds the name of the primitive and of the operation.
    RemoteProviderError(&'static str, &'static str),
    /// The child process could not be started at all.
    SpawnFailure,
    /// The shell token sequence is empty, so there is no program to run.
    InvalidShellConfiguration,
}

} // verus!
