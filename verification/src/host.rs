//! What dispatch needs to know of the machine on which a command is to run.

use vstd::prelude::*;

verus! {

/// A target for commands: this machine, or one reached through an agent.
///
/// `posix` says whether the machine that runs the commands offers a POSIX
/// shell. For the local machine the caller knows it from its own platform;
/// for a remote one it is what the agent answered to the availability probe.
#[derive(Clone, Copy, Debug, PartialEq, Eq)]
pub struct Host {
    pub local: bool,
    pub posix: bool,
}

impl Host {
    /// This machine.
    pub fn local(posix: bool) -> (host: Host)
        ensures
            host == (Host { local: true, posix }),
    {
        Host { local: true, posix }
    }

    /// A machine behind an agent that has answered the availability probe
    /// with `posix`.
    pub fn remote(posix: bool) -> (host: Host)
        ensures
            host == (Host { local: false, posix }),
    {
        Host { local: false, posix }
    }

    /// Whether commands for this host run on the machine that dispatches
    /// them.
    pub fn is_local(&self) -> (local: bool)
        ensures
            local == self.local,
    {
        self.local
    }
}

} // verus!
