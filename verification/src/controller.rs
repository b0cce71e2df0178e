//! Ending a process: what is decided before the operating system is asked.

use vstd::prelude::*;
use crate::snapshot::{holds, Snapshot};

verus! {

/// What is to be done about a request to end a process.
#[derive(Clone, Copy, Debug, PartialEq, Eq, Structural)]
pub enum KillDecision {
    /// The process table holds no such process: nothing is to be done.
    NotFound,
    /// The process of this pid is to be asked, once, to terminate.
    Terminate(u32),
}

/// Decides on a request to end the process `pid`: it is to be terminated
/// exactly if the process table holds it. A process that has gone in the
/// meantime is no error.
pub fn kill_process(snapshot: &Snapshot, pid: u32) -> (decision: KillDecision)
    ensures
        decision == if holds(snapshot@.records, pid) {
            KillDecision::Terminate(pid)
        } else {
            KillDecision::NotFound
        },
{
    if snapshot.contains(pid) {
        KillDecision::Terminate(pid)
    } else {
        KillDecision::NotFound
    }
}

impl KillDecision {
    /// What the request reports once the decision has been carried out:
    /// success only where a termination was due and `signal_sent` says that
    /// the operating system took it.
    pub fn succeeded(self, signal_sent: bool) -> (success: bool)
        ensures
            success == (self is Terminate && signal_sent),
    {
        match self {
            KillDecision::NotFound => false,
            KillDecision::Terminate(_) => signal_sent,
        }
    }
}

} // verus!
