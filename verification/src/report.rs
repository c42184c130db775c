//! The outcome of one trial: its wall-clock time and its exit status.

use vstd::prelude::*;

verus! {

/// How a spawned process ended: whether it succeeded (exit code zero) and
/// the raw exit code, absent when the process was ended by a signal.
#[derive(Clone, Copy, Debug, PartialEq, Eq)]
pub struct ExitStatus {
    pub success: bool,
    pub code: Option<i32>,
}

impl View for ExitStatus {
    type V = ExitStatus;

    open spec fn view(&self) -> ExitStatus {
        *self
    }
}

/// Data one benchmark trial produces.
#[derive(Debug)]
pub struct Report {
    /// the case the trial belongs to
    pub name: String,
    /// measured wall-clock time, in nanoseconds
    pub duration: u64,
    /// the exit status of the spawned process
    pub ecode: ExitStatus,
}

impl Report {
    /// Package one trial's measurements.
    pub fn new(name: String, duration: u64, ecode: ExitStatus) -> (r: Report)
        ensures
            r.name == name,
            r.duration == duration,
            r.ecode == ecode,
    {
        Report { name, duration, ecode }
    }
}

} // verus!
