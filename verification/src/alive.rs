//! Is the process that wrote this file still running?
//!
//! It can tell you a process is gone. It cannot tell you the one you meant is
//! there: process ids are reused, so a pid recorded an hour ago and
//! answering [`Liveness::Alive`] today may belong to something that started
//! afterwards. So the contract is one-directional:
//!
//! * [`Liveness::Gone`] is trustworthy: nothing runs under that pid.
//! * [`Liveness::Alive`] means only that some process holds it.
//! * [`Liveness::Unknown`] is the operating system declining to say, and is
//!   treated exactly like `Alive`.
//!
//! The question to the operating system is `kill(pid, 0)`, the documented
//! existence probe; the application makes that call and hands its outcome
//! here.

use vstd::prelude::*;

verus! {

/// What the operating system says about a process id.
#[derive(Debug, Clone, Copy, PartialEq, Eq, Structural)]
pub enum Liveness {
    /// Some process holds this pid, not necessarily the one you meant.
    Alive,
    /// Nothing holds this pid. Trustworthy, and the only answer that is.
    Gone,
    /// The operating system would not say.
    Unknown,
}

impl Liveness {
    /// Whether this answer rules the process out: `Unknown` is not gone.
    pub fn gone(self) -> (b: bool)
        ensures
            b == (self == Liveness::Gone),
    {
        self == Liveness::Gone
    }
}

/// `ESRCH`: no such process, the one error that means gone.
pub const ESRCH: i32 = 3;

/// `EPERM`: it exists, and it is not ours to signal, which is an answer.
pub const EPERM: i32 = 1;

/// What the outcome of `kill(pid, 0)` says: success or `EPERM` is a process,
/// `ESRCH` is none, and any other error is the system declining to say.
pub open spec fn probe_says(outcome: Result<(), Option<i32>>) -> Liveness {
    match outcome {
        Ok(()) => Liveness::Alive,
        Err(Some(e)) => if e == ESRCH {
            Liveness::Gone
        } else if e == EPERM {
            Liveness::Alive
        } else {
            Liveness::Unknown
        },
        Err(None) => Liveness::Unknown,
    }
}

/// Read a probe's outcome.
pub fn liveness_of(outcome: Result<(), Option<i32>>) -> (l: Liveness)
    ensures
        l == probe_says(outcome),
{
    match outcome {
        Ok(()) => Liveness::Alive,
        Err(Some(e)) => if e == ESRCH {
            Liveness::Gone
        } else if e == EPERM {
            Liveness::Alive
        } else {
            Liveness::Unknown
        },
        Err(None) => Liveness::Unknown,
    }
}

/// Ask whether `pid` is a live process, where `probe` sends signal 0 to a
/// positive pid and reports success or the error number.
///
/// Pid `0` is `Unknown` and is never probed: `kill(0, 0)` addresses the
/// caller's whole process group, a different question with a dangerous
/// shape. A pid above `i32::MAX` names no process and is `Gone` without
/// asking: cast, it would wrap into a negative, which `kill` reads as a
/// group.
pub fn alive<F: FnOnce(i32) -> Result<(), Option<i32>>>(pid: u32, probe: F) -> (l: Liveness)
    requires
        0 < pid <= i32::MAX ==> call_requires(probe, (pid as i32,)),
    ensures
        pid == 0 ==> l == Liveness::Unknown,
        pid > i32::MAX ==> l == Liveness::Gone,
        0 < pid <= i32::MAX ==> exists|o: Result<(), Option<i32>>|
            call_ensures(probe, (pid as i32,), o) && l == probe_says(o),
{
    if pid == 0 {
        return Liveness::Unknown;
    }
    if pid > 2147483647 {
        return Liveness::Gone;
    }
    let outcome = probe(pid as i32);
    liveness_of(outcome)
}

} // verus!
