//! A deterministic single-CPU process scheduling engine.
//!
//! The engine keeps the bookkeeping of a set of simulated processes (a ready
//! queue, a waiting queue and the one running slot) and decides which process
//! occupies the CPU next, and for how long, under one of three policies:
//! round robin, priority round robin and a simplified completely fair
//! scheduler. Every operation is a total, deterministic state transition whose
//! effect is stated over the mathematical model in [`model`].

use vstd::prelude::*;

pub mod process;
pub mod model;
pub mod trace;
pub mod engine;
pub mod laws;

pub use crate::engine::Scheduler;
pub use crate::model::{State, Wake};
pub use crate::trace::{Request, Response};
pub use crate::process::{
    ConfigError, Pid, Policy, Process, ProcessState, SchedulingDecision, StopReason, Syscall,
    SyscallResult, WaitReason,
};

verus! {

/// Builds an engine with the round robin policy.
///
/// `timeslice` is the quantum a process may run before it is preempted; zero
/// is rejected. A process that makes a non-blocking system call keeps the CPU
/// when the quantum it has left is at least `minimum_remaining_timeslice`.
pub fn round_robin(timeslice: usize, minimum_remaining_timeslice: usize) -> (r: Result<
    Scheduler,
    ConfigError,
>)
    ensures
        timeslice == 0 <==> r == Err::<Scheduler, ConfigError>(ConfigError::ZeroQuantum),
        timeslice > 0 ==> r.is_ok() && r.unwrap()@ == State::fresh(
            Policy::RoundRobin,
            timeslice,
            minimum_remaining_timeslice,
        ) && r.unwrap()@.wf(),
{
    Scheduler::new(Policy::RoundRobin, timeslice, minimum_remaining_timeslice)
}

/// Builds an engine with the priority round robin policy.
///
/// `timeslice` is the quantum a process may run before it is preempted; zero
/// is rejected. A process that makes a non-blocking system call keeps the CPU
/// when the quantum it has left is at least `minimum_remaining_timeslice`.
pub fn priority_queue(timeslice: usize, minimum_remaining_timeslice: usize) -> (r: Result<
    Scheduler,
    ConfigError,
>)
    ensures
        timeslice == 0 <==> r == Err::<Scheduler, ConfigError>(ConfigError::ZeroQuantum),
        timeslice > 0 ==> r.is_ok() && r.unwrap()@ == State::fresh(
            Policy::PriorityRoundRobin,
            timeslice,
            minimum_remaining_timeslice,
        ) && r.unwrap()@.wf(),
{
    Scheduler::new(Policy::PriorityRoundRobin, timeslice, minimum_remaining_timeslice)
}

/// Builds an engine with the simplified completely fair policy.
///
/// `cpu_time` is the tick budget that every dispatch divides among the
/// processes that are ready at that moment; zero is rejected. A process that
/// makes a non-blocking system call keeps the CPU when the quantum it has left
/// is at least `minimum_remaining_timeslice`.
pub fn cfs(cpu_time: usize, minimum_remaining_timeslice: usize) -> (r: Result<
    Scheduler,
    ConfigError,
>)
    ensures
        cpu_time == 0 <==> r == Err::<Scheduler, ConfigError>(ConfigError::ZeroQuantum),
        cpu_time > 0 ==> r.is_ok() && r.unwrap()@ == State::fresh(
            Policy::Cfs,
            cpu_time,
            minimum_remaining_timeslice,
        ) && r.unwrap()@.wf(),
{
    Scheduler::new(Policy::Cfs, cpu_time, minimum_remaining_timeslice)
}

} // verus!
