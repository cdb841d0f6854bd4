//! The data that the engine exchanges with its caller.

use vstd::prelude::*;

verus! {

/// A process identifier: positive, handed out in increasing order, never reused.
#[derive(Clone, Copy, Debug, PartialEq, Eq, Structural)]
pub struct Pid(pub usize);

/// What a blocked process is waiting for.
#[derive(Clone, Copy, Debug, PartialEq, Eq, Structural)]
pub enum WaitReason {
    /// Asleep, with the number of ticks left until it wakes.
    Sleep(usize),
    /// Blocked until the event with this number is signalled.
    Event(usize),
}

/// Where a process stands in its life.
#[derive(Clone, Copy, Debug, PartialEq, Eq, Structural)]
pub enum ProcessState {
    /// Eligible to run; sits in the ready queue.
    Ready,
    /// Holds the CPU.
    Running,
    /// Blocked; sits in the waiting queue.
    Waiting(WaitReason),
    /// Has exited and left every queue.
    Terminated,
}

/// One simulated process.
#[derive(Clone, Copy, Debug, PartialEq, Eq, Structural)]
pub struct Process {
    pub pid: Pid,
    pub state: ProcessState,
    /// Fixed at creation; a larger value is a higher priority.
    pub priority: i8,
    /// Ticks left before the process is preempted.
    pub remaining_timeslice: usize,
    /// Ticks of CPU time the process has consumed so far (saturating).
    pub vruntime: usize,
}

/// A system call of the running process.
#[derive(Clone, Copy, Debug, PartialEq, Eq, Structural)]
pub enum Syscall {
    /// Create a child process with the given priority.
    Fork(i8),
    /// Terminate the caller.
    Exit,
    /// Sleep for a number of ticks. Sleeping for zero ticks does not block.
    Sleep(usize),
    /// Block until the event is signalled.
    Wait(usize),
    /// Wake every process that waits for the event.
    Signal(usize),
}

/// Why the running process stopped.
#[derive(Clone, Copy, Debug, PartialEq, Eq, Structural)]
pub enum StopReason {
    /// It made a system call with `remaining_timeslice` ticks of its quantum left.
    Syscall { syscall: Syscall, remaining_timeslice: usize },
    /// Its quantum ran out.
    Expired,
}

/// The answer to "what runs next".
#[derive(Clone, Copy, Debug, PartialEq, Eq, Structural)]
pub enum SchedulingDecision {
    /// `pid` holds the CPU for up to `timeslice` ticks.
    Run { pid: Pid, timeslice: usize },
    /// Nothing is ready; the CPU idles for this many ticks, after which a sleeper wakes.
    Sleep(usize),
    /// Nothing is ready and nothing is known to wake.
    Wait,
    /// No process is left.
    Done,
    /// The engine is in a state it cannot resolve.
    Panic,
}

/// The outcome of reporting a stop.
#[derive(Clone, Copy, Debug, PartialEq, Eq, Structural)]
pub enum SyscallResult {
    Success,
    /// The identifier of the child that a fork created.
    NewPid(Pid),
    /// A stop was reported while nothing was running.
    NoRunningProcess,
    /// The call named a process that the engine does not track.
    UnknownProcess,
    /// The call named an event that nobody waits for.
    NotWaiting,
}

/// The scheduling discipline of an engine.
#[derive(Clone, Copy, Debug, PartialEq, Eq, Structural)]
pub enum Policy {
    /// One queue, first in, first out.
    RoundRobin,
    /// The highest priority first, first in, first out among equals.
    PriorityRoundRobin,
    /// The least consumed CPU time first, with the budget shared among the ready.
    Cfs,
}

/// Why an engine could not be built.
#[derive(Clone, Copy, Debug, PartialEq, Eq, Structural)]
pub enum ConfigError {
    /// The quantum (or the CPU budget) was zero.
    ZeroQuantum,
}

} // verus!
