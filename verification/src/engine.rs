//! The executable engine.

use vstd::prelude::*;
use crate::laws::{
    law_run_keeps_invariant, lemma_register_wf, lemma_schedule_wf, lemma_stop_wf, lemma_wake_wf,
};
use crate::trace::{lemma_run_unfold, Request, Response};
use crate::model::{
    charged, dispatch_slice, earliest_wake, is_earliest_wake, is_fork, is_pick,
    lemma_earliest_wake_is, lemma_pick_unique, lemma_wake_empty, lemma_wake_push, passed,
    pick_index, precedes, readied, sleep_left, still_waiting, wakes, woken, State, Wake,
};
use crate::process::{
    ConfigError, Pid, Policy, Process, ProcessState, SchedulingDecision, StopReason, Syscall,
    SyscallResult, WaitReason,
};

verus! {

/// A scheduling engine: the processes it tracks and the policy it decides by.
pub struct Scheduler {
    policy: Policy,
    quantum: usize,
    minimum_remaining_timeslice: usize,
    ready: Vec<Process>,
    waiting: Vec<Process>,
    running: Option<Process>,
    next_pid: usize,
}

impl View for Scheduler {
    type V = State;

    closed spec fn view(&self) -> State {
        State {
            policy: self.policy,
            quantum: self.quantum,
            minimum_remaining_timeslice: self.minimum_remaining_timeslice,
            ready: self.ready@,
            waiting: self.waiting@,
            running: self.running,
            next_pid: self.next_pid,
        }
    }
}

fn prefers(policy: Policy, a: &Process, b: &Process) -> (r: bool)
    ensures
        r == precedes(policy, *a, *b),
{
    match policy {
        Policy::RoundRobin => false,
        Policy::PriorityRoundRobin => a.priority > b.priority,
        Policy::Cfs => a.vruntime < b.vruntime,
    }
}

/// Finds the position that the policy dispatches from.
fn pick(policy: Policy, ready: &Vec<Process>) -> (best: usize)
    requires
        ready.len() > 0,
    ensures
        is_pick(policy, ready@, best as int),
        best == pick_index(policy, ready@),
{
    let mut best: usize = 0;
    let mut k: usize = 1;
    while k < ready.len()
        invariant
            0 <= best < k <= ready.len(),
            forall|j: int| 0 <= j < k ==> !precedes(policy, #[trigger] ready@[j], ready@[best as int]),
            forall|j: int|
                0 <= j < best ==> precedes(policy, ready@[best as int], #[trigger] ready@[j]),
        decreases ready.len() - k,
    {
        if prefers(policy, &ready[k], &ready[best]) {
            best = k;
        }
        k += 1;
    }
    proof {
        let chosen = pick_index(policy, ready@);
        assert(is_pick(policy, ready@, best as int));
        lemma_pick_unique(policy, ready@, best as int, chosen);
    }
    best
}

/// The timeslice of a dispatch out of `n_ready` ready processes.
fn slice_for(policy: Policy, quantum: usize, n_ready: usize) -> (t: usize)
    requires
        quantum > 0,
    ensures
        t == dispatch_slice(policy, quantum, n_ready as nat),
        1 <= t <= quantum,
{
    match policy {
        Policy::Cfs => {
            let parts: usize = if n_ready == 0 {
                1
            } else {
                n_ready
            };
            let share: usize = quantum / parts;
            assert(share <= quantum) by (nonlinear_arith)
                requires
                    share == quantum / parts,
                    parts >= 1,
            ;
            if share < 1 {
                1
            } else {
                share
            }
        },
        _ => quantum,
    }
}

/// Finds the smallest countdown among the sleepers.
fn find_earliest_wake(waiting: &Vec<Process>) -> (r: Option<usize>)
    ensures
        r == earliest_wake(waiting@),
{
    let mut best: Option<usize> = None;
    let mut k: usize = 0;
    while k < waiting.len()
        invariant
            k <= waiting.len(),
            best is None ==> forall|j: int| 0 <= j < k ==> sleep_left(#[trigger] waiting@[j]) is None,
            best matches Some(t) ==> {
                &&& exists|j: int| 0 <= j < k && sleep_left(#[trigger] waiting@[j]) == Some(t)
                &&& forall|j: int|
                    0 <= j < k ==> match sleep_left(#[trigger] waiting@[j]) {
                        Some(n) => t <= n,
                        None => true,
                    }
            },
        decreases waiting.len() - k,
    {
        if let ProcessState::Waiting(WaitReason::Sleep(n)) = waiting[k].state {
            match best {
                Some(t) => {
                    if n < t {
                        best = Some(n);
                    }
                },
                None => {
                    best = Some(n);
                },
            }
        }
        k += 1;
    }
    proof {
        match best {
            Some(t) => {
                assert(is_earliest_wake(waiting@, t));
                lemma_earliest_wake_is(waiting@, t);
            },
            None => {
                assert forall|t: usize| !is_earliest_wake(waiting@, t) by {}
            },
        }
    }
    best
}

fn wakes_now(cond: Wake, p: &Process) -> (r: bool)
    ensures
        r == wakes(cond, *p),
{
    match cond {
        Wake::Elapsed(t) => match p.state {
            ProcessState::Waiting(WaitReason::Sleep(n)) => n <= t,
            _ => false,
        },
        Wake::Signal(e) => match p.state {
            ProcessState::Waiting(WaitReason::Event(f)) => e == f,
            _ => false,
        },
    }
}

fn make_ready(p: Process, quantum: usize) -> (r: Process)
    ensures
        r == readied(p, quantum),
{
    Process {
        pid: p.pid,
        state: ProcessState::Ready,
        priority: p.priority,
        remaining_timeslice: quantum,
        vruntime: p.vruntime,
    }
}

fn let_pass(cond: Wake, p: Process) -> (r: Process)
    ensures
        r == passed(cond, p),
{
    match cond {
        Wake::Elapsed(t) => match p.state {
            ProcessState::Waiting(WaitReason::Sleep(n)) => {
                if n > t {
                    Process {
                        pid: p.pid,
                        state: ProcessState::Waiting(WaitReason::Sleep(n - t)),
                        priority: p.priority,
                        remaining_timeslice: p.remaining_timeslice,
                        vruntime: p.vruntime,
                    }
                } else {
                    p
                }
            },
            _ => p,
        },
        Wake::Signal(_) => p,
    }
}

fn charge(p: Process, ticks: usize, left: usize) -> (r: Process)
    ensures
        r == charged(p, ticks, left),
{
    let vruntime: usize = if ticks > usize::MAX - p.vruntime {
        usize::MAX
    } else {
        p.vruntime + ticks
    };
    Process {
        pid: p.pid,
        state: p.state,
        priority: p.priority,
        remaining_timeslice: left,
        vruntime,
    }
}

/// Parts a waiting queue into the processes that `cond` wakes, made ready,
/// and those that it leaves waiting.
fn split_waiting(waiting: &Vec<Process>, cond: Wake, quantum: usize) -> (r: (
    Vec<Process>,
    Vec<Process>,
))
    ensures
        r.0@ == woken(waiting@, cond, quantum),
        r.1@ == still_waiting(waiting@, cond),
{
    let mut up: Vec<Process> = Vec::new();
    let mut rest: Vec<Process> = Vec::new();
    let mut k: usize = 0;
    proof {
        lemma_wake_empty(cond, quantum);
        assert(waiting@.take(0) =~= Seq::<Process>::empty());
    }
    while k < waiting.len()
        invariant
            k <= waiting.len(),
            up@ == woken(waiting@.take(k as int), cond, quantum),
            rest@ == still_waiting(waiting@.take(k as int), cond),
        decreases waiting.len() - k,
    {
        let p = waiting[k];
        proof {
            lemma_wake_push(waiting@.take(k as int), p, cond, quantum);
            assert(waiting@.take(k as int).push(p) =~= waiting@.take(k + 1));
        }
        if wakes_now(cond, &p) {
            up.push(make_ready(p, quantum));
        } else {
            rest.push(let_pass(cond, p));
        }
        k += 1;
    }
    proof {
        assert(waiting@.take(k as int) =~= waiting@);
    }
    (up, rest)
}

impl Scheduler {
    /// Builds an engine; a zero quantum is rejected.
    pub fn new(policy: Policy, quantum: usize, minimum_remaining_timeslice: usize) -> (r: Result<
        Scheduler,
        ConfigError,
    >)
        ensures
            quantum == 0 <==> r == Err::<Scheduler, ConfigError>(ConfigError::ZeroQuantum),
            quantum > 0 ==> r.is_ok() && r.unwrap()@ == State::fresh(
                policy,
                quantum,
                minimum_remaining_timeslice,
            ) && r.unwrap()@.wf(),
    {
        if quantum == 0 {
            return Err(ConfigError::ZeroQuantum);
        }
        Ok(
            Scheduler {
                policy,
                quantum,
                minimum_remaining_timeslice,
                ready: Vec::new(),
                waiting: Vec::new(),
                running: None,
                next_pid: 1,
            },
        )
    }

    /// Registers a new ready process at the back of the ready queue and
    /// returns its identifier, which is larger than every earlier one.
    pub fn new_process(&mut self, priority: i8) -> (pid: Pid)
        requires
            old(self)@.wf(),
            old(self)@.has_free_pid(),
        ensures
            pid == Pid(old(self)@.next_pid),
            final(self)@ == old(self)@.register(priority),
            final(self)@.wf(),
    {
        let pid = Pid(self.next_pid);
        self.ready.push(
            Process {
                pid,
                state: ProcessState::Ready,
                priority,
                remaining_timeslice: self.quantum,
                vruntime: 0,
            },
        );
        self.next_pid = self.next_pid + 1;
        proof {
            lemma_register_wf(old(self)@, priority);
        }
        pid
    }

    /// The policy that the engine decides by.
    pub fn policy(&self) -> (r: Policy)
        ensures
            r == self@.policy,
    {
        self.policy
    }

    /// The configured timeslice, or under the fair policy the CPU budget.
    pub fn quantum(&self) -> (r: usize)
        ensures
            r == self@.quantum,
    {
        self.quantum
    }

    /// The least remaining quantum with which a caller keeps the CPU.
    pub fn minimum_remaining_timeslice(&self) -> (r: usize)
        ensures
            r == self@.minimum_remaining_timeslice,
    {
        self.minimum_remaining_timeslice
    }

    /// The ready queue, front first.
    pub fn ready(&self) -> (r: &Vec<Process>)
        ensures
            r@ == self@.ready,
    {
        &self.ready
    }

    /// The waiting queue, in the order in which the processes blocked.
    pub fn waiting(&self) -> (r: &Vec<Process>)
        ensures
            r@ == self@.waiting,
    {
        &self.waiting
    }

    /// The process that holds the CPU, if one does.
    pub fn running(&self) -> (r: Option<Process>)
        ensures
            r == self@.running,
    {
        self.running
    }

    /// Whether an identifier is left for one more process.
    pub fn has_free_pid(&self) -> (r: bool)
        ensures
            r == self@.has_free_pid(),
    {
        self.next_pid < usize::MAX
    }

    fn wake(&mut self, cond: Wake)
        ensures
            final(self)@ == old(self)@.wake(cond),
    {
        let (mut up, rest) = split_waiting(&self.waiting, cond, self.quantum);
        self.ready.append(&mut up);
        self.waiting = rest;
    }

    fn requeue(&mut self, p: Process)
        ensures
            final(self)@ == old(self)@.requeue(p),
    {
        self.ready.push(make_ready(p, self.quantum));
        self.running = None;
    }

    fn block(&mut self, p: Process, reason: WaitReason)
        ensures
            final(self)@ == old(self)@.block(p, reason),
    {
        self.waiting.push(
            Process {
                pid: p.pid,
                state: ProcessState::Waiting(reason),
                priority: p.priority,
                remaining_timeslice: p.remaining_timeslice,
                vruntime: p.vruntime,
            },
        );
        self.running = None;
    }

    fn resume_or_yield(&mut self, p: Process, remaining: usize)
        ensures
            final(self)@ == old(self)@.resume_or_yield(p, remaining),
    {
        if remaining >= self.minimum_remaining_timeslice {
            self.running = Some(p);
        } else {
            self.requeue(p);
        }
    }

    /// Chooses what runs next.
    ///
    /// While a process holds the CPU the answer is that process with the
    /// quantum it has left, and nothing changes. Otherwise the policy
    /// dispatches from the ready queue; with nothing ready, the engine lets the
    /// time until the earliest sleeper wakes pass and says how long that is;
    /// with nobody asleep either, it reports that it waits for events, or that
    /// it is done.
    pub fn schedule(&mut self) -> (decision: SchedulingDecision)
        requires
            old(self)@.wf(),
        ensures
            final(self)@ == old(self)@.schedule().0,
            decision == old(self)@.schedule().1,
            final(self)@.wf(),
            old(self)@.running is None && old(self)@.ready.len() > 0 ==> is_pick(
                old(self)@.policy,
                old(self)@.ready,
                pick_index(old(self)@.policy, old(self)@.ready),
            ),
            decision matches SchedulingDecision::Sleep(t) ==> is_earliest_wake(
                old(self)@.waiting,
                t,
            ),
    {
        proof {
            lemma_schedule_wf(old(self)@);
        }
        if let Some(p) = self.running {
            return SchedulingDecision::Run { pid: p.pid, timeslice: p.remaining_timeslice };
        }
        if self.ready.len() > 0 {
            let i = pick(self.policy, &self.ready);
            let t = slice_for(self.policy, self.quantum, self.ready.len());
            let chosen = self.ready.remove(i);
            let p = Process {
                pid: chosen.pid,
                state: ProcessState::Running,
                priority: chosen.priority,
                remaining_timeslice: t,
                vruntime: chosen.vruntime,
            };
            self.running = Some(p);
            return SchedulingDecision::Run { pid: p.pid, timeslice: t };
        }
        match find_earliest_wake(&self.waiting) {
            Some(t) => {
                self.wake(Wake::Elapsed(t));
                SchedulingDecision::Sleep(t)
            },
            None => {
                if self.waiting.len() > 0 {
                    SchedulingDecision::Wait
                } else {
                    SchedulingDecision::Done
                }
            },
        }
    }

    /// Takes the report that the running process stopped.
    ///
    /// With nothing running the answer is `NoRunningProcess` and nothing
    /// changes. Otherwise the ticks that the process consumed pass for the
    /// sleepers, and those whose time has come stand at the back of the ready
    /// queue. A process whose quantum expired goes behind them. A system call
    /// is carried out; its caller keeps the CPU where the call does not block
    /// and the reported remaining quantum is at least the configured minimum.
    pub fn stop(&mut self, reason: StopReason) -> (result: SyscallResult)
        requires
            old(self)@.wf(),
            old(self)@.running is Some && is_fork(reason) ==> old(self)@.has_free_pid(),
        ensures
            final(self)@ == old(self)@.stop(reason).0,
            result == old(self)@.stop(reason).1,
            final(self)@.wf(),
    {
        proof {
            lemma_stop_wf(old(self)@, reason);
        }
        let p = match self.running {
            None => {
                return SyscallResult::NoRunningProcess;
            },
            Some(p) => p,
        };
        let left: usize = match reason {
            StopReason::Expired => 0,
            StopReason::Syscall { remaining_timeslice, .. } => {
                if remaining_timeslice < p.remaining_timeslice {
                    remaining_timeslice
                } else {
                    p.remaining_timeslice
                }
            },
        };
        let used: usize = p.remaining_timeslice - left;
        let q = charge(p, used, left);
        self.wake(Wake::Elapsed(used));
        proof {
            lemma_wake_wf(old(self)@, Wake::Elapsed(used));
        }
        match reason {
            StopReason::Expired => {
                self.requeue(q);
                SyscallResult::Success
            },
            StopReason::Syscall { syscall, remaining_timeslice } => {
                match syscall {
                    Syscall::Exit => {
                        self.running = None;
                        SyscallResult::Success
                    },
                    Syscall::Sleep(t) => {
                        if t > 0 {
                            self.block(q, WaitReason::Sleep(t));
                        } else {
                            self.resume_or_yield(q, remaining_timeslice);
                        }
                        SyscallResult::Success
                    },
                    Syscall::Wait(e) => {
                        self.block(q, WaitReason::Event(e));
                        SyscallResult::Success
                    },
                    Syscall::Fork(priority) => {
                        let child = self.new_process(priority);
                        self.resume_or_yield(q, remaining_timeslice);
                        SyscallResult::NewPid(child)
                    },
                    Syscall::Signal(e) => {
                        self.wake(Wake::Signal(e));
                        self.resume_or_yield(q, remaining_timeslice);
                        SyscallResult::Success
                    },
                }
            },
        }
    }

    /// Takes one call, whichever it is, and answers it.
    pub fn handle(&mut self, request: Request) -> (response: Response)
        requires
            old(self)@.wf(),
            old(self)@.accepts(request),
        ensures
            final(self)@ == old(self)@.step(request).0,
            response == old(self)@.step(request).1,
            final(self)@.wf(),
    {
        match request {
            Request::NewProcess(priority) => Response::Registered(self.new_process(priority)),
            Request::Schedule => Response::Decision(self.schedule()),
            Request::Stop(reason) => Response::Stopped(self.stop(reason)),
        }
    }

    /// Takes a sequence of calls in order and returns their answers, which
    /// the state before and the calls determine.
    pub fn replay(&mut self, requests: &Vec<Request>) -> (responses: Vec<Response>)
        requires
            old(self)@.wf(),
            old(self)@.next_pid + requests.len() <= usize::MAX,
        ensures
            final(self)@ == old(self)@.run(requests@).0,
            responses@ == old(self)@.run(requests@).1,
            responses.len() == requests.len(),
            final(self)@.wf(),
    {
        let mut responses: Vec<Response> = Vec::new();
        let mut k: usize = 0;
        proof {
            assert(requests@.take(0) =~= Seq::<Request>::empty());
        }
        while k < requests.len()
            invariant
                k <= requests.len(),
                old(self)@.wf(),
                old(self)@.next_pid + requests.len() <= usize::MAX,
                self@ == old(self)@.run(requests@.take(k as int)).0,
                responses@ == old(self)@.run(requests@.take(k as int)).1,
                responses.len() == k,
            decreases requests.len() - k,
        {
            proof {
                law_run_keeps_invariant(old(self)@, requests@.take(k as int));
                lemma_run_unfold(old(self)@, requests@, k as int);
            }
            let response = self.handle(requests[k]);
            responses.push(response);
            k += 1;
        }
        proof {
            assert(requests@.take(k as int) =~= requests@);
            law_run_keeps_invariant(old(self)@, requests@);
        }
        responses
    }
}

} // verus!
