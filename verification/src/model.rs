//! The mathematical model of the engine: its state as sequences of processes,
//! and each operation as a function from state to state and answer.

use vstd::prelude::*;
use crate::process::{
    Pid, Policy, Process, ProcessState, SchedulingDecision, StopReason, Syscall, SyscallResult,
    WaitReason,
};

verus! {

/// What can move processes from the waiting queue back to the ready queue.
#[derive(Clone, Copy, Debug, PartialEq, Eq, Structural)]
pub enum Wake {
    /// This many ticks of idle time have passed.
    Elapsed(usize),
    /// The event with this number was signalled.
    Signal(usize),
}

/// The state of an engine. The position of a process (a queue or the running
/// slot) is the only place where it is held.
pub struct State {
    pub policy: Policy,
    /// The timeslice of the round robin policies, the CPU budget of the fair one.
    pub quantum: usize,
    pub minimum_remaining_timeslice: usize,
    /// The runnable processes, the one that became ready first in front.
    pub ready: Seq<Process>,
    /// The blocked processes, in the order in which they blocked.
    pub waiting: Seq<Process>,
    pub running: Option<Process>,
    /// The identifier that the next registration hands out.
    pub next_pid: usize,
}

/// `a + b`, held at the largest representable value.
pub open spec fn saturating_sum(a: usize, b: usize) -> usize {
    if a + b > usize::MAX {
        usize::MAX
    } else {
        (a + b) as usize
    }
}

/// Whether the policy strictly prefers `a` to `b`, insertion order aside.
pub open spec fn precedes(policy: Policy, a: Process, b: Process) -> bool {
    match policy {
        Policy::RoundRobin => false,
        Policy::PriorityRoundRobin => a.priority > b.priority,
        Policy::Cfs => a.vruntime < b.vruntime,
    }
}

/// `i` is the position the policy dispatches from: no ready process is
/// preferred to the one at `i`, and that one is preferred to all in front of it.
pub open spec fn is_pick(policy: Policy, ready: Seq<Process>, i: int) -> bool {
    &&& 0 <= i < ready.len()
    &&& forall|j: int| 0 <= j < ready.len() ==> !precedes(policy, #[trigger] ready[j], ready[i])
    &&& forall|j: int| 0 <= j < i ==> precedes(policy, ready[i], #[trigger] ready[j])
}

pub open spec fn pick_index(policy: Policy, ready: Seq<Process>) -> int {
    choose|i: int| is_pick(policy, ready, i)
}

/// The timeslice of a dispatch out of `n_ready` ready processes: the quantum
/// itself, or under the fair policy an equal share of it, at least one tick.
pub open spec fn dispatch_slice(policy: Policy, quantum: usize, n_ready: nat) -> usize {
    match policy {
        Policy::Cfs => {
            let share = quantum as int / (if n_ready == 0 {
                1
            } else {
                n_ready as int
            });
            if share < 1 {
                1
            } else {
                share as usize
            }
        },
        _ => quantum,
    }
}

/// The ticks until `p` wakes by itself, `None` where it is not asleep.
pub open spec fn sleep_left(p: Process) -> Option<usize> {
    match p.state {
        ProcessState::Waiting(WaitReason::Sleep(n)) => Some(n),
        _ => None,
    }
}

/// `t` is the smallest countdown among the sleepers of `waiting`.
pub open spec fn is_earliest_wake(waiting: Seq<Process>, t: usize) -> bool {
    &&& exists|i: int| 0 <= i < waiting.len() && sleep_left(#[trigger] waiting[i]) == Some(t)
    &&& forall|i: int|
        0 <= i < waiting.len() ==> match sleep_left(#[trigger] waiting[i]) {
            Some(n) => t <= n,
            None => true,
        }
}

/// The smallest countdown among the sleepers, `None` where nobody sleeps.
pub open spec fn earliest_wake(waiting: Seq<Process>) -> Option<usize> {
    if exists|t: usize| is_earliest_wake(waiting, t) {
        Some(choose|t: usize| is_earliest_wake(waiting, t))
    } else {
        None
    }
}

/// Whether `cond` ends the wait of `p`.
pub open spec fn wakes(cond: Wake, p: Process) -> bool {
    match (cond, p.state) {
        (Wake::Elapsed(t), ProcessState::Waiting(WaitReason::Sleep(n))) => n <= t,
        (Wake::Signal(e), ProcessState::Waiting(WaitReason::Event(f))) => e == f,
        _ => false,
    }
}

/// `p` as it enters the ready queue: ready, with a full quantum.
pub open spec fn readied(p: Process, quantum: usize) -> Process {
    Process { state: ProcessState::Ready, remaining_timeslice: quantum, ..p }
}

/// `p`, which `cond` leaves waiting, afterwards: a sleeper's countdown has gone down.
pub open spec fn passed(cond: Wake, p: Process) -> Process {
    match (cond, p.state) {
        (Wake::Elapsed(t), ProcessState::Waiting(WaitReason::Sleep(n))) => if n > t {
            Process { state: ProcessState::Waiting(WaitReason::Sleep((n - t) as usize)), ..p }
        } else {
            p
        },
        _ => p,
    }
}

pub open spec fn wakes_fn(cond: Wake) -> spec_fn(Process) -> bool {
    |p: Process| wakes(cond, p)
}

pub open spec fn stays_fn(cond: Wake) -> spec_fn(Process) -> bool {
    |p: Process| !wakes(cond, p)
}

pub open spec fn readied_fn(quantum: usize) -> spec_fn(Process) -> Process {
    |p: Process| readied(p, quantum)
}

pub open spec fn passed_fn(cond: Wake) -> spec_fn(Process) -> Process {
    |p: Process| passed(cond, p)
}

/// The processes that `cond` wakes, in waiting order, as they enter the ready queue.
pub open spec fn woken(waiting: Seq<Process>, cond: Wake, quantum: usize) -> Seq<Process> {
    waiting.filter(wakes_fn(cond)).map_values(readied_fn(quantum))
}

/// The processes that `cond` leaves waiting, in waiting order.
pub open spec fn still_waiting(waiting: Seq<Process>, cond: Wake) -> Seq<Process> {
    waiting.filter(stays_fn(cond)).map_values(passed_fn(cond))
}

/// `p` with `ticks` more of consumed CPU time and `left` of its quantum remaining.
pub open spec fn charged(p: Process, ticks: usize, left: usize) -> Process {
    Process { vruntime: saturating_sum(p.vruntime, ticks), remaining_timeslice: left, ..p }
}

/// What `p`, which was running, has left of its quantum when it stops for
/// `reason`: nothing after an expiry, else what was reported, but no more
/// than it had.
pub open spec fn remaining_after(p: Process, reason: StopReason) -> usize {
    match reason {
        StopReason::Expired => 0,
        StopReason::Syscall { remaining_timeslice, .. } => if remaining_timeslice
            < p.remaining_timeslice {
            remaining_timeslice
        } else {
            p.remaining_timeslice
        },
    }
}

/// Whether the system call takes the CPU away from its caller for good or for a while.
pub open spec fn blocks(syscall: Syscall) -> bool {
    match syscall {
        Syscall::Exit => true,
        Syscall::Sleep(t) => t > 0,
        Syscall::Wait(_) => true,
        Syscall::Fork(_) => false,
        Syscall::Signal(_) => false,
    }
}

/// Whether a process of `queue` carries the identifier `pid`.
pub open spec fn holds_pid(queue: Seq<Process>, pid: Pid) -> bool {
    exists|i: int| 0 <= i < queue.len() && (#[trigger] queue[i]).pid == pid
}

/// Whether no two processes of `queue` carry the same identifier.
pub open spec fn distinct_pids(queue: Seq<Process>) -> bool {
    forall|i: int, j: int|
        0 <= i < j < queue.len() ==> (#[trigger] queue[i]).pid != (#[trigger] queue[j]).pid
}

/// Whether no process of `a` carries the identifier of one of `b`.
pub open spec fn disjoint_pids(a: Seq<Process>, b: Seq<Process>) -> bool {
    forall|i: int, j: int|
        0 <= i < a.len() && 0 <= j < b.len() ==> (#[trigger] a[i]).pid != (#[trigger] b[j]).pid
}

/// Whether the report is of a fork, the one report that needs a free identifier.
pub open spec fn is_fork(reason: StopReason) -> bool {
    reason matches StopReason::Syscall { syscall: Syscall::Fork(_), .. }
}

impl State {
    /// The state of a newly built engine.
    pub open spec fn fresh(policy: Policy, quantum: usize, minimum: usize) -> State {
        State {
            policy,
            quantum,
            minimum_remaining_timeslice: minimum,
            ready: Seq::empty(),
            waiting: Seq::empty(),
            running: None,
            next_pid: 1,
        }
    }

    /// Whether `p` carries an identifier that this engine has handed out.
    pub open spec fn knows(self, p: Process) -> bool {
        1 <= p.pid.0 < self.next_pid
    }

    /// The invariant of the engine: the configuration is valid; every process
    /// is in the state that belongs to the place where it is held, so that at
    /// most one is running; and every identifier was handed out by this engine
    /// and is carried by one process only.
    pub open spec fn wf(self) -> bool {
        &&& self.quantum > 0
        &&& self.next_pid >= 1
        &&& forall|i: int|
            0 <= i < self.ready.len() ==> (#[trigger] self.ready[i]).state == ProcessState::Ready
                && self.knows(self.ready[i])
        &&& forall|i: int|
            0 <= i < self.waiting.len() ==> {
                &&& (#[trigger] self.waiting[i]).state is Waiting
                &&& self.waiting[i].state != ProcessState::Waiting(WaitReason::Sleep(0))
                &&& self.knows(self.waiting[i])
            }
        &&& self.running matches Some(p) ==> {
            &&& p.state == ProcessState::Running
            &&& p.remaining_timeslice <= self.quantum
            &&& self.knows(p)
            &&& !holds_pid(self.ready, p.pid)
            &&& !holds_pid(self.waiting, p.pid)
        }
        &&& distinct_pids(self.ready)
        &&& distinct_pids(self.waiting)
        &&& disjoint_pids(self.ready, self.waiting)
    }

    /// Whether a process with this identifier is in a queue or on the CPU.
    pub open spec fn tracks(self, pid: Pid) -> bool {
        ||| holds_pid(self.ready, pid)
        ||| holds_pid(self.waiting, pid)
        ||| (self.running matches Some(p) && p.pid == pid)
    }

    /// Whether an identifier is left to hand out.
    pub open spec fn has_free_pid(self) -> bool {
        self.next_pid < usize::MAX
    }

    /// The state after a process of the given priority was registered. Its
    /// identifier is `Pid(self.next_pid)`.
    pub open spec fn register(self, priority: i8) -> State {
        State {
            ready: self.ready.push(
                Process {
                    pid: Pid(self.next_pid),
                    state: ProcessState::Ready,
                    priority,
                    remaining_timeslice: self.quantum,
                    vruntime: 0,
                },
            ),
            next_pid: (self.next_pid + 1) as usize,
            ..self
        }
    }

    /// The state after `cond`: the processes it wakes stand at the back of the
    /// ready queue, in the order in which they waited.
    pub open spec fn wake(self, cond: Wake) -> State {
        State {
            ready: self.ready + woken(self.waiting, cond, self.quantum),
            waiting: still_waiting(self.waiting, cond),
            ..self
        }
    }

    /// The state after `p` left the CPU for the back of the ready queue.
    pub open spec fn requeue(self, p: Process) -> State {
        State { ready: self.ready.push(readied(p, self.quantum)), running: None, ..self }
    }

    /// The state after `p` left the CPU to wait for `reason`.
    pub open spec fn block(self, p: Process, reason: WaitReason) -> State {
        State {
            waiting: self.waiting.push(Process { state: ProcessState::Waiting(reason), ..p }),
            running: None,
            ..self
        }
    }

    /// The state after a system call that did not block `p`, which reported
    /// `remaining` ticks of its quantum: `p` keeps the CPU where that is at
    /// least the configured minimum, and goes to the back of the ready queue
    /// otherwise.
    pub open spec fn resume_or_yield(self, p: Process, remaining: usize) -> State {
        if remaining >= self.minimum_remaining_timeslice {
            State { running: Some(p), ..self }
        } else {
            self.requeue(p)
        }
    }

    /// What "choose what runs next" changes and answers.
    pub open spec fn schedule(self) -> (State, SchedulingDecision) {
        match self.running {
            Some(p) => (
                self,
                SchedulingDecision::Run { pid: p.pid, timeslice: p.remaining_timeslice },
            ),
            None => if self.ready.len() > 0 {
                let i = pick_index(self.policy, self.ready);
                let t = dispatch_slice(self.policy, self.quantum, self.ready.len());
                let p = Process {
                    state: ProcessState::Running,
                    remaining_timeslice: t,
                    ..self.ready[i]
                };
                (
                    State { ready: self.ready.remove(i), running: Some(p), ..self },
                    SchedulingDecision::Run { pid: p.pid, timeslice: t },
                )
            } else {
                match earliest_wake(self.waiting) {
                    Some(t) => (self.wake(Wake::Elapsed(t)), SchedulingDecision::Sleep(t)),
                    None => if self.waiting.len() > 0 {
                        (self, SchedulingDecision::Wait)
                    } else {
                        (self, SchedulingDecision::Done)
                    },
                }
            },
        }
    }

    /// What the report "the running process stopped" changes and answers.
    ///
    /// The ticks that the process consumed since its dispatch pass for the
    /// sleepers first; then the process is charged, and the expiry or the
    /// system call is carried out.
    pub open spec fn stop(self, reason: StopReason) -> (State, SyscallResult) {
        match self.running {
            None => (self, SyscallResult::NoRunningProcess),
            Some(p) => {
                let left = remaining_after(p, reason);
                let used = (p.remaining_timeslice - left) as usize;
                let q = charged(p, used, left);
                let now = self.wake(Wake::Elapsed(used));
                match reason {
                    StopReason::Expired => (now.requeue(q), SyscallResult::Success),
                    StopReason::Syscall { syscall, remaining_timeslice } => match syscall {
                        Syscall::Exit => (State { running: None, ..now }, SyscallResult::Success),
                        Syscall::Sleep(t) => if t > 0 {
                            (now.block(q, WaitReason::Sleep(t)), SyscallResult::Success)
                        } else {
                            (now.resume_or_yield(q, remaining_timeslice), SyscallResult::Success)
                        },
                        Syscall::Wait(e) => (
                            now.block(q, WaitReason::Event(e)),
                            SyscallResult::Success,
                        ),
                        Syscall::Fork(priority) => (
                            now.register(priority).resume_or_yield(q, remaining_timeslice),
                            SyscallResult::NewPid(Pid(self.next_pid)),
                        ),
                        Syscall::Signal(e) => (
                            now.wake(Wake::Signal(e)).resume_or_yield(q, remaining_timeslice),
                            SyscallResult::Success,
                        ),
                    },
                }
            },
        }
    }
}

/// At most one position satisfies `is_pick`.
pub proof fn lemma_pick_unique(policy: Policy, ready: Seq<Process>, i: int, k: int)
    requires
        is_pick(policy, ready, i),
        is_pick(policy, ready, k),
    ensures
        i == k,
{
    if i < k {
        assert(precedes(policy, ready[k], ready[i]));
    } else if k < i {
        assert(precedes(policy, ready[i], ready[k]));
    }
}

/// A non-empty ready queue has a position to dispatch from, and `pick_index` is it.
pub proof fn lemma_pick_exists(policy: Policy, ready: Seq<Process>)
    requires
        ready.len() > 0,
    ensures
        is_pick(policy, ready, pick_index(policy, ready)),
    decreases ready.len(),
{
    if ready.len() == 1 {
        assert(is_pick(policy, ready, 0));
    } else {
        let front = ready.drop_last();
        let last = ready.len() - 1;
        lemma_pick_exists(policy, front);
        let k = pick_index(policy, front);
        assert(forall|j: int| 0 <= j < last ==> front[j] == ready[j]);
        if precedes(policy, ready[last], ready[k]) {
            assert forall|j: int| 0 <= j < ready.len() implies !precedes(
                policy,
                #[trigger] ready[j],
                ready[last],
            ) by {
                if j < last {
                    assert(!precedes(policy, front[j], front[k]));
                }
            }
            assert forall|j: int| 0 <= j < last implies precedes(
                policy,
                ready[last],
                #[trigger] ready[j],
            ) by {
                assert(!precedes(policy, front[j], front[k]));
            }
            assert(is_pick(policy, ready, last));
        } else {
            assert forall|j: int| 0 <= j < ready.len() implies !precedes(
                policy,
                #[trigger] ready[j],
                ready[k],
            ) by {
                if j < last {
                    assert(!precedes(policy, front[j], front[k]));
                }
            }
            assert forall|j: int| 0 <= j < k implies precedes(
                policy,
                ready[k],
                #[trigger] ready[j],
            ) by {
                assert(precedes(policy, front[k], front[j]));
            }
            assert(is_pick(policy, ready, k));
        }
    }
}

/// The sleepers of a queue have at most one smallest countdown.
pub proof fn lemma_earliest_wake_is(waiting: Seq<Process>, t: usize)
    requires
        is_earliest_wake(waiting, t),
    ensures
        earliest_wake(waiting) == Some(t),
{
    let u = choose|u: usize| is_earliest_wake(waiting, u);
    assert(is_earliest_wake(waiting, u));
    assert(u <= t);
    assert(t <= u);
}

/// Finds the smallest countdown among the sleepers of a queue: it is `None`
/// only where nobody sleeps.
pub proof fn lemma_earliest_wake_found(waiting: Seq<Process>) -> (r: Option<usize>)
    ensures
        r == earliest_wake(waiting),
        r matches Some(t) ==> is_earliest_wake(waiting, t),
        r is None ==> forall|i: int|
            0 <= i < waiting.len() ==> sleep_left(#[trigger] waiting[i]) is None,
    decreases waiting.len(),
{
    if waiting.len() == 0 {
        None
    } else {
        let front = waiting.drop_last();
        let last = waiting.len() - 1;
        let before = lemma_earliest_wake_found(front);
        assert(forall|i: int| 0 <= i < last ==> front[i] == waiting[i]);
        let found = match (sleep_left(waiting[last]), before) {
            (None, _) => before,
            (Some(n), None) => Some(n),
            (Some(n), Some(t)) => if n < t {
                Some(n)
            } else {
                Some(t)
            },
        };
        match found {
            Some(t) => {
                if sleep_left(waiting[last]) == Some(t) {
                } else {
                    let j = choose|j: int|
                        0 <= j < front.len() && sleep_left(#[trigger] front[j]) == Some(t);
                    assert(sleep_left(waiting[j]) == Some(t));
                }
                assert forall|i: int| 0 <= i < waiting.len() implies match sleep_left(
                    #[trigger] waiting[i],
                ) {
                    Some(n) => t <= n,
                    None => true,
                } by {
                    if i < last {
                        assert(front[i] == waiting[i]);
                    }
                }
                assert(is_earliest_wake(waiting, t));
                lemma_earliest_wake_is(waiting, t);
            },
            None => {
                assert forall|i: int| 0 <= i < waiting.len() implies sleep_left(
                    #[trigger] waiting[i],
                ) is None by {
                    if i < last {
                        assert(front[i] == waiting[i]);
                    }
                }
            },
        }
        found
    }
}

/// How `woken` and `still_waiting` grow with one more process at the back.
pub proof fn lemma_wake_push(waiting: Seq<Process>, p: Process, cond: Wake, quantum: usize)
    ensures
        woken(waiting.push(p), cond, quantum) == if wakes(cond, p) {
            woken(waiting, cond, quantum).push(readied(p, quantum))
        } else {
            woken(waiting, cond, quantum)
        },
        still_waiting(waiting.push(p), cond) == if wakes(cond, p) {
            still_waiting(waiting, cond)
        } else {
            still_waiting(waiting, cond).push(passed(cond, p))
        },
{
    waiting.lemma_filter_push(p, wakes_fn(cond));
    waiting.lemma_filter_push(p, stays_fn(cond));
    waiting.filter(wakes_fn(cond)).lemma_push_map_commute(readied_fn(quantum), p);
    waiting.filter(stays_fn(cond)).lemma_push_map_commute(passed_fn(cond), p);
}

/// Nothing is woken out of an empty queue, and nothing stays in it.
pub proof fn lemma_wake_empty(cond: Wake, quantum: usize)
    ensures
        woken(Seq::<Process>::empty(), cond, quantum) == Seq::<Process>::empty(),
        still_waiting(Seq::<Process>::empty(), cond) == Seq::<Process>::empty(),
{
    Seq::<Process>::empty().lemma_filter_len(wakes_fn(cond));
    Seq::<Process>::empty().lemma_filter_len(stays_fn(cond));
    assert(woken(Seq::<Process>::empty(), cond, quantum) =~= Seq::<Process>::empty());
    assert(still_waiting(Seq::<Process>::empty(), cond) =~= Seq::<Process>::empty());
}

/// An identifier carried in all but the last place of a queue is carried in
/// the queue, and where the queue's identifiers are distinct, not by the last.
pub proof fn lemma_pid_in_front(queue: Seq<Process>, pid: Pid)
    requires
        queue.len() > 0,
        holds_pid(queue.drop_last(), pid),
    ensures
        holds_pid(queue, pid),
        distinct_pids(queue) ==> pid != queue.last().pid,
{
    let front = queue.drop_last();
    let j = choose|j: int| 0 <= j < front.len() && (#[trigger] front[j]).pid == pid;
    assert(queue[j].pid == pid);
    assert(queue.last() == queue[queue.len() - 1]);
}

/// Waking moves identifiers, and makes none: each process that is woken or
/// stays carries the identifier of one that waited, and where those that
/// waited had distinct identifiers, so have all of these.
pub proof fn lemma_wake_pids(waiting: Seq<Process>, cond: Wake, quantum: usize)
    ensures
        forall|i: int|
            0 <= i < woken(waiting, cond, quantum).len() ==> holds_pid(
                waiting,
                (#[trigger] woken(waiting, cond, quantum)[i]).pid,
            ),
        forall|i: int|
            0 <= i < still_waiting(waiting, cond).len() ==> holds_pid(
                waiting,
                (#[trigger] still_waiting(waiting, cond)[i]).pid,
            ),
        distinct_pids(waiting) ==> {
            &&& distinct_pids(woken(waiting, cond, quantum))
            &&& distinct_pids(still_waiting(waiting, cond))
            &&& disjoint_pids(woken(waiting, cond, quantum), still_waiting(waiting, cond))
        },
    decreases waiting.len(),
{
    if waiting.len() == 0 {
        assert(waiting =~= Seq::<Process>::empty());
        lemma_wake_empty(cond, quantum);
    } else {
        let front = waiting.drop_last();
        let last = waiting.last();
        assert(waiting =~= front.push(last));
        lemma_wake_push(front, last, cond, quantum);
        lemma_wake_pids(front, cond, quantum);
        let up = woken(waiting, cond, quantum);
        let rest = still_waiting(waiting, cond);
        let up_front = woken(front, cond, quantum);
        let rest_front = still_waiting(front, cond);
        assert(waiting[waiting.len() - 1].pid == last.pid);
        assert forall|i: int| 0 <= i < up_front.len() implies holds_pid(
            waiting,
            (#[trigger] up_front[i]).pid,
        ) && (distinct_pids(waiting) ==> up_front[i].pid != last.pid) by {
            lemma_pid_in_front(waiting, up_front[i].pid);
        }
        assert forall|i: int| 0 <= i < rest_front.len() implies holds_pid(
            waiting,
            (#[trigger] rest_front[i]).pid,
        ) && (distinct_pids(waiting) ==> rest_front[i].pid != last.pid) by {
            lemma_pid_in_front(waiting, rest_front[i].pid);
        }
        assert forall|i: int| 0 <= i < up.len() implies holds_pid(waiting, (#[trigger] up[i]).pid) by {
            if i < up_front.len() {
                assert(up[i] == up_front[i]);
            }
        }
        assert forall|i: int| 0 <= i < rest.len() implies holds_pid(
            waiting,
            (#[trigger] rest[i]).pid,
        ) by {
            if i < rest_front.len() {
                assert(rest[i] == rest_front[i]);
            }
        }
        if distinct_pids(waiting) {
            assert(distinct_pids(front)) by {
                assert forall|i: int, j: int| 0 <= i < j < front.len() implies (
                #[trigger] front[i]).pid != (#[trigger] front[j]).pid by {
                    assert(waiting[i].pid != waiting[j].pid);
                }
            }
            assert forall|i: int, j: int| 0 <= i < j < up.len() implies (#[trigger] up[i]).pid != (
            #[trigger] up[j]).pid by {
                assert(up[i] == up_front[i]);
                if j < up_front.len() {
                    assert(up[j] == up_front[j]);
                }
            }
            assert forall|i: int, j: int| 0 <= i < j < rest.len() implies (#[trigger] rest[i]).pid
                != (#[trigger] rest[j]).pid by {
                assert(rest[i] == rest_front[i]);
                if j < rest_front.len() {
                    assert(rest[j] == rest_front[j]);
                }
            }
            assert forall|i: int, j: int| 0 <= i < up.len() && 0 <= j < rest.len() implies (
            #[trigger] up[i]).pid != (#[trigger] rest[j]).pid by {
                if i < up_front.len() {
                    assert(up[i] == up_front[i]);
                }
                if j < rest_front.len() {
                    assert(rest[j] == rest_front[j]);
                }
            }
        }
    }
}

/// Waking loses nobody: a process that waited is afterwards among the woken
/// or among those that wait on.
pub proof fn lemma_wake_keeps_pid(waiting: Seq<Process>, cond: Wake, quantum: usize, pid: Pid)
    requires
        holds_pid(waiting, pid),
    ensures
        holds_pid(woken(waiting, cond, quantum), pid) || holds_pid(
            still_waiting(waiting, cond),
            pid,
        ),
    decreases waiting.len(),
{
    let front = waiting.drop_last();
    let last = waiting.last();
    assert(waiting =~= front.push(last));
    lemma_wake_push(front, last, cond, quantum);
    let up = woken(waiting, cond, quantum);
    let rest = still_waiting(waiting, cond);
    let j = choose|j: int| 0 <= j < waiting.len() && (#[trigger] waiting[j]).pid == pid;
    if j == waiting.len() - 1 {
        if wakes(cond, last) {
            assert(up[up.len() - 1].pid == pid);
        } else {
            assert(rest[rest.len() - 1].pid == pid);
        }
    } else {
        assert(front[j].pid == pid);
        lemma_wake_keeps_pid(front, cond, quantum, pid);
        let up_front = woken(front, cond, quantum);
        let rest_front = still_waiting(front, cond);
        if holds_pid(up_front, pid) {
            let i = choose|i: int| 0 <= i < up_front.len() && (#[trigger] up_front[i]).pid == pid;
            assert(up[i].pid == pid);
        } else {
            let i = choose|i: int|
                0 <= i < rest_front.len() && (#[trigger] rest_front[i]).pid == pid;
            assert(rest[i].pid == pid);
        }
    }
}

/// Time that passes changes nothing in a queue where nobody sleeps.
pub proof fn lemma_time_wakes_no_event_waiter(waiting: Seq<Process>, ticks: usize, quantum: usize)
    requires
        forall|i: int| 0 <= i < waiting.len() ==> sleep_left(#[trigger] waiting[i]) is None,
    ensures
        woken(waiting, Wake::Elapsed(ticks), quantum) == Seq::<Process>::empty(),
        still_waiting(waiting, Wake::Elapsed(ticks)) == waiting,
    decreases waiting.len(),
{
    if waiting.len() == 0 {
        assert(waiting =~= Seq::<Process>::empty());
        lemma_wake_empty(Wake::Elapsed(ticks), quantum);
    } else {
        let front = waiting.drop_last();
        let last = waiting.last();
        assert(waiting =~= front.push(last));
        assert(forall|i: int| 0 <= i < front.len() ==> front[i] == waiting[i]);
        assert(sleep_left(waiting[waiting.len() - 1]) is None);
        lemma_time_wakes_no_event_waiter(front, ticks, quantum);
        lemma_wake_push(front, last, Wake::Elapsed(ticks), quantum);
    }
}

} // verus!
