//! What holds of the engine in every state and over several operations.

use vstd::prelude::*;
use crate::model::{
    blocks, charged, dispatch_slice, distinct_pids, earliest_wake, holds_pid, is_earliest_wake,
    is_fork, is_pick, lemma_earliest_wake_found, lemma_pick_exists, lemma_pick_unique,
    lemma_time_wakes_no_event_waiter, lemma_wake_keeps_pid, lemma_wake_pids, passed, pick_index,
    precedes, readied, remaining_after, saturating_sum, sleep_left, stays_fn, wakes, wakes_fn,
    woken, State, Wake,
};
use crate::process::{
    Pid, Policy, Process, ProcessState, SchedulingDecision, StopReason, Syscall, SyscallResult,
    WaitReason,
};
use crate::trace::{issued, lemma_run_prefix, lemma_run_unfold, Request};

verus! {

/// A newly built engine meets the invariant.
pub proof fn law_fresh_is_valid(policy: Policy, quantum: usize, minimum: usize)
    requires
        quantum > 0,
    ensures
        State::fresh(policy, quantum, minimum).wf(),
{
}

/// Registering a process keeps the invariant.
pub proof fn lemma_register_wf(s: State, priority: i8)
    requires
        s.wf(),
        s.has_free_pid(),
    ensures
        s.register(priority).wf(),
{
}

/// Waking processes keeps the invariant, whether or not a process holds the CPU.
pub proof fn lemma_wake_wf(s: State, cond: Wake)
    requires
        s.wf(),
    ensures
        s.wake(cond).wf(),
{
    let up = s.waiting.filter(wakes_fn(cond));
    let rest = s.waiting.filter(stays_fn(cond));
    let after = s.wake(cond);
    let risen = woken(s.waiting, cond, s.quantum);
    lemma_wake_pids(s.waiting, cond, s.quantum);
    assert forall|i: int| 0 <= i < after.ready.len() implies (#[trigger] after.ready[i]).state
        == ProcessState::Ready && after.knows(after.ready[i]) by {
        if i >= s.ready.len() {
            let j = i - s.ready.len();
            assert(after.ready[i] == readied(up[j], s.quantum));
            assert(up.contains(up[j]));
            s.waiting.lemma_filter_contains_rev(wakes_fn(cond), up[j]);
        }
    }
    assert forall|i: int| 0 <= i < after.waiting.len() implies {
        &&& (#[trigger] after.waiting[i]).state is Waiting
        &&& after.waiting[i].state != ProcessState::Waiting(WaitReason::Sleep(0))
        &&& after.knows(after.waiting[i])
    } by {
        assert(after.waiting[i] == passed(cond, rest[i]));
        assert(rest.contains(rest[i]));
        s.waiting.lemma_filter_contains_rev(stays_fn(cond), rest[i]);
        s.waiting.lemma_filter_pred(stays_fn(cond), i);
    }
    assert forall|i: int| 0 <= i < risen.len() implies !holds_pid(
        s.ready,
        (#[trigger] risen[i]).pid,
    ) by {
        assert(holds_pid(s.waiting, risen[i].pid));
    }
    assert forall|i: int, j: int| 0 <= i < j < after.ready.len() implies (
    #[trigger] after.ready[i]).pid != (#[trigger] after.ready[j]).pid by {
        if j >= s.ready.len() {
            assert(after.ready[j] == risen[j - s.ready.len()]);
            if i >= s.ready.len() {
                assert(after.ready[i] == risen[i - s.ready.len()]);
            } else {
                assert(after.ready[i] == s.ready[i]);
            }
        }
    }
    assert forall|i: int, j: int|
        0 <= i < after.ready.len() && 0 <= j < after.waiting.len() implies (
    #[trigger] after.ready[i]).pid != (#[trigger] after.waiting[j]).pid by {
        assert(holds_pid(s.waiting, after.waiting[j].pid));
        if i >= s.ready.len() {
            assert(after.ready[i] == risen[i - s.ready.len()]);
        } else {
            assert(after.ready[i] == s.ready[i]);
        }
    }
    if let Some(p) = s.running {
        if holds_pid(after.ready, p.pid) {
            let i = choose|i: int| 0 <= i < after.ready.len() && (#[trigger] after.ready[i]).pid == p.pid;
            if i >= s.ready.len() {
                assert(after.ready[i] == risen[i - s.ready.len()]);
                assert(holds_pid(s.waiting, risen[i - s.ready.len()].pid));
            } else {
                assert(after.ready[i] == s.ready[i]);
            }
            assert(false);
        }
        if holds_pid(after.waiting, p.pid) {
            let i = choose|i: int|
                0 <= i < after.waiting.len() && (#[trigger] after.waiting[i]).pid == p.pid;
            assert(holds_pid(s.waiting, after.waiting[i].pid));
            assert(false);
        }
    }
}

/// Choosing what runs next keeps the invariant.
pub proof fn lemma_schedule_wf(s: State)
    requires
        s.wf(),
    ensures
        s.schedule().0.wf(),
{
    if s.running is None {
        if s.ready.len() > 0 {
            lemma_pick_exists(s.policy, s.ready);
            lemma_slice_bounds(s.policy, s.quantum, s.ready.len());
        } else if let Some(t) = earliest_wake(s.waiting) {
            lemma_wake_wf(s, Wake::Elapsed(t));
        }
    }
}

/// A dispatch grants at least one tick and at most the quantum.
pub proof fn lemma_slice_bounds(policy: Policy, quantum: usize, n_ready: nat)
    requires
        quantum > 0,
    ensures
        1 <= dispatch_slice(policy, quantum, n_ready) <= quantum,
{
    let parts: int = if n_ready == 0 {
        1
    } else {
        n_ready as int
    };
    assert(0 <= quantum as int / parts <= quantum) by (nonlinear_arith)
        requires
            parts >= 1,
            quantum > 0,
    ;
}

/// Reporting a stop keeps the invariant.
pub proof fn lemma_stop_wf(s: State, reason: StopReason)
    requires
        s.wf(),
        s.running is Some && is_fork(reason) ==> s.has_free_pid(),
    ensures
        s.stop(reason).0.wf(),
{
    if let Some(p) = s.running {
        let left = remaining_after(p, reason);
        let used = (p.remaining_timeslice - left) as usize;
        let now = s.wake(Wake::Elapsed(used));
        lemma_wake_wf(s, Wake::Elapsed(used));
        if let StopReason::Syscall { syscall, remaining_timeslice } = reason {
            match syscall {
                Syscall::Signal(e) => {
                    lemma_wake_wf(now, Wake::Signal(e));
                },
                Syscall::Fork(priority) => {
                    lemma_register_wf(now, priority);
                },
                _ => {},
            }
        }
    }
}

/// The state after one registration for each priority of `priorities`, in order.
pub open spec fn register_all(s: State, priorities: Seq<i8>) -> State
    decreases priorities.len(),
{
    if priorities.len() == 0 {
        s
    } else {
        register_all(s, priorities.drop_last()).register(priorities.last())
    }
}

/// Identifiers are positive and strictly increasing: in any run of
/// registrations the one numbered `k` (from zero) gets the identifier of the
/// first plus `k`, so no two of them get the same one, and no process that
/// was there before carries it.
pub proof fn law_pids_strictly_increase(s: State, priorities: Seq<i8>, k: int)
    requires
        s.wf(),
        s.next_pid + priorities.len() <= usize::MAX,
        0 <= k <= priorities.len(),
    ensures
        register_all(s, priorities.take(k)).wf(),
        register_all(s, priorities.take(k)).next_pid == s.next_pid + k,
        register_all(s, priorities.take(k)).next_pid >= 1,
        register_all(s, priorities.take(k)).ready.len() == s.ready.len() + k,
        forall|p: Process| s.knows(p) ==> p.pid.0 < register_all(s, priorities.take(k)).next_pid,
    decreases k,
{
    let prefix = priorities.take(k);
    if k > 0 {
        law_pids_strictly_increase(s, priorities, k - 1);
        assert(prefix.drop_last() =~= priorities.take(k - 1));
        lemma_register_wf(register_all(s, priorities.take(k - 1)), prefix.last());
    }
}

/// No operation takes an identifier back: what the engine has handed out
/// stays handed out, and a stop hands out at most one more.
pub proof fn law_identifiers_never_reused(s: State, reason: StopReason)
    requires
        s.wf(),
        s.running is Some && is_fork(reason) ==> s.has_free_pid(),
    ensures
        s.schedule().0.next_pid == s.next_pid,
        s.stop(reason).0.next_pid == if s.running is Some && is_fork(reason) {
            s.next_pid + 1
        } else {
            s.next_pid as int
        },
        s.running is Some && is_fork(reason) ==> s.stop(reason).1 == SyscallResult::NewPid(
            Pid(s.next_pid),
        ),
{
}

/// At most one process is running: in a state that meets the invariant no
/// process in a queue is in the running state, so the running slot holds
/// the only one there can be. Every operation keeps the invariant.
pub proof fn law_mutual_exclusion(s: State, i: int)
    requires
        s.wf(),
    ensures
        0 <= i < s.ready.len() ==> s.ready[i].state != ProcessState::Running,
        0 <= i < s.waiting.len() ==> s.waiting[i].state != ProcessState::Running,
        s.running matches Some(p) ==> p.state == ProcessState::Running,
{
}

/// Round robin gives each process one quantum in turn: with nothing running
/// and at least two processes ready, the first is dispatched for the whole
/// quantum; when that expires it stands at the back of the queue, and the
/// next dispatch goes to the process that stood second, again for the whole
/// quantum.
pub proof fn law_round_robin_turns(s: State)
    requires
        s.wf(),
        s.policy == Policy::RoundRobin,
        s.running is None,
        s.ready.len() >= 2,
    ensures
        s.schedule().1 == (SchedulingDecision::Run { pid: s.ready[0].pid, timeslice: s.quantum }),
        s.schedule().0.stop(StopReason::Expired).1 == SyscallResult::Success,
        s.schedule().0.stop(StopReason::Expired).0.running is None,
        s.schedule().0.stop(StopReason::Expired).0.ready.len() >= s.ready.len(),
        s.schedule().0.stop(StopReason::Expired).0.ready.last().pid == s.ready[0].pid,
        s.ready[1].pid != s.ready[0].pid,
        s.schedule().0.stop(StopReason::Expired).0.schedule().1 == (SchedulingDecision::Run {
            pid: s.ready[1].pid,
            timeslice: s.quantum,
        }),
{
    lemma_pick_exists(s.policy, s.ready);
    assert(pick_index(s.policy, s.ready) == 0);
    let a = s.schedule().0;
    lemma_schedule_wf(s);
    let b = a.stop(StopReason::Expired).0;
    lemma_stop_wf(a, StopReason::Expired);
    assert(b.ready[0] == s.ready[1]);
    lemma_pick_exists(b.policy, b.ready);
    assert(is_pick(b.policy, b.ready, 0));
    lemma_pick_unique(b.policy, b.ready, 0, pick_index(b.policy, b.ready));
}

/// A process never runs longer than the quantum, and what it has left only
/// shrinks while it keeps the CPU: a dispatch grants between one tick and the
/// quantum, and the caller of a system call that goes on running has no more
/// left than before, and no more than it reported.
pub proof fn law_quantum_bounds_a_run(s: State, syscall: Syscall, remaining: usize)
    requires
        s.wf(),
        s.running is Some,
        syscall is Fork ==> s.has_free_pid(),
    ensures
        ({
            let after = s.stop(StopReason::Syscall { syscall, remaining_timeslice: remaining }).0;
            after.running matches Some(q) ==> {
                &&& q.pid == s.running.unwrap().pid
                &&& q.remaining_timeslice <= s.running.unwrap().remaining_timeslice
                &&& q.remaining_timeslice <= remaining
                &&& q.remaining_timeslice <= s.quantum
            }
        }),
        1 <= dispatch_slice(s.policy, s.quantum, s.ready.len()) <= s.quantum,
{
    lemma_slice_bounds(s.policy, s.quantum, s.ready.len());
}

/// Priority round robin never dispatches a process while one of a higher
/// priority is ready, and among those of the highest priority it takes the
/// one that has been ready longest.
pub proof fn law_priority_precedence(s: State)
    requires
        s.wf(),
        s.policy == Policy::PriorityRoundRobin,
        s.running is None,
        s.ready.len() > 0,
    ensures
        ({
            let i = pick_index(s.policy, s.ready);
            &&& 0 <= i < s.ready.len()
            &&& s.schedule().1 == (SchedulingDecision::Run {
                pid: s.ready[i].pid,
                timeslice: s.quantum,
            })
            &&& s.schedule().0.running matches Some(p) && p.pid == s.ready[i].pid && p.priority
                == s.ready[i].priority
            &&& forall|j: int|
                0 <= j < s.ready.len() ==> (#[trigger] s.ready[j]).priority <= s.ready[i].priority
            &&& forall|j: int| 0 <= j < i ==> (#[trigger] s.ready[j]).priority < s.ready[i].priority
        }),
{
    lemma_pick_exists(s.policy, s.ready);
    let i = pick_index(s.policy, s.ready);
    assert forall|j: int| 0 <= j < s.ready.len() implies (#[trigger] s.ready[j]).priority
        <= s.ready[i].priority by {
        assert(!precedes(s.policy, s.ready[j], s.ready[i]));
    }
    assert forall|j: int| 0 <= j < i implies (#[trigger] s.ready[j]).priority
        < s.ready[i].priority by {
        assert(precedes(s.policy, s.ready[i], s.ready[j]));
    }
}

/// Whether no two processes of `ready` differ in consumed CPU time by more than `bound`.
pub open spec fn spread_within(ready: Seq<Process>, bound: int) -> bool {
    forall|i: int, j: int|
        0 <= i < ready.len() && 0 <= j < ready.len() ==> (#[trigger] ready[i]).vruntime - (
        #[trigger] ready[j]).vruntime <= bound
}

/// The fair policy keeps a constant set of always-ready processes within one
/// timeslice of each other: where nobody sleeps and the consumed times of the
/// ready processes differ by at most the timeslice of a dispatch, they still
/// do after the one with the least was dispatched and ran until its timeslice
/// expired. The same processes are then ready again.
pub proof fn law_fair_share_spread(s: State)
    requires
        s.wf(),
        s.policy == Policy::Cfs,
        s.running is None,
        s.ready.len() > 0,
        forall|i: int| 0 <= i < s.waiting.len() ==> sleep_left(#[trigger] s.waiting[i]) is None,
        spread_within(s.ready, dispatch_slice(s.policy, s.quantum, s.ready.len()) as int),
    ensures
        ({
            let slice = dispatch_slice(s.policy, s.quantum, s.ready.len());
            let least = s.ready[pick_index(s.policy, s.ready)];
            let after = s.schedule().0.stop(StopReason::Expired).0;
            &&& forall|j: int|
                0 <= j < s.ready.len() ==> least.vruntime <= (#[trigger] s.ready[j]).vruntime
            &&& s.schedule().1 == (SchedulingDecision::Run { pid: least.pid, timeslice: slice })
            &&& after.wf()
            &&& after.policy == s.policy
            &&& after.quantum == s.quantum
            &&& after.running is None
            &&& after.waiting == s.waiting
            &&& after.ready.len() == s.ready.len()
            &&& after.ready.last().pid == least.pid
            &&& after.ready.last().vruntime == saturating_sum(least.vruntime, slice)
            &&& spread_within(after.ready, slice as int)
        }),
{
    lemma_pick_exists(s.policy, s.ready);
    lemma_schedule_wf(s);
    lemma_stop_wf(s.schedule().0, StopReason::Expired);
    let i = pick_index(s.policy, s.ready);
    let slice = dispatch_slice(s.policy, s.quantum, s.ready.len());
    lemma_time_wakes_no_event_waiter(s.waiting, slice, s.quantum);
    assert(s.ready.remove(i) + Seq::<Process>::empty() =~= s.ready.remove(i));
    let least = s.ready[i].vruntime;
    let most = saturating_sum(least, slice);
    let after = s.schedule().0.stop(StopReason::Expired).0;
    assert forall|j: int| 0 <= j < s.ready.len() implies least <= (
    #[trigger] s.ready[j]).vruntime by {
        assert(!precedes(s.policy, s.ready[j], s.ready[i]));
    }
    assert forall|j: int| 0 <= j < after.ready.len() implies least <= (
    #[trigger] after.ready[j]).vruntime <= most by {
        if j < after.ready.len() - 1 {
            let from = if j < i {
                j
            } else {
                j + 1
            };
            assert(after.ready[j].vruntime == s.ready[from].vruntime);
            assert(!precedes(s.policy, s.ready[from], s.ready[i]));
            assert(s.ready[from].vruntime - s.ready[i].vruntime <= slice);
        }
    }
}

/// The state after `n` rounds in each of which a process is dispatched and
/// runs until its timeslice expires.
pub open spec fn full_rounds(s: State, n: nat) -> State
    decreases n,
{
    if n == 0 {
        s
    } else {
        full_rounds(s, (n - 1) as nat).schedule().0.stop(StopReason::Expired).0
    }
}

/// Under the fair policy a constant set of always-ready processes stays
/// within one timeslice of each other however long it runs: where nobody
/// sleeps and the consumed times of the ready processes differ by at most the
/// timeslice of a dispatch, they still do after any number of rounds.
pub proof fn law_fair_share_over_rounds(s: State, n: nat)
    requires
        s.wf(),
        s.policy == Policy::Cfs,
        s.running is None,
        s.ready.len() > 0,
        forall|i: int| 0 <= i < s.waiting.len() ==> sleep_left(#[trigger] s.waiting[i]) is None,
        spread_within(s.ready, dispatch_slice(s.policy, s.quantum, s.ready.len()) as int),
    ensures
        ({
            let slice = dispatch_slice(s.policy, s.quantum, s.ready.len());
            let end = full_rounds(s, n);
            &&& end.wf()
            &&& end.policy == s.policy
            &&& end.quantum == s.quantum
            &&& end.running is None
            &&& end.waiting == s.waiting
            &&& end.ready.len() == s.ready.len()
            &&& spread_within(end.ready, slice as int)
        }),
    decreases n,
{
    if n > 0 {
        law_fair_share_over_rounds(s, (n - 1) as nat);
        law_fair_share_spread(full_rounds(s, (n - 1) as nat));
    }
}

/// The boundary of the minimum remaining timeslice is inclusive: the caller
/// of a system call that does not block, reporting exactly the configured
/// minimum, keeps the CPU, and the next decision is to run it on.
pub proof fn law_inclusive_boundary(s: State, syscall: Syscall)
    requires
        s.wf(),
        s.running is Some,
        !blocks(syscall),
        syscall is Fork ==> s.has_free_pid(),
    ensures
        ({
            let reason = StopReason::Syscall {
                syscall,
                remaining_timeslice: s.minimum_remaining_timeslice,
            };
            let after = s.stop(reason).0;
            &&& after.running matches Some(q) && q.pid == s.running.unwrap().pid && q.state
                == ProcessState::Running
            &&& after.schedule().0 == after
            &&& after.schedule().1 matches SchedulingDecision::Run { pid, .. } && pid
                == s.running.unwrap().pid
        }),
{
}

/// Every call that the engine accepts keeps the invariant, never lowers the
/// next identifier, and raises it by one exactly when its answer hands one
/// out, which is then the identifier that was next.
pub proof fn law_step_keeps_invariant(s: State, request: Request)
    requires
        s.wf(),
        s.accepts(request),
    ensures
        s.step(request).0.wf(),
        match issued(s.step(request).1) {
            Some(pid) => pid.0 == s.next_pid && s.step(request).0.next_pid == s.next_pid + 1,
            None => s.step(request).0.next_pid == s.next_pid,
        },
{
    match request {
        Request::NewProcess(priority) => {
            lemma_register_wf(s, priority);
        },
        Request::Schedule => {
            lemma_schedule_wf(s);
        },
        Request::Stop(reason) => {
            lemma_stop_wf(s, reason);
        },
    }
}

/// The invariant, and with it that at most one process is running, holds
/// after every call of a run that starts from a valid state, as long as
/// identifiers are left; and no call lowers the next identifier.
pub proof fn law_run_keeps_invariant(s: State, requests: Seq<Request>)
    requires
        s.wf(),
        s.next_pid + requests.len() <= usize::MAX,
    ensures
        s.run(requests).0.wf(),
        s.next_pid <= s.run(requests).0.next_pid <= s.next_pid + requests.len(),
        s.run(requests).1.len() == requests.len(),
    decreases requests.len(),
{
    if requests.len() > 0 {
        law_run_keeps_invariant(s, requests.drop_last());
        law_step_keeps_invariant(s.run(requests.drop_last()).0, requests.last());
    }
}

/// The next identifier never goes down in the course of a run.
pub proof fn lemma_next_pid_grows(s: State, requests: Seq<Request>, i: int, j: int)
    requires
        s.wf(),
        s.next_pid + requests.len() <= usize::MAX,
        0 <= i <= j <= requests.len(),
    ensures
        s.run(requests.take(i)).0.next_pid <= s.run(requests.take(j)).0.next_pid,
    decreases j - i,
{
    if i < j {
        lemma_next_pid_grows(s, requests, i, j - 1);
        law_run_keeps_invariant(s, requests.take(j - 1));
        lemma_run_unfold(s, requests, j - 1);
        law_step_keeps_invariant(s.run(requests.take(j - 1)).0, requests[j - 1]);
    }
}

/// Identifiers are positive, strictly increasing and never repeated: of two
/// answers of one run that each hand out an identifier, be it to a
/// registration or to a fork, the later one hands out the larger.
pub proof fn law_issued_pids_increase(s: State, requests: Seq<Request>, i: int, j: int)
    requires
        s.wf(),
        s.next_pid + requests.len() <= usize::MAX,
        0 <= i < j < requests.len(),
        issued(s.run(requests).1[i]) is Some,
        issued(s.run(requests).1[j]) is Some,
    ensures
        1 <= issued(s.run(requests).1[i]).unwrap().0 < issued(s.run(requests).1[j]).unwrap().0,
{
    let answers = s.run(requests).1;
    lemma_run_prefix(s, requests, i + 1);
    lemma_run_prefix(s, requests, j + 1);
    lemma_run_unfold(s, requests, i);
    lemma_run_unfold(s, requests, j);
    let at_i = s.run(requests.take(i)).0;
    let at_j = s.run(requests.take(j)).0;
    lemma_run_prefix(s, requests.take(i), i);
    lemma_run_prefix(s, requests.take(j), j);
    assert(answers[i] == answers.take(i + 1)[i]);
    assert(answers[j] == answers.take(j + 1)[j]);
    assert(answers[i] == at_i.step(requests[i]).1);
    assert(answers[j] == at_j.step(requests[j]).1);
    law_run_keeps_invariant(s, requests.take(i));
    law_run_keeps_invariant(s, requests.take(j));
    law_step_keeps_invariant(at_i, requests[i]);
    law_step_keeps_invariant(at_j, requests[j]);
    lemma_next_pid_grows(s, requests, i + 1, j);
}

/// The answers are a function of the configuration and the calls: two
/// engines built alike that take the same calls give the same answers and
/// end in the same state.
pub proof fn law_determinism(
    policy: Policy,
    quantum: usize,
    minimum: usize,
    first: Seq<Request>,
    second: Seq<Request>,
)
    requires
        first =~= second,
    ensures
        State::fresh(policy, quantum, minimum).run(first) == State::fresh(
            policy,
            quantum,
            minimum,
        ).run(second),
{
}

/// Waking neither loses a process nor makes one.
pub proof fn lemma_wake_tracks(s: State, cond: Wake, pid: Pid)
    ensures
        s.wake(cond).tracks(pid) == s.tracks(pid),
{
    let after = s.wake(cond);
    let risen = woken(s.waiting, cond, s.quantum);
    lemma_wake_pids(s.waiting, cond, s.quantum);
    if holds_pid(s.ready, pid) {
        let i = choose|i: int| 0 <= i < s.ready.len() && (#[trigger] s.ready[i]).pid == pid;
        assert(after.ready[i].pid == pid);
    }
    if holds_pid(s.waiting, pid) {
        lemma_wake_keeps_pid(s.waiting, cond, s.quantum, pid);
        if holds_pid(risen, pid) {
            let i = choose|i: int| 0 <= i < risen.len() && (#[trigger] risen[i]).pid == pid;
            assert(after.ready[s.ready.len() + i].pid == pid);
        }
    }
    if holds_pid(after.ready, pid) {
        let i = choose|i: int| 0 <= i < after.ready.len() && (#[trigger] after.ready[i]).pid == pid;
        if i < s.ready.len() {
            assert(s.ready[i].pid == pid);
        } else {
            assert(risen[i - s.ready.len()].pid == pid);
        }
    }
    if holds_pid(after.waiting, pid) {
        let i = choose|i: int|
            0 <= i < after.waiting.len() && (#[trigger] after.waiting[i]).pid == pid;
        assert(holds_pid(s.waiting, after.waiting[i].pid));
    }
}

/// A process put at the back of a queue is held there, beside those that were.
pub proof fn lemma_push_holds(queue: Seq<Process>, p: Process, pid: Pid)
    ensures
        holds_pid(queue.push(p), pid) == (holds_pid(queue, pid) || p.pid == pid),
{
    let longer = queue.push(p);
    if holds_pid(queue, pid) {
        let i = choose|i: int| 0 <= i < queue.len() && (#[trigger] queue[i]).pid == pid;
        assert(longer[i].pid == pid);
    }
    if p.pid == pid {
        assert(longer[queue.len() as int].pid == pid);
    }
    if holds_pid(longer, pid) {
        let i = choose|i: int| 0 <= i < longer.len() && (#[trigger] longer[i]).pid == pid;
        if i < queue.len() {
            assert(queue[i].pid == pid);
        }
    }
}

/// A process taken out of a queue of distinct identifiers is no longer held
/// there, and all the others are.
pub proof fn lemma_remove_holds(queue: Seq<Process>, at: int, pid: Pid)
    requires
        0 <= at < queue.len(),
        distinct_pids(queue),
    ensures
        holds_pid(queue.remove(at), pid) == (holds_pid(queue, pid) && queue[at].pid != pid),
{
    let shorter = queue.remove(at);
    if holds_pid(queue, pid) && queue[at].pid != pid {
        let i = choose|i: int| 0 <= i < queue.len() && (#[trigger] queue[i]).pid == pid;
        if i < at {
            assert(shorter[i].pid == pid);
        } else {
            assert(shorter[i - 1].pid == pid);
        }
    }
    if holds_pid(shorter, pid) {
        let i = choose|i: int| 0 <= i < shorter.len() && (#[trigger] shorter[i]).pid == pid;
        if i < at {
            assert(queue[i].pid == pid);
        } else {
            assert(queue[i + 1].pid == pid);
        }
    }
}

/// Choosing what runs next moves processes between the queues and the CPU,
/// and neither loses one nor makes one.
pub proof fn law_schedule_loses_nobody(s: State, pid: Pid)
    requires
        s.wf(),
    ensures
        s.schedule().0.tracks(pid) == s.tracks(pid),
{
    if s.running is None {
        if s.ready.len() > 0 {
            lemma_pick_exists(s.policy, s.ready);
            lemma_remove_holds(s.ready, pick_index(s.policy, s.ready), pid);
        } else if let Some(t) = earliest_wake(s.waiting) {
            lemma_wake_tracks(s, Wake::Elapsed(t), pid);
        }
    }
}

/// A stop loses only a process that exits and makes only the child of a
/// fork; every other process stays on, in a queue or on the CPU.
pub proof fn law_stop_loses_nobody(s: State, reason: StopReason, pid: Pid)
    requires
        s.wf(),
        s.running is Some && is_fork(reason) ==> s.has_free_pid(),
    ensures
        s.stop(reason).0.tracks(pid) == match (s.running, reason) {
            (Some(p), StopReason::Syscall { syscall: Syscall::Exit, .. }) => s.tracks(pid) && pid
                != p.pid,
            (Some(p), StopReason::Syscall { syscall: Syscall::Fork(_), .. }) => s.tracks(pid)
                || pid == Pid(s.next_pid),
            _ => s.tracks(pid),
        },
{
    if let Some(p) = s.running {
        let left = remaining_after(p, reason);
        let used = (p.remaining_timeslice - left) as usize;
        let q = charged(p, used, left);
        let now = s.wake(Wake::Elapsed(used));
        lemma_wake_tracks(s, Wake::Elapsed(used), pid);
        lemma_wake_wf(s, Wake::Elapsed(used));
        match reason {
            StopReason::Expired => {
                lemma_push_holds(now.ready, readied(q, s.quantum), pid);
            },
            StopReason::Syscall { syscall, remaining_timeslice } => {
                match syscall {
                    Syscall::Exit => {},
                    Syscall::Sleep(t) => {
                        lemma_push_holds(
                            now.waiting,
                            Process { state: ProcessState::Waiting(WaitReason::Sleep(t)), ..q },
                            pid,
                        );
                        lemma_push_holds(now.ready, readied(q, s.quantum), pid);
                    },
                    Syscall::Wait(e) => {
                        lemma_push_holds(
                            now.waiting,
                            Process { state: ProcessState::Waiting(WaitReason::Event(e)), ..q },
                            pid,
                        );
                    },
                    Syscall::Fork(priority) => {
                        let forked = now.register(priority);
                        lemma_push_holds(now.ready, forked.ready.last(), pid);
                        lemma_push_holds(forked.ready, readied(q, s.quantum), pid);
                    },
                    Syscall::Signal(e) => {
                        let signalled = now.wake(Wake::Signal(e));
                        lemma_wake_tracks(now, Wake::Signal(e), pid);
                        lemma_push_holds(signalled.ready, readied(q, s.quantum), pid);
                    },
                }
            },
        }
    }
}

/// With nothing running and nothing ready, the engine sleeps until the
/// earliest sleeper wakes, which is then ready; with nobody asleep it waits
/// for events where a process waits for one, and is done where none is left.
pub proof fn law_idle_decisions(s: State)
    requires
        s.wf(),
        s.running is None,
        s.ready.len() == 0,
    ensures
        match s.schedule().1 {
            SchedulingDecision::Sleep(t) => {
                &&& t > 0
                &&& is_earliest_wake(s.waiting, t)
                &&& s.schedule().0.ready.len() > 0
                &&& s.schedule().0.running is None
            },
            SchedulingDecision::Wait => {
                &&& s.waiting.len() > 0
                &&& forall|i: int|
                    0 <= i < s.waiting.len() ==> sleep_left(#[trigger] s.waiting[i]) is None
                &&& s.schedule().0 == s
            },
            SchedulingDecision::Done => s.waiting.len() == 0 && s.schedule().0 == s,
            _ => false,
        },
{
    let found = lemma_earliest_wake_found(s.waiting);
    if let Some(t) = found {
        let j = choose|j: int|
            0 <= j < s.waiting.len() && sleep_left(#[trigger] s.waiting[j]) == Some(t);
        assert(s.waiting[j].state == ProcessState::Waiting(WaitReason::Sleep(t)));
        assert(wakes(Wake::Elapsed(t), s.waiting[j]));
        s.waiting.lemma_filter_contains(wakes_fn(Wake::Elapsed(t)), j);
        assert(s.waiting.filter(wakes_fn(Wake::Elapsed(t))).len() > 0);
    }
}

/// The engine never answers that it is in a state it cannot resolve, and a
/// stop is answered with success, the child of a fork, or that nothing was running.
pub proof fn law_no_fatal_answers(s: State, reason: StopReason)
    ensures
        s.schedule().1 != SchedulingDecision::Panic,
        s.stop(reason).1 != SyscallResult::UnknownProcess,
        s.stop(reason).1 != SyscallResult::NotWaiting,
        s.stop(reason).1 == SyscallResult::NoRunningProcess <==> s.running is None,
        s.running is None ==> s.stop(reason).0 == s,
{
}

} // verus!
