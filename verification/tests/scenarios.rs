use scheduler::{
    cfs, priority_queue, round_robin, ConfigError, Pid, Policy, Process, ProcessState, Scheduler,
    SchedulingDecision, StopReason, Syscall, SyscallResult, WaitReason,
};

fn run(pid: usize, timeslice: usize) -> SchedulingDecision {
    SchedulingDecision::Run { pid: Pid(pid), timeslice }
}

fn syscall(syscall: Syscall, remaining_timeslice: usize) -> StopReason {
    StopReason::Syscall { syscall, remaining_timeslice }
}

fn pids(queue: &Vec<Process>) -> Vec<usize> {
    queue.iter().map(|p| p.pid.0).collect()
}

fn snapshot(s: &Scheduler) -> (Vec<Process>, Vec<Process>, Option<Process>) {
    (s.ready().clone(), s.waiting().clone(), s.running())
}

#[test]
fn zero_quantum_is_rejected() {
    assert!(matches!(round_robin(0, 0), Err(ConfigError::ZeroQuantum)));
    assert!(matches!(priority_queue(0, 3), Err(ConfigError::ZeroQuantum)));
    assert!(matches!(cfs(0, 1), Err(ConfigError::ZeroQuantum)));
    assert!(matches!(Scheduler::new(Policy::Cfs, 0, 0), Err(ConfigError::ZeroQuantum)));
}

#[test]
fn fresh_engine_is_empty_and_done() {
    let mut s = round_robin(4, 1).unwrap();
    assert_eq!(s.policy(), Policy::RoundRobin);
    assert_eq!(s.quantum(), 4);
    assert_eq!(s.minimum_remaining_timeslice(), 1);
    assert!(s.ready().is_empty());
    assert!(s.waiting().is_empty());
    assert_eq!(s.running(), None);
    assert!(s.has_free_pid());
    assert_eq!(s.schedule(), SchedulingDecision::Done);
    assert_eq!(priority_queue(4, 1).unwrap().policy(), Policy::PriorityRoundRobin);
    assert_eq!(cfs(4, 1).unwrap().policy(), Policy::Cfs);
}

#[test]
fn first_process_runs_with_the_quantum_round_robin() {
    let mut s = round_robin(3, 1).unwrap();
    assert_eq!(s.new_process(0), Pid(1));
    assert_eq!(s.schedule(), run(1, 3));
    assert_eq!(
        s.running(),
        Some(Process {
            pid: Pid(1),
            state: ProcessState::Running,
            priority: 0,
            remaining_timeslice: 3,
            vruntime: 0,
        })
    );
    assert!(s.ready().is_empty());
}

#[test]
fn first_process_runs_with_the_quantum_priority() {
    let mut s = priority_queue(5, 1).unwrap();
    assert_eq!(s.new_process(2), Pid(1));
    assert_eq!(s.schedule(), run(1, 5));
}

#[test]
fn first_process_runs_with_the_whole_budget_cfs() {
    let mut s = cfs(10, 1).unwrap();
    assert_eq!(s.new_process(0), Pid(1));
    assert_eq!(s.schedule(), run(1, 10));
}

#[test]
fn round_robin_takes_turns() {
    let mut s = round_robin(2, 1).unwrap();
    assert_eq!(s.new_process(0), Pid(1));
    assert_eq!(s.new_process(0), Pid(2));
    assert_eq!(s.schedule(), run(1, 2));
    assert_eq!(s.stop(StopReason::Expired), SyscallResult::Success);
    assert_eq!(pids(s.ready()), vec![2, 1]);
    assert_eq!(s.running(), None);
    assert_eq!(s.ready()[1].state, ProcessState::Ready);
    assert_eq!(s.ready()[1].remaining_timeslice, 2);
    assert_eq!(s.ready()[1].vruntime, 2);
    assert_eq!(s.schedule(), run(2, 2));
    assert_eq!(s.stop(StopReason::Expired), SyscallResult::Success);
    assert_eq!(s.schedule(), run(1, 2));
}

#[test]
fn sole_process_sleeping_gives_sleep() {
    let mut s = round_robin(3, 0).unwrap();
    s.new_process(0);
    assert_eq!(s.schedule(), run(1, 3));
    assert_eq!(s.stop(syscall(Syscall::Sleep(5), 1)), SyscallResult::Success);
    assert_eq!(s.running(), None);
    assert_eq!(s.waiting().len(), 1);
    assert_eq!(s.waiting()[0].state, ProcessState::Waiting(WaitReason::Sleep(5)));
    assert_eq!(s.waiting()[0].vruntime, 2);
    assert_eq!(s.schedule(), SchedulingDecision::Sleep(5));
    assert!(s.waiting().is_empty());
    assert_eq!(pids(s.ready()), vec![1]);
    assert_eq!(s.ready()[0].state, ProcessState::Ready);
    assert_eq!(s.schedule(), run(1, 3));
}

#[test]
fn stop_with_nothing_running_changes_nothing() {
    let mut s = round_robin(3, 0).unwrap();
    assert_eq!(s.stop(StopReason::Expired), SyscallResult::NoRunningProcess);
    s.new_process(0);
    s.new_process(0);
    let before = snapshot(&s);
    assert_eq!(s.stop(StopReason::Expired), SyscallResult::NoRunningProcess);
    assert_eq!(s.stop(syscall(Syscall::Exit, 1)), SyscallResult::NoRunningProcess);
    assert_eq!(s.stop(syscall(Syscall::Fork(0), 1)), SyscallResult::NoRunningProcess);
    assert_eq!(snapshot(&s), before);
    assert_eq!(s.new_process(0), Pid(3));
}

#[test]
fn pids_are_positive_and_increase() {
    let mut s = priority_queue(3, 0).unwrap();
    let mut last = 0;
    for k in 0..20 {
        let Pid(p) = s.new_process((k % 5) as i8);
        assert!(p > last);
        assert_eq!(p, k + 1);
        last = p;
    }
    assert_eq!(s.schedule(), run(5, 3));
    assert_eq!(s.stop(syscall(Syscall::Fork(9), 3)), SyscallResult::NewPid(Pid(21)));
    assert_eq!(s.stop(syscall(Syscall::Exit, 2)), SyscallResult::Success);
    assert_eq!(s.new_process(0), Pid(22));
}

#[test]
fn only_the_running_slot_holds_a_running_process() {
    let mut s = round_robin(2, 0).unwrap();
    for _ in 0..4 {
        s.new_process(0);
    }
    for step in 0..12 {
        assert!(matches!(s.schedule(), SchedulingDecision::Run { .. }));
        assert_eq!(s.running().unwrap().state, ProcessState::Running);
        assert!(s.ready().iter().all(|p| p.state == ProcessState::Ready));
        assert!(s.waiting().iter().all(|p| matches!(p.state, ProcessState::Waiting(_))));
        let reason = match step % 3 {
            0 => StopReason::Expired,
            1 => syscall(Syscall::Wait(1), 1),
            _ => syscall(Syscall::Signal(1), 0),
        };
        s.stop(reason);
        assert!(s.ready().iter().all(|p| p.state == ProcessState::Ready));
        assert!(s.waiting().iter().all(|p| matches!(p.state, ProcessState::Waiting(_))));
        assert_eq!(s.ready().len() + s.waiting().len() + s.running().iter().count(), 4);
    }
}

#[test]
fn schedule_repeats_itself_while_a_process_runs() {
    let mut s = round_robin(4, 0).unwrap();
    s.new_process(0);
    s.new_process(0);
    assert_eq!(s.schedule(), run(1, 4));
    let before = snapshot(&s);
    assert_eq!(s.schedule(), run(1, 4));
    assert_eq!(snapshot(&s), before);
}

#[test]
fn priority_goes_first_and_starves_the_rest() {
    let mut s = priority_queue(2, 1).unwrap();
    s.new_process(1);
    s.new_process(5);
    s.new_process(5);
    s.new_process(3);
    assert_eq!(s.schedule(), run(2, 2));
    s.stop(StopReason::Expired);
    assert_eq!(pids(s.ready()), vec![1, 3, 4, 2]);
    assert_eq!(s.schedule(), run(3, 2));
    s.stop(StopReason::Expired);
    assert_eq!(s.schedule(), run(2, 2));
    s.stop(syscall(Syscall::Exit, 1));
    assert_eq!(s.schedule(), run(3, 2));
    s.stop(syscall(Syscall::Exit, 1));
    assert_eq!(s.schedule(), run(4, 2));
    s.stop(StopReason::Expired);
    assert_eq!(s.schedule(), run(4, 2));
    s.stop(syscall(Syscall::Exit, 0));
    assert_eq!(s.schedule(), run(1, 2));
    s.stop(syscall(Syscall::Exit, 0));
    assert_eq!(s.schedule(), SchedulingDecision::Done);
}

#[test]
fn negative_priorities_order_as_integers() {
    let mut s = priority_queue(1, 0).unwrap();
    s.new_process(-128);
    s.new_process(-1);
    s.new_process(127);
    assert_eq!(s.schedule(), run(3, 1));
    s.stop(syscall(Syscall::Exit, 0));
    assert_eq!(s.schedule(), run(2, 1));
}

#[test]
fn cfs_divides_the_budget_among_the_ready() {
    let mut s = cfs(10, 0).unwrap();
    s.new_process(0);
    s.new_process(0);
    s.new_process(0);
    assert_eq!(s.schedule(), run(1, 3));
    s.stop(StopReason::Expired);
    assert_eq!(s.schedule(), run(2, 3));
    s.stop(syscall(Syscall::Exit, 0));
    assert_eq!(s.schedule(), run(3, 5));
    s.stop(syscall(Syscall::Exit, 0));
    assert_eq!(s.schedule(), run(1, 10));
}

#[test]
fn cfs_grants_at_least_one_tick() {
    let mut s = cfs(2, 0).unwrap();
    s.new_process(0);
    s.new_process(0);
    s.new_process(0);
    assert_eq!(s.schedule(), run(1, 1));
}

#[test]
fn cfs_picks_the_least_vruntime_earliest_first() {
    let mut s = cfs(8, 0).unwrap();
    s.new_process(0);
    s.new_process(0);
    assert_eq!(s.schedule(), run(1, 4));
    // Pid 1 consumes three ticks, then blocks.
    s.stop(syscall(Syscall::Wait(1), 1));
    assert_eq!(s.schedule(), run(2, 8));
    // Pid 2 wakes pid 1 after one tick and keeps the CPU: the minimum is zero.
    assert_eq!(s.stop(syscall(Syscall::Signal(1), 7)), SyscallResult::Success);
    assert_eq!(s.running().unwrap().pid, Pid(2));
    assert_eq!(s.running().unwrap().vruntime, 1);
    s.stop(StopReason::Expired);
    assert_eq!(pids(s.ready()), vec![1, 2]);
    assert_eq!(s.ready()[0].vruntime, 3);
    assert_eq!(s.ready()[1].vruntime, 8);
    assert_eq!(s.schedule(), run(1, 4));
    s.stop(StopReason::Expired);
    assert_eq!(s.ready()[1].vruntime, 7);
    // Pid 1 has consumed 7 ticks, pid 2 has consumed 8: pid 1 again, from behind pid 2.
    assert_eq!(pids(s.ready()), vec![2, 1]);
    assert_eq!(s.schedule(), run(1, 4));
    s.stop(StopReason::Expired);
    assert_eq!(s.schedule(), run(2, 4));
}

#[test]
fn cfs_keeps_always_ready_processes_within_one_slice() {
    let mut s = cfs(9, 0).unwrap();
    for _ in 0..3 {
        s.new_process(0);
    }
    for _ in 0..100 {
        let decision = s.schedule();
        assert!(matches!(decision, SchedulingDecision::Run { timeslice: 3, .. }));
        s.stop(StopReason::Expired);
        let most = s.ready().iter().map(|p| p.vruntime).max().unwrap();
        let least = s.ready().iter().map(|p| p.vruntime).min().unwrap();
        assert!(most - least <= 3);
    }
    assert_eq!(s.ready().iter().map(|p| p.vruntime).sum::<usize>(), 300);
}

#[test]
fn vruntime_saturates() {
    let mut s = cfs(usize::MAX, 0).unwrap();
    s.new_process(0);
    assert_eq!(s.schedule(), run(1, usize::MAX));
    s.stop(StopReason::Expired);
    assert_eq!(s.ready()[0].vruntime, usize::MAX);
    assert_eq!(s.schedule(), run(1, usize::MAX));
    s.stop(syscall(Syscall::Signal(0), usize::MAX - 1));
    assert_eq!(s.running().unwrap().vruntime, usize::MAX);
}

#[test]
fn exactly_the_minimum_keeps_the_cpu() {
    let mut s = round_robin(5, 2).unwrap();
    s.new_process(0);
    s.new_process(0);
    assert_eq!(s.schedule(), run(1, 5));
    assert_eq!(s.stop(syscall(Syscall::Signal(3), 2)), SyscallResult::Success);
    assert_eq!(s.running().unwrap().pid, Pid(1));
    assert_eq!(s.running().unwrap().vruntime, 3);
    assert_eq!(s.schedule(), run(1, 2));
    assert_eq!(s.stop(syscall(Syscall::Signal(3), 1)), SyscallResult::Success);
    assert_eq!(s.running(), None);
    assert_eq!(pids(s.ready()), vec![2, 1]);
    assert_eq!(s.ready()[1].vruntime, 4);
    assert_eq!(s.schedule(), run(2, 5));
}

#[test]
fn a_zero_minimum_always_keeps_the_cpu() {
    let mut s = round_robin(5, 0).unwrap();
    s.new_process(0);
    s.new_process(0);
    s.schedule();
    s.stop(syscall(Syscall::Signal(3), 0));
    assert_eq!(s.schedule(), run(1, 0));
    s.stop(StopReason::Expired);
    assert_eq!(s.schedule(), run(2, 5));
}

#[test]
fn a_report_above_the_grant_is_cut_to_the_grant() {
    let mut s = round_robin(5, 2).unwrap();
    s.new_process(0);
    s.schedule();
    s.stop(syscall(Syscall::Sleep(0), 9));
    assert_eq!(s.running().unwrap().remaining_timeslice, 5);
    assert_eq!(s.running().unwrap().vruntime, 0);
    assert_eq!(s.schedule(), run(1, 5));
}

#[test]
fn fork_registers_a_child_behind_the_others() {
    let mut s = priority_queue(4, 2).unwrap();
    s.new_process(1);
    s.new_process(1);
    assert_eq!(s.schedule(), run(1, 4));
    assert_eq!(s.stop(syscall(Syscall::Fork(7), 3)), SyscallResult::NewPid(Pid(3)));
    assert_eq!(pids(s.ready()), vec![2, 3]);
    assert_eq!(s.ready()[1].priority, 7);
    assert_eq!(s.ready()[1].state, ProcessState::Ready);
    assert_eq!(s.ready()[1].vruntime, 0);
    assert_eq!(s.schedule(), run(1, 3));
    // Below the minimum the parent yields, behind its child.
    assert_eq!(s.stop(syscall(Syscall::Fork(0), 1)), SyscallResult::NewPid(Pid(4)));
    assert_eq!(pids(s.ready()), vec![2, 3, 4, 1]);
    assert_eq!(s.schedule(), run(3, 4));
}

#[test]
fn exit_drops_the_process_for_good() {
    let mut s = round_robin(3, 0).unwrap();
    s.new_process(0);
    s.schedule();
    assert_eq!(s.stop(syscall(Syscall::Exit, 3)), SyscallResult::Success);
    assert_eq!(s.running(), None);
    assert!(s.ready().is_empty());
    assert!(s.waiting().is_empty());
    assert_eq!(s.schedule(), SchedulingDecision::Done);
}

#[test]
fn signal_wakes_every_waiter_of_the_event_in_order() {
    let mut s = round_robin(3, 1).unwrap();
    for _ in 0..5 {
        s.new_process(0);
    }
    for (pid, event) in [(1, 7), (2, 8), (3, 7)] {
        assert_eq!(s.schedule(), run(pid, 3));
        assert_eq!(s.stop(syscall(Syscall::Wait(event), 2)), SyscallResult::Success);
    }
    assert_eq!(pids(s.waiting()), vec![1, 2, 3]);
    assert_eq!(s.schedule(), run(4, 3));
    // Nobody waits for event 9.
    assert_eq!(s.stop(syscall(Syscall::Signal(9), 2)), SyscallResult::Success);
    assert_eq!(pids(s.waiting()), vec![1, 2, 3]);
    assert_eq!(s.schedule(), run(4, 2));
    // Below the minimum: the woken stand in front of the caller.
    assert_eq!(s.stop(syscall(Syscall::Signal(7), 0)), SyscallResult::Success);
    assert_eq!(pids(s.waiting()), vec![2]);
    assert_eq!(pids(s.ready()), vec![5, 1, 3, 4]);
    assert!(s.ready().iter().all(|p| p.state == ProcessState::Ready));
    assert!(s.ready().iter().all(|p| p.remaining_timeslice == 3));
}

#[test]
fn only_event_waiters_left_gives_wait() {
    let mut s = cfs(3, 0).unwrap();
    s.new_process(0);
    s.schedule();
    s.stop(syscall(Syscall::Wait(4), 1));
    let before = snapshot(&s);
    assert_eq!(s.schedule(), SchedulingDecision::Wait);
    assert_eq!(snapshot(&s), before);
    assert_eq!(s.new_process(0), Pid(2));
    assert_eq!(s.schedule(), run(2, 3));
}

#[test]
fn sleepers_wake_earliest_first() {
    let mut s = round_robin(4, 0).unwrap();
    s.new_process(0);
    s.new_process(0);
    s.new_process(0);
    s.schedule();
    s.stop(syscall(Syscall::Sleep(8), 4));
    s.schedule();
    s.stop(syscall(Syscall::Sleep(5), 4));
    s.schedule();
    s.stop(syscall(Syscall::Wait(1), 4));
    assert_eq!(s.schedule(), SchedulingDecision::Sleep(5));
    assert_eq!(pids(s.ready()), vec![2]);
    assert_eq!(pids(s.waiting()), vec![1, 3]);
    assert_eq!(s.waiting()[0].state, ProcessState::Waiting(WaitReason::Sleep(3)));
    assert_eq!(s.waiting()[1].state, ProcessState::Waiting(WaitReason::Event(1)));
    assert_eq!(s.schedule(), run(2, 4));
    s.stop(syscall(Syscall::Exit, 4));
    assert_eq!(s.schedule(), SchedulingDecision::Sleep(3));
    assert_eq!(s.schedule(), run(1, 4));
    s.stop(syscall(Syscall::Exit, 0));
    assert_eq!(s.schedule(), SchedulingDecision::Wait);
}

#[test]
fn running_time_passes_for_sleepers() {
    let mut s = round_robin(4, 0).unwrap();
    s.new_process(0);
    s.new_process(0);
    s.new_process(0);
    assert_eq!(s.schedule(), run(1, 4));
    s.stop(syscall(Syscall::Sleep(8), 0));
    assert_eq!(s.waiting()[0].state, ProcessState::Waiting(WaitReason::Sleep(8)));
    assert_eq!(s.schedule(), run(2, 4));
    s.stop(syscall(Syscall::Sleep(5), 0));
    assert_eq!(s.waiting()[0].state, ProcessState::Waiting(WaitReason::Sleep(4)));
    assert_eq!(s.waiting()[1].state, ProcessState::Waiting(WaitReason::Sleep(5)));
    assert_eq!(s.schedule(), run(3, 4));
    s.stop(syscall(Syscall::Wait(1), 0));
    assert_eq!(pids(s.ready()), vec![1]);
    assert_eq!(pids(s.waiting()), vec![2, 3]);
    assert_eq!(s.waiting()[0].state, ProcessState::Waiting(WaitReason::Sleep(1)));
    assert_eq!(s.schedule(), run(1, 4));
    s.stop(syscall(Syscall::Exit, 4));
    assert_eq!(s.waiting()[0].state, ProcessState::Waiting(WaitReason::Sleep(1)));
    assert_eq!(s.schedule(), SchedulingDecision::Sleep(1));
    assert_eq!(pids(s.ready()), vec![2]);
    assert_eq!(pids(s.waiting()), vec![3]);
    assert_eq!(s.schedule(), run(2, 4));
    s.stop(syscall(Syscall::Exit, 0));
    assert_eq!(s.schedule(), SchedulingDecision::Wait);
}

#[test]
fn a_sleeper_woken_by_an_expiry_stands_before_the_expired() {
    let mut s = round_robin(3, 0).unwrap();
    s.new_process(0);
    s.new_process(0);
    assert_eq!(s.schedule(), run(1, 3));
    s.stop(syscall(Syscall::Sleep(2), 3));
    assert_eq!(s.schedule(), run(2, 3));
    assert_eq!(s.stop(StopReason::Expired), SyscallResult::Success);
    assert_eq!(pids(s.ready()), vec![1, 2]);
    assert!(s.waiting().is_empty());
    assert_eq!(s.ready()[0].state, ProcessState::Ready);
    assert_eq!(s.schedule(), run(1, 3));
}

#[test]
fn equal_sleepers_wake_together_in_waiting_order() {
    let mut s = round_robin(4, 0).unwrap();
    s.new_process(0);
    s.new_process(0);
    s.schedule();
    s.stop(syscall(Syscall::Sleep(6), 4));
    s.schedule();
    s.stop(syscall(Syscall::Sleep(6), 4));
    assert_eq!(s.schedule(), SchedulingDecision::Sleep(6));
    assert_eq!(pids(s.ready()), vec![1, 2]);
    assert!(s.waiting().is_empty());
}

#[test]
fn sleeping_for_zero_ticks_does_not_block() {
    let mut s = round_robin(4, 2).unwrap();
    s.new_process(0);
    s.new_process(0);
    s.schedule();
    assert_eq!(s.stop(syscall(Syscall::Sleep(0), 3)), SyscallResult::Success);
    assert_eq!(s.running().unwrap().pid, Pid(1));
    assert!(s.waiting().is_empty());
    assert_eq!(s.stop(syscall(Syscall::Sleep(0), 1)), SyscallResult::Success);
    assert_eq!(pids(s.ready()), vec![2, 1]);
    assert!(s.waiting().is_empty());
}

fn replay(mut s: Scheduler) -> Vec<String> {
    let mut out = Vec::new();
    for k in 0..6 {
        out.push(format!("{:?}", s.new_process((k % 3) as i8)));
    }
    for step in 0..60 {
        out.push(format!("{:?}", s.schedule()));
        let reason = match step % 7 {
            0 => StopReason::Expired,
            1 => syscall(Syscall::Sleep(step), 1),
            2 => syscall(Syscall::Fork(2), 2),
            3 => syscall(Syscall::Wait(step % 2), 0),
            4 => syscall(Syscall::Signal(step % 2), 1),
            5 => syscall(Syscall::Signal(1), 3),
            _ => syscall(Syscall::Exit, 0),
        };
        out.push(format!("{:?}", s.stop(reason)));
    }
    out
}

#[test]
fn the_same_calls_give_the_same_answers() {
    assert_eq!(replay(round_robin(3, 2).unwrap()), replay(round_robin(3, 2).unwrap()));
    assert_eq!(replay(priority_queue(3, 2).unwrap()), replay(priority_queue(3, 2).unwrap()));
    assert_eq!(replay(cfs(7, 1).unwrap()), replay(cfs(7, 1).unwrap()));
    assert_ne!(replay(round_robin(3, 2).unwrap()), replay(cfs(7, 1).unwrap()));
}

#[test]
fn no_process_is_lost_or_doubled() {
    let mut s = priority_queue(3, 1).unwrap();
    for k in 0..5 {
        s.new_process(k);
    }
    let mut alive: Vec<usize> = vec![1, 2, 3, 4, 5];
    for step in 0..80usize {
        let decision = s.schedule();
        let reason = match step % 6 {
            0 => StopReason::Expired,
            1 => syscall(Syscall::Sleep(2), 1),
            2 => syscall(Syscall::Wait(3), 0),
            3 => syscall(Syscall::Signal(3), 0),
            4 => syscall(Syscall::Fork(1), 2),
            _ => syscall(Syscall::Exit, 0),
        };
        let running = s.running().map(|p| p.pid.0);
        match (s.stop(reason), decision) {
            (SyscallResult::NewPid(Pid(child)), _) => alive.push(child),
            (SyscallResult::Success, _) if step % 6 == 5 => {
                alive.retain(|pid| Some(*pid) != running)
            }
            (SyscallResult::NoRunningProcess, SchedulingDecision::Run { .. }) => {
                panic!("a dispatched process was not running")
            }
            _ => {}
        }
        let mut held: Vec<usize> = pids(s.ready());
        held.extend(pids(s.waiting()));
        held.extend(s.running().iter().map(|p| p.pid.0));
        held.sort();
        let mut expected = alive.clone();
        expected.sort();
        assert_eq!(held, expected);
    }
}
