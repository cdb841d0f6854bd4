//! Runs of the engine: sequences of calls and the answers they get.

use vstd::prelude::*;
use crate::model::{is_fork, State};
use crate::process::{Pid, SchedulingDecision, StopReason, SyscallResult};

verus! {

/// One call of the engine.
#[derive(Clone, Copy, Debug, PartialEq, Eq, Structural)]
pub enum Request {
    /// Register a process of this priority.
    NewProcess(i8),
    /// Choose what runs next.
    Schedule,
    /// The running process stopped.
    Stop(StopReason),
}

/// The answer to one call.
#[derive(Clone, Copy, Debug, PartialEq, Eq, Structural)]
pub enum Response {
    Registered(Pid),
    Decision(SchedulingDecision),
    Stopped(SyscallResult),
}

/// The identifier that an answer hands out, if it hands one out.
pub open spec fn issued(response: Response) -> Option<Pid> {
    match response {
        Response::Registered(pid) => Some(pid),
        Response::Stopped(SyscallResult::NewPid(pid)) => Some(pid),
        _ => None,
    }
}

impl State {
    /// Whether the engine can take the call: one that registers a process
    /// needs a free identifier.
    pub open spec fn accepts(self, request: Request) -> bool {
        match request {
            Request::NewProcess(_) => self.has_free_pid(),
            Request::Schedule => true,
            Request::Stop(reason) => self.running is Some && is_fork(reason)
                ==> self.has_free_pid(),
        }
    }

    /// What one call changes and answers.
    pub open spec fn step(self, request: Request) -> (State, Response) {
        match request {
            Request::NewProcess(priority) => (
                self.register(priority),
                Response::Registered(Pid(self.next_pid)),
            ),
            Request::Schedule => (self.schedule().0, Response::Decision(self.schedule().1)),
            Request::Stop(reason) => (self.stop(reason).0, Response::Stopped(self.stop(reason).1)),
        }
    }

    /// What a sequence of calls, made in order, changes and answers.
    pub open spec fn run(self, requests: Seq<Request>) -> (State, Seq<Response>)
        decreases requests.len(),
    {
        if requests.len() == 0 {
            (self, Seq::empty())
        } else {
            let (before, answers) = self.run(requests.drop_last());
            let (after, answer) = before.step(requests.last());
            (after, answers.push(answer))
        }
    }
}

/// A run of the first `k + 1` calls is a run of the first `k` and one step.
pub proof fn lemma_run_unfold(s: State, requests: Seq<Request>, k: int)
    requires
        0 <= k < requests.len(),
    ensures
        s.run(requests.take(k + 1)).0 == s.run(requests.take(k)).0.step(requests[k]).0,
        s.run(requests.take(k + 1)).1 == s.run(requests.take(k)).1.push(
            s.run(requests.take(k)).0.step(requests[k]).1,
        ),
{
    assert(requests.take(k + 1).drop_last() =~= requests.take(k));
    assert(requests.take(k + 1).last() == requests[k]);
}

/// Every call gets one answer, and the answers to the first `k` calls do not
/// depend on the calls that follow.
pub proof fn lemma_run_prefix(s: State, requests: Seq<Request>, k: int)
    requires
        0 <= k <= requests.len(),
    ensures
        s.run(requests).1.len() == requests.len(),
        s.run(requests.take(k)).1 == s.run(requests).1.take(k),
    decreases requests.len(),
{
    if requests.len() == 0 {
        assert(requests.take(k) =~= requests);
        assert(s.run(requests).1.take(k) =~= s.run(requests).1);
    } else {
        let front = requests.drop_last();
        lemma_run_prefix(s, front, front.len() as int);
        if k == requests.len() {
            assert(requests.take(k) =~= requests);
            assert(s.run(requests).1.take(k) =~= s.run(requests).1);
        } else {
            lemma_run_prefix(s, front, k);
            assert(front.take(k) =~= requests.take(k));
            assert(s.run(requests).1.take(k) =~= s.run(front).1.take(k));
        }
    }
}

} // verus!
