//! The decisions of parallel extraction: which unit a bounded pool of workers
//! starts next, when to wait, and when the run is over. Units are started in
//! order; once one has failed no further unit starts, the units already
//! running are waited for, and the run ends with the first failure.
use vstd::prelude::*;

verus! {

/// What the pool is to do next.
#[derive(Debug, Clone, Copy, PartialEq, Eq)]
pub enum PoolAction {
    /// Hand unit `i` to a free worker.
    Start(usize),
    /// Wait for a running unit to finish.
    Wait,
    /// The run is over: `None` when every unit succeeded, else the first unit
    /// that was reported failed.
    Done(Option<usize>),
}

/// The state of a run as numbers: units in all, worker bound, units started,
/// units running, and the first unit reported failed.
pub struct PoolState {
    pub total: nat,
    pub workers: nat,
    pub started: nat,
    pub running: nat,
    pub failure: Option<nat>,
}

impl PoolState {
    pub open spec fn wf(self) -> bool {
        &&& 1 <= self.workers
        &&& self.started <= self.total
        &&& self.running <= self.workers
        &&& self.running <= self.started
        &&& self.failure matches Some(i) ==> i < self.started
    }

    /// The action that follows this state.
    pub open spec fn action(self) -> PoolAction {
        if self.failure is None && self.started < self.total && self.running < self.workers {
            PoolAction::Start(self.started as usize)
        } else if self.running > 0 {
            PoolAction::Wait
        } else {
            PoolAction::Done(
                match self.failure {
                    Some(i) => Some(i as usize),
                    None => None,
                },
            )
        }
    }
}

/// The scheduler of one extraction run over `total` units.
pub struct Schedule {
    total: usize,
    workers: usize,
    started: usize,
    running: usize,
    failure: Option<usize>,
}

impl View for Schedule {
    type V = PoolState;

    closed spec fn view(&self) -> PoolState {
        PoolState {
            total: self.total as nat,
            workers: self.workers as nat,
            started: self.started as nat,
            running: self.running as nat,
            failure: match self.failure {
                Some(i) => Some(i as nat),
                None => None,
            },
        }
    }
}

impl Schedule {
    /// A run over `total` units with at most `workers` of them running at
    /// once; a bound of zero is taken as one.
    pub fn new(total: usize, workers: usize) -> (r: Schedule)
        ensures
            r@.wf(),
            r@ == (PoolState {
                total: total as nat,
                workers: if workers == 0 { 1 } else { workers as nat },
                started: 0,
                running: 0,
                failure: None,
            }),
    {
        let workers = if workers == 0 { 1 } else { workers };
        Schedule { total, workers, started: 0, running: 0, failure: None }
    }

    /// The next action; starting a unit counts it as started and running.
    /// No unit starts once a failure has been reported.
    pub fn next_action(&mut self) -> (r: PoolAction)
        requires
            old(self)@.wf(),
        ensures
            final(self)@.wf(),
            r == old(self)@.action(),
            match r {
                PoolAction::Start(i) => final(self)@ == (PoolState {
                    started: old(self)@.started + 1,
                    running: old(self)@.running + 1,
                    ..old(self)@
                }),
                _ => final(self)@ == old(self)@,
            },
            old(self)@.failure is Some ==> !(r is Start),
    {
        if self.failure.is_none() && self.started < self.total && self.running < self.workers {
            let i = self.started;
            self.started = self.started + 1;
            self.running = self.running + 1;
            PoolAction::Start(i)
        } else if self.running > 0 {
            PoolAction::Wait
        } else {
            PoolAction::Done(self.failure)
        }
    }

    /// Records that running unit `unit` finished, and whether it succeeded;
    /// only the first failure reported is kept.
    pub fn finished(&mut self, unit: usize, ok: bool)
        requires
            old(self)@.wf(),
            old(self)@.running > 0,
            unit < old(self)@.started,
        ensures
            final(self)@.wf(),
            final(self)@ == (PoolState {
                running: (old(self)@.running - 1) as nat,
                failure: if old(self)@.failure is None && !ok {
                    Some(unit as nat)
                } else {
                    old(self)@.failure
                },
                ..old(self)@
            }),
    {
        self.running = self.running - 1;
        if self.failure.is_none() && !ok {
            self.failure = Some(unit);
        }
    }
}

/// How far a run is from its end: every start and every finish brings it
/// closer, so a pool that acts on each decision and reports each finish ends.
pub open spec fn remaining_work(s: PoolState) -> nat {
    (2 * (s.total - s.started) + s.running) as nat
}

/// Progress: while the run is not over, starting a unit or finishing one
/// lowers the remaining work, and a state whose action is `Done` has no unit
/// running and, without a failure, every unit started.
pub proof fn lemma_schedule_progress(s: PoolState, unit: nat, ok: bool)
    requires
        s.wf(),
    ensures
        s.action() is Start ==> remaining_work(
            PoolState { started: s.started + 1, running: s.running + 1, ..s },
        ) < remaining_work(s),
        s.running > 0 ==> remaining_work(
            PoolState {
                running: (s.running - 1) as nat,
                failure: if s.failure is None && !ok { Some(unit) } else { s.failure },
                ..s
            },
        ) < remaining_work(s),
        s.action() is Done ==> s.running == 0 && (s.failure is None ==> s.started == s.total),
{
}

} // verus!
