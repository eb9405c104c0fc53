//! The scheduler as a mathematical state machine: its state, its
//! transitions, and the invariant that every reachable state satisfies.

use crate::policy::{slice_len, Algorithm, Config};
use crate::process::{Process, ProcessState};
use crate::record::{Dispatch, ProcessRecord};
use vstd::prelude::*;

verus! {

/// The termination handshake. `Stopped` is terminal and is entered only from
/// `DrainRequested`, and only once nothing is left to run.
#[derive(Clone, Copy, Debug, PartialEq, Eq, Structural)]
pub enum Phase {
    /// Arrivals are accepted and dispatched.
    Running,
    /// No more work is expected; what is queued is still dispatched.
    DrainRequested,
    /// The ready queue has drained after a drain request.
    Stopped,
}

/// What one step of the scheduler did.
#[derive(Clone, Copy, Debug, PartialEq, Eq, Structural)]
pub enum Action {
    /// Nothing was ready to run.
    Idle,
    /// The scheduler has stopped.
    Stopped,
    /// A process ran for one slice.
    Ran {
        /// Position of the process in admission order.
        process: usize,
        /// Tick at which the slice began.
        start_tick: u128,
        /// Quantum-units that the slice lasted.
        slice: usize,
        /// Whether the slice completed the process.
        finished: bool,
    },
}

/// Work that the log attributes to process `id`: the sum of its slices.
pub open spec fn dispatched(log: Seq<Dispatch>, id: int) -> int
    decreases log.len(),
{
    if log.len() == 0 {
        0
    } else {
        dispatched(log.drop_last(), id) + if log.last().process == id {
            log.last().slice as int
        } else {
            0
        }
    }
}

/// Work performed so far by all the processes together.
pub open spec fn performed_total(processes: Seq<Process>) -> int
    decreases processes.len(),
{
    if processes.len() == 0 {
        0
    } else {
        performed_total(processes.drop_last()) + processes.last().performed()
    }
}

/// The state of the scheduler.
pub struct EngineState {
    /// Algorithm and burst limit.
    pub config: Config,
    /// The simulated clock, in ticks.
    pub now: nat,
    /// Every process admitted so far, in admission order.
    pub processes: Seq<Process>,
    /// The record of each process, in the same order.
    pub records: Seq<ProcessRecord>,
    /// The ready queue, head first, as positions in `processes`.
    pub ready: Seq<usize>,
    /// The process preempted by the last step. It rejoins the queue at the
    /// start of the next step, behind whatever was admitted in between.
    pub held: Option<usize>,
    /// Every dispatch so far, oldest first.
    pub log: Seq<Dispatch>,
    /// Where the termination handshake stands.
    pub phase: Phase,
}

impl EngineState {
    /// The state of a new scheduler: tick zero, nothing admitted.
    pub open spec fn init(config: Config) -> EngineState {
        EngineState {
            config,
            now: 0,
            processes: Seq::empty(),
            records: Seq::empty(),
            ready: Seq::empty(),
            held: None,
            log: Seq::empty(),
            phase: Phase::Running,
        }
    }

    /// Whether some process is waiting for the processor.
    pub open spec fn runnable(self) -> bool {
        self.ready.len() > 0 || self.held is Some
    }

    /// Whether every admitted process has finished.
    pub open spec fn all_done(self) -> bool {
        forall|i: int|
            0 <= i < self.processes.len() ==> (#[trigger] self.processes[i]).state is Done
    }

    /// Whether `p` may be admitted now: the scheduler has not stopped, `p` has
    /// performed nothing yet, and its arrival tick has come.
    pub open spec fn can_accept(self, p: Process) -> bool {
        &&& !(self.phase is Stopped)
        &&& p.is_fresh()
        &&& p.entry_time <= self.now
    }

    /// Admission: `p` joins the tail of the ready queue and gets a record
    /// stamped with the current tick.
    pub open spec fn accept(self, p: Process) -> EngineState {
        EngineState {
            processes: self.processes.push(p),
            records: self.records.push(
                ProcessRecord {
                    entry_tick: p.entry_time,
                    total_duration: p.total_time,
                    admitted_tick: self.now as u128,
                    completion_tick: None,
                },
            ),
            ready: self.ready.push(self.processes.len() as usize),
            ..self
        }
    }

    /// A drain request moves a running scheduler to `DrainRequested` and
    /// leaves any other phase alone.
    pub open spec fn request_drain(self) -> EngineState {
        if self.phase is Running {
            EngineState { phase: Phase::DrainRequested, ..self }
        } else {
            self
        }
    }

    /// Idling: with nothing to run and the scheduler not stopped, the clock
    /// moves forward to `tick`. It never moves back.
    pub open spec fn idle_until(self, tick: usize) -> EngineState {
        if !self.runnable() && !(self.phase is Stopped) && self.now < tick {
            EngineState { now: tick as nat, ..self }
        } else {
            self
        }
    }

    /// The preempted process, if any, rejoins the tail of the ready queue.
    pub open spec fn requeued(self) -> EngineState {
        match self.held {
            Some(id) => EngineState { ready: self.ready.push(id), held: None, ..self },
            None => self,
        }
    }

    /// Length of the slice that the next step grants, where a process is
    /// waiting.
    pub open spec fn next_slice(self) -> usize {
        let q = self.requeued();
        slice_len(
            q.config.algorithm,
            q.processes[q.ready[0] as int].remain_time as int,
            q.config.burst_limit as int,
        ) as usize
    }

    /// One step. The preempted process rejoins the queue. With the queue
    /// empty, a requested drain stops the scheduler and nothing else
    /// changes. Otherwise the head of the queue runs for its slice: the clock
    /// advances by the slice, the dispatch is logged, and the process either
    /// finishes, which stamps its record, or is held for requeueing.
    pub open spec fn step(self) -> EngineState {
        let q = self.requeued();
        if q.ready.len() == 0 {
            if q.phase is DrainRequested {
                EngineState { phase: Phase::Stopped, ..q }
            } else {
                q
            }
        } else {
            let id = q.ready[0];
            let slice = self.next_slice();
            let after = q.processes[id as int].after_slice(slice);
            let end = (q.now + slice) as nat;
            EngineState {
                now: end,
                processes: q.processes.update(id as int, after),
                records: if after.state is Done {
                    q.records.update(
                        id as int,
                        ProcessRecord {
                            completion_tick: Some(end as u128),
                            ..q.records[id as int]
                        },
                    )
                } else {
                    q.records
                },
                ready: q.ready.drop_first(),
                held: if after.state is Done {
                    None
                } else {
                    Some(id)
                },
                log: q.log.push(Dispatch { process: id, start_tick: q.now as u128, slice }),
                ..q
            }
        }
    }

    /// What the step reports.
    pub open spec fn step_action(self) -> Action {
        let q = self.requeued();
        if q.ready.len() == 0 {
            if q.phase is Running {
                Action::Idle
            } else {
                Action::Stopped
            }
        } else {
            let id = q.ready[0];
            let slice = self.next_slice();
            Action::Ran {
                process: id,
                start_tick: q.now as u128,
                slice,
                finished: q.processes[id as int].remain_time == slice,
            }
        }
    }

    /// What holds of process `i` and its record in every reachable state.
    pub open spec fn process_inv(self, i: int) -> bool {
        let p = self.processes[i];
        let r = self.records[i];
        &&& p.wf()
        &&& !(p.state is Working)
        &&& r.entry_tick == p.entry_time
        &&& r.total_duration == p.total_time
        &&& r.wf()
        &&& r.admitted_tick <= self.now
        &&& r.entry_tick + p.performed() <= self.now
        &&& p.state is Done <==> r.completion_tick is Some
        &&& r.completion_tick matches Some(c) ==> c <= self.now
        &&& p.performed() == dispatched(self.log, i)
        &&& (self.config.algorithm is Fcfs && p.state is Waiting) ==> p.remain_time
            == p.total_time
        &&& p.state is Waiting ==> (self.held == Some(i as usize) || exists|k: int|
            0 <= k < self.ready.len() && #[trigger] self.ready[k] == i)
    }

    /// What holds of the ready queue and of the held process.
    pub open spec fn queue_inv(self) -> bool {
        &&& self.ready.no_duplicates()
        &&& forall|k: int|
            0 <= k < self.ready.len() ==> {
                &&& (#[trigger] self.ready[k]) < self.processes.len()
                &&& self.processes[self.ready[k] as int].state is Waiting
                &&& self.held != Some(self.ready[k])
            }
        &&& self.held matches Some(h) ==> {
            &&& h < self.processes.len()
            &&& self.processes[h as int].state is Waiting
            &&& self.processes[h as int].remain_time > 0
            &&& self.config.algorithm is RoundRobin
        }
    }

    /// What holds of the dispatch log.
    pub open spec fn log_inv(self) -> bool {
        forall|k: int|
            0 <= k < self.log.len() ==> {
                &&& (#[trigger] self.log[k]).process < self.processes.len()
                &&& self.log[k].start_tick + self.log[k].slice <= self.now
                &&& self.config.algorithm is RoundRobin ==> self.log[k].slice
                    <= self.config.burst_limit
                &&& self.config.algorithm is Fcfs ==> self.log[k].slice
                    == self.processes[self.log[k].process as int].total_time
            }
    }

    /// The invariant of the scheduler.
    pub open spec fn inv(self) -> bool {
        &&& self.config.wf()
        &&& self.processes.len() == self.records.len()
        &&& self.processes.len() <= usize::MAX
        &&& self.now <= usize::MAX + performed_total(self.processes)
        &&& forall|i: int| 0 <= i < self.processes.len() ==> #[trigger] self.process_inv(i)
        &&& self.queue_inv()
        &&& self.log_inv()
        &&& self.phase is Stopped ==> !self.runnable()
    }
}

/// Appending a dispatch adds its slice to the work of its process and to no
/// other.
pub proof fn lemma_dispatched_push(log: Seq<Dispatch>, d: Dispatch, id: int)
    ensures
        dispatched(log.push(d), id) == dispatched(log, id) + if d.process == id {
            d.slice as int
        } else {
            0
        },
{
    assert(log.push(d).drop_last() =~= log);
}

/// Appending a process adds what it has performed.
pub proof fn lemma_performed_push(processes: Seq<Process>, p: Process)
    ensures
        performed_total(processes.push(p)) == performed_total(processes) + p.performed(),
{
    assert(processes.push(p).drop_last() =~= processes);
}

/// Replacing a process changes the total by the difference of what the two
/// have performed.
pub proof fn lemma_performed_update(processes: Seq<Process>, i: int, p: Process)
    requires
        0 <= i < processes.len(),
    ensures
        performed_total(processes.update(i, p)) == performed_total(processes)
            - processes[i].performed() + p.performed(),
    decreases processes.len(),
{
    let updated = processes.update(i, p);
    if i == processes.len() - 1 {
        assert(updated.drop_last() =~= processes.drop_last());
    } else {
        assert(updated.drop_last() =~= processes.drop_last().update(i, p));
        lemma_performed_update(processes.drop_last(), i, p);
    }
}

/// No process performs more than `usize::MAX` quantum-units.
pub proof fn lemma_performed_bound(processes: Seq<Process>)
    ensures
        performed_total(processes) <= processes.len() * usize::MAX,
    decreases processes.len(),
{
    if processes.len() > 0 {
        lemma_performed_bound(processes.drop_last());
        assert((processes.len() - 1) * usize::MAX + usize::MAX == processes.len() * usize::MAX)
            by (nonlinear_arith);
    }
}

/// In every reachable state the clock, advanced by any one slice, still fits
/// in 128 bits.
pub proof fn lemma_clock_fits(s: EngineState)
    requires
        s.inv(),
    ensures
        s.now + usize::MAX <= u128::MAX,
{
    lemma_performed_bound(s.processes);
    let n = s.processes.len() as int;
    let m = usize::MAX as int;
    assert(n * m <= m * m) by (nonlinear_arith)
        requires
            0 <= n <= m,
    ;
    assert(m * m + 2 * m <= u128::MAX) by (nonlinear_arith)
        requires
            0 <= m <= 0xffff_ffff_ffff_ffff,
    ;
}

} // verus!
