//! The scheduler engine: the ready queue, the records and the dispatch step.

use crate::model::{Action, EngineState, Phase};
use crate::policy::Config;
use crate::preservation::{
    lemma_accept_inv, lemma_drain_inv, lemma_idle_inv, lemma_init_inv, lemma_requeue_inv,
    lemma_step_inv,
};
use crate::process::Process;
use crate::record::{Dispatch, ProcessRecord};
use std::collections::VecDeque;
use vstd::prelude::*;

verus! {

/// Why a process was not admitted.
#[derive(Clone, Copy, Debug, PartialEq, Eq, Structural)]
pub enum AcceptError {
    /// The scheduler has stopped.
    Stopped,
    /// The process has already run, or is not waiting.
    NotFresh,
    /// The arrival tick of the process has not come yet.
    Early,
}

/// The scheduler. It alone owns the ready queue and the records.
pub struct Scheduler {
    config: Config,
    now: u128,
    processes: Vec<Process>,
    records: Vec<ProcessRecord>,
    ready: VecDeque<usize>,
    held: Option<usize>,
    log: Vec<Dispatch>,
    phase: Phase,
}

impl View for Scheduler {
    type V = EngineState;

    closed spec fn view(&self) -> EngineState {
        EngineState {
            config: self.config,
            now: self.now as nat,
            processes: self.processes@,
            records: self.records@,
            ready: self.ready@,
            held: self.held,
            log: self.log@,
            phase: self.phase,
        }
    }
}

impl Scheduler {
    /// A scheduler at tick zero with nothing admitted.
    pub fn new(config: Config) -> (s: Scheduler)
        requires
            config.wf(),
        ensures
            s@ == EngineState::init(config),
            s@.inv(),
    {
        proof {
            lemma_init_inv(config);
        }
        Scheduler {
            config,
            now: 0,
            processes: Vec::new(),
            records: Vec::new(),
            ready: VecDeque::new(),
            held: None,
            log: Vec::new(),
            phase: Phase::Running,
        }
    }

    /// The configuration that the scheduler was built with.
    pub fn config(&self) -> (c: Config)
        ensures
            c == self@.config,
    {
        self.config
    }

    /// The current tick.
    pub fn now(&self) -> (t: u128)
        ensures
            t == self@.now,
    {
        self.now
    }

    /// Where the termination handshake stands.
    pub fn phase(&self) -> (p: Phase)
        ensures
            p == self@.phase,
    {
        self.phase
    }

    /// Whether some process is waiting for the processor.
    pub fn runnable(&self) -> (b: bool)
        ensures
            b == self@.runnable(),
    {
        self.ready.len() > 0 || self.held.is_some()
    }

    /// Every process admitted so far, in admission order.
    pub fn processes(&self) -> (ps: &Vec<Process>)
        ensures
            ps@ == self@.processes,
    {
        &self.processes
    }

    /// The record of each process, in admission order.
    pub fn records(&self) -> (rs: &Vec<ProcessRecord>)
        ensures
            rs@ == self@.records,
    {
        &self.records
    }

    /// Every dispatch so far, oldest first.
    pub fn log(&self) -> (log: &Vec<Dispatch>)
        ensures
            log@ == self@.log,
    {
        &self.log
    }

    /// Admits `p` at the tail of the ready queue and stamps its record with
    /// the current tick. Returns the position of `p` in admission order. A
    /// process is refused, and nothing changes, when the scheduler has
    /// stopped, when the process is not fresh, or when its arrival tick has
    /// not come.
    pub fn accept(&mut self, p: Process) -> (r: Result<usize, AcceptError>)
        requires
            old(self)@.inv(),
        ensures
            final(self)@.inv(),
            r == if old(self)@.phase is Stopped {
                Err::<usize, AcceptError>(AcceptError::Stopped)
            } else if !p.is_fresh() {
                Err::<usize, AcceptError>(AcceptError::NotFresh)
            } else if p.entry_time > old(self)@.now {
                Err::<usize, AcceptError>(AcceptError::Early)
            } else {
                Ok(old(self)@.processes.len() as usize)
            },
            final(self)@ == if r is Ok {
                old(self)@.accept(p)
            } else {
                old(self)@
            },
    {
        if self.phase == Phase::Stopped {
            return Err(AcceptError::Stopped);
        }
        if !p.fresh() {
            return Err(AcceptError::NotFresh);
        }
        if p.entry_time as u128 > self.now {
            return Err(AcceptError::Early);
        }
        let id = self.processes.len();
        let record = ProcessRecord {
            entry_tick: p.entry_time,
            total_duration: p.total_time,
            admitted_tick: self.now,
            completion_tick: None,
        };
        self.processes.push(p);
        self.records.push(record);
        self.ready.push_back(id);
        proof {
            assert(self.processes.len() == id + 1);
            lemma_accept_inv(old(self)@, p);
        }
        Ok(id)
    }

    /// Records that no more work is expected. What is queued still runs.
    pub fn request_drain(&mut self)
        requires
            old(self)@.inv(),
        ensures
            final(self)@ == old(self)@.request_drain(),
            final(self)@.inv(),
    {
        proof {
            lemma_drain_inv(self@);
        }
        if self.phase == Phase::Running {
            self.phase = Phase::DrainRequested;
        }
    }

    /// Lets the clock run forward to `tick` while nothing is ready to run.
    pub fn idle_until(&mut self, tick: usize)
        requires
            old(self)@.inv(),
        ensures
            final(self)@ == old(self)@.idle_until(tick),
            final(self)@.inv(),
    {
        proof {
            lemma_idle_inv(self@, tick);
        }
        if !self.runnable() && self.phase != Phase::Stopped && self.now < tick as u128 {
            self.now = tick as u128;
        }
    }

    /// Performs one step: requeues the preempted process, then stops, idles,
    /// or runs the head of the ready queue for its slice.
    pub fn step(&mut self) -> (action: Action)
        requires
            old(self)@.inv(),
        ensures
            final(self)@ == old(self)@.step(),
            action == old(self)@.step_action(),
            final(self)@.inv(),
    {
        proof {
            lemma_step_inv(self@);
            lemma_requeue_inv(self@);
            crate::model::lemma_clock_fits(self@.requeued());
        }
        if let Some(h) = self.held {
            self.ready.push_back(h);
            self.held = None;
        }
        assert(self@ == old(self)@.requeued());
        match self.ready.pop_front() {
            None => {
                match self.phase {
                    Phase::Running => Action::Idle,
                    Phase::DrainRequested => {
                        self.phase = Phase::Stopped;
                        Action::Stopped
                    },
                    Phase::Stopped => Action::Stopped,
                }
            },
            Some(id) => {
                let ghost q = old(self)@.requeued();
                assert(q.process_inv(id as int));
                let slice = self.config.algorithm.slice(
                    self.processes[id].remain_time,
                    self.config.burst_limit,
                );
                let start = self.now;
                let end = start + slice as u128;
                self.processes[id].run_for(slice);
                let finished = self.processes[id].done();
                if finished {
                    let r = self.records[id];
                    self.records.set(
                        id,
                        ProcessRecord {
                            entry_tick: r.entry_tick,
                            total_duration: r.total_duration,
                            admitted_tick: r.admitted_tick,
                            completion_tick: Some(end),
                        },
                    );
                } else {
                    self.held = Some(id);
                }
                self.now = end;
                self.log.push(Dispatch { process: id, start_tick: start, slice });
                assert(self@.processes =~= old(self)@.step().processes);
                assert(self@.records =~= old(self)@.step().records);
                assert(self@.ready =~= old(self)@.step().ready);
                Action::Ran { process: id, start_tick: start, slice, finished }
            },
        }
    }
}

} // verus!
