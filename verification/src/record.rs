//! What the scheduler writes down: one record per process, and one log entry
//! per dispatch.

use vstd::prelude::*;

verus! {

/// The timestamps of one process, in ticks since the simulation began.
#[derive(Clone, Copy, Debug, PartialEq, Eq, Structural)]
pub struct ProcessRecord {
    /// Tick at which the process was due to arrive.
    pub entry_tick: usize,
    /// Quantum-units of work that the process needs.
    pub total_duration: usize,
    /// Tick at which the ready queue took the process in.
    pub admitted_tick: u128,
    /// Tick at which the process finished, once it has.
    pub completion_tick: Option<u128>,
}

/// One dispatch: which process ran, from which tick, and for how long.
#[derive(Clone, Copy, Debug, PartialEq, Eq, Structural)]
pub struct Dispatch {
    /// Position of the process in admission order.
    pub process: usize,
    /// Tick at which the slice began.
    pub start_tick: u128,
    /// Quantum-units that the slice lasted.
    pub slice: usize,
}

/// Ticks that pass from `x` to `y`, where `y` is not the earlier one.
pub fn diff_time(x: &u128, y: &u128) -> (d: u128)
    requires
        *x <= *y,
    ensures
        d == *y - *x,
{
    *y - *x
}

impl ProcessRecord {
    /// A process is admitted no earlier than it arrives, and finishes no
    /// earlier than its admission and no earlier than its arrival plus the
    /// work it needs.
    pub open spec fn wf(&self) -> bool {
        &&& self.entry_tick <= self.admitted_tick
        &&& self.completion_tick matches Some(c) ==> {
            &&& self.admitted_tick <= c
            &&& self.entry_tick + self.total_duration <= c
        }
    }

    /// Ticks between arrival and admission. This is the admission latency:
    /// the time that a process spends in the ready queue afterwards is not
    /// counted.
    pub open spec fn waiting(&self) -> int {
        self.admitted_tick - self.entry_tick
    }

    /// Ticks between arrival and completion, for a finished process.
    pub open spec fn turnaround(&self) -> int {
        self.completion_tick->Some_0 - self.entry_tick
    }

    /// Whether the record is well-formed.
    pub fn is_consistent(&self) -> (b: bool)
        ensures
            b == self.wf(),
    {
        let entry: u128 = self.entry_tick as u128;
        let total: u128 = self.total_duration as u128;
        entry <= self.admitted_tick && match self.completion_tick {
            Some(c) => self.admitted_tick <= c && entry + total <= c,
            None => true,
        }
    }

    /// Waiting time: the ticks between arrival and admission into the ready
    /// queue.
    pub fn waiting_time(&self) -> (w: u128)
        requires
            self.wf(),
        ensures
            w == self.waiting(),
    {
        let entry: u128 = self.entry_tick as u128;
        diff_time(&entry, &self.admitted_tick)
    }

    /// Turnaround time: the ticks between arrival and completion, or `None`
    /// while the process has not finished. It is never less than the work
    /// that the process needed.
    pub fn turnaround_time(&self) -> (t: Option<u128>)
        requires
            self.wf(),
        ensures
            t is Some <==> self.completion_tick is Some,
            t matches Some(v) ==> v == self.turnaround() && v >= self.total_duration,
    {
        match self.completion_tick {
            Some(c) => {
                let entry: u128 = self.entry_tick as u128;
                Some(diff_time(&entry, &c))
            },
            None => None,
        }
    }
}

} // verus!
