//! The process: the unit of work that the scheduler dispatches.

use vstd::prelude::*;

verus! {

/// Where a process stands in its lifecycle.
#[derive(Clone, Copy, Debug, PartialEq, Eq, Structural)]
pub enum ProcessState {
    /// All of its work has been performed. Terminal.
    Done,
    /// It holds the processor for the current slice.
    Working,
    /// It is eligible to run and is not running.
    Waiting,
}

/// A process, with the work it needs and the work it still lacks.
#[derive(Debug, PartialEq, Eq)]
pub struct Process {
    /// Identifier chosen by the operator.
    pub name: String,
    /// Quantum-units of work needed in all.
    pub total_time: usize,
    /// Quantum-units of work still to be performed.
    pub remain_time: usize,
    /// Lifecycle state.
    pub state: ProcessState,
    /// Tick at which the process arrives.
    pub entry_time: usize,
}

impl Process {
    /// The remaining work never exceeds the total, a finished process has no
    /// work left, and a process that was given work and has none left is
    /// finished.
    pub open spec fn wf(&self) -> bool {
        &&& self.remain_time <= self.total_time
        &&& self.state is Done ==> self.remain_time == 0
        &&& (self.remain_time == 0 && self.total_time > 0) ==> self.state is Done
    }

    /// A process as `new` makes it: nothing performed yet, waiting.
    pub open spec fn is_fresh(&self) -> bool {
        self.remain_time == self.total_time && self.state is Waiting
    }

    /// Quantum-units of work performed so far.
    pub open spec fn performed(&self) -> int {
        self.total_time - self.remain_time
    }

    /// The process after it has run for `slice` quantum-units: finished when
    /// no work is left, waiting again otherwise.
    pub open spec fn after_slice(self, slice: usize) -> Process {
        Process {
            remain_time: (self.remain_time - slice) as usize,
            state: if self.remain_time == slice {
                ProcessState::Done
            } else {
                ProcessState::Waiting
            },
            ..self
        }
    }

    /// Creates a waiting process with all of its work ahead.
    pub fn new(name: &str, total_time: usize, entry_time: usize) -> (p: Process)
        ensures
            p.name@ == name@,
            p.total_time == total_time,
            p.remain_time == total_time,
            p.entry_time == entry_time,
            p.state is Waiting,
            p.is_fresh(),
            p.wf(),
    {
        Process {
            name: name.to_owned(),
            total_time,
            remain_time: total_time,
            state: ProcessState::Waiting,
            entry_time,
        }
    }

    /// Whether no work is left.
    pub fn done(&self) -> (b: bool)
        ensures
            b == (self.remain_time == 0),
    {
        self.remain_time == 0
    }

    /// Whether the process is as `new` makes it.
    pub fn fresh(&self) -> (b: bool)
        ensures
            b == self.is_fresh(),
    {
        self.remain_time == self.total_time && self.state == ProcessState::Waiting
    }

    /// Runs the process for `slice` quantum-units.
    pub fn run_for(&mut self, slice: usize)
        requires
            old(self).wf(),
            slice <= old(self).remain_time,
            !(old(self).state is Done),
        ensures
            *final(self) == old(self).after_slice(slice),
            final(self).wf(),
            final(self).performed() == old(self).performed() + slice,
    {
        self.state = ProcessState::Working;
        self.remain_time = self.remain_time - slice;
        if self.remain_time == 0 {
            self.state = ProcessState::Done;
        } else {
            self.state = ProcessState::Waiting;
        }
    }
}

impl Clone for Process {
    fn clone(&self) -> (p: Self)
        ensures
            p == *self,
    {
        Process {
            name: self.name.clone(),
            total_time: self.total_time,
            remain_time: self.remain_time,
            state: self.state,
            entry_time: self.entry_time,
        }
    }
}

} // verus!
