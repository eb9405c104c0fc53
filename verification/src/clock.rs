//! The clock driver: it announces each tick, hands each process to the
//! scheduler at its arrival tick, and asks for the drain once the estimated
//! time of the whole simulation has passed.

use crate::feeder::{sorted_arrivals, ArrivalFeeder};
use crate::process::Process;
use std::collections::VecDeque;
use vstd::prelude::*;

verus! {

/// The tick at which a processor that is free at tick `start` finishes the
/// processes of `s`, taken in order and each begun no earlier than it
/// arrives.
pub open spec fn makespan_from(start: int, s: Seq<Process>) -> int
    decreases s.len(),
{
    if s.len() == 0 {
        start
    } else {
        let begin = if start >= s[0].entry_time {
            start
        } else {
            s[0].entry_time as int
        };
        makespan_from(begin + s[0].total_time, s.drop_first())
    }
}

/// The tick at which all the work of `s` is finished, from tick zero.
pub open spec fn makespan(s: Seq<Process>) -> int {
    makespan_from(0, s)
}

/// The makespan of at most `usize::MAX` processes, and one tick more, fits
/// in 128 bits with room to spare.
proof fn lemma_estimate_fits(k: int)
    requires
        0 <= k <= usize::MAX,
    ensures
        (k + 1) * usize::MAX + 1 < u128::MAX,
{
    let m = usize::MAX as int;
    assert((k + 1) * m <= (m + 1) * m) by (nonlinear_arith)
        requires
            0 <= k <= m,
            m >= 0,
    ;
    assert((m + 1) * m + 1 < u128::MAX) by (nonlinear_arith)
        requires
            0 <= m <= 0xffff_ffff_ffff_ffff,
    ;
}

/// One more process moves the finishing tick by at most its arrival and
/// its work.
proof fn lemma_estimate_step(total: int, k: int, p: Process)
    requires
        0 <= k,
        0 <= total <= (k + 1) * usize::MAX,
    ensures
        total + p.total_time <= (k + 2) * usize::MAX,
        p.entry_time + p.total_time <= (k + 2) * usize::MAX,
{
    let m = usize::MAX as int;
    assert((k + 2) * m == (k + 1) * m + m) by (nonlinear_arith);
    assert(2 * m <= (k + 2) * m) by (nonlinear_arith)
        requires
            k >= 0,
            m >= 0,
    ;
}

/// Estimates how long the simulation takes: the makespan of the processes
/// in the order given, and one tick more.
pub fn estimated_total_time(procs: &VecDeque<Process>) -> (t: u128)
    ensures
        t == makespan(procs@) + 1,
        t < u128::MAX,
{
    let n = procs.len();
    let mut total: u128 = 0;
    let mut i: usize = 0;
    assert(procs@.skip(0) =~= procs@);
    while i < n
        invariant
            n == procs@.len(),
            i <= n,
            makespan_from(total as int, procs@.skip(i as int)) == makespan(procs@),
            total <= (i + 1) * usize::MAX,
        decreases n - i,
    {
        let entry = procs[i].entry_time as u128;
        let work = procs[i].total_time as u128;
        proof {
            lemma_estimate_step(total as int, i as int, procs@[i as int]);
            lemma_estimate_fits(i as int + 1);
            assert(procs@.skip(i as int).drop_first() =~= procs@.skip(i as int + 1));
        }
        if total > entry {
            total = total + work;
        } else {
            total = entry + work;
        }
        i += 1;
    }
    proof {
        lemma_estimate_fits(n as int);
    }
    total + 1
}

/// What the clock driver does next.
#[derive(Debug, PartialEq, Eq)]
pub enum ClockAction {
    /// Announce the tick and let one quantum pass.
    Tick { time: u128 },
    /// Hand this process to the scheduler.
    Deliver { process: Process },
    /// Tell the scheduler that no more work will arrive.
    RequestDrain,
    /// Nothing is left to do but to wait for the final metrics.
    Finished,
}

/// The state of the clock driver.
pub struct ClockState {
    /// The processes not yet delivered, next one first.
    pub pending: Seq<Process>,
    /// The tick that the driver has reached.
    pub this_time: nat,
    /// The estimated duration of the simulation.
    pub total_time: nat,
    /// Whether the drain has been requested.
    pub drain_sent: bool,
}

impl ClockState {
    /// Whether the next process is due.
    pub open spec fn due(self) -> bool {
        self.pending.len() > 0 && self.pending[0].entry_time <= self.this_time
    }

    /// Whether the next action is a tick: a process is still to come, or the
    /// estimated time has not passed.
    pub open spec fn ticking(self) -> bool {
        !self.due() && (self.pending.len() > 0 || self.this_time <= self.total_time)
    }

    /// The next action. A due process is delivered; otherwise the clock
    /// ticks while a process is still to come or the estimated time has not
    /// passed; then the drain is requested, once.
    pub open spec fn action(self) -> ClockAction {
        if self.due() {
            ClockAction::Deliver { process: self.pending[0] }
        } else if self.ticking() {
            ClockAction::Tick { time: self.this_time as u128 }
        } else if !self.drain_sent {
            ClockAction::RequestDrain
        } else {
            ClockAction::Finished
        }
    }

    /// The state after the next action.
    pub open spec fn advance(self) -> ClockState {
        if self.due() {
            ClockState { pending: self.pending.drop_first(), ..self }
        } else if self.ticking() {
            ClockState { this_time: self.this_time + 1, ..self }
        } else {
            ClockState { drain_sent: true, ..self }
        }
    }
}

/// The clock driver.
pub struct ClockDriver {
    feeder: ArrivalFeeder,
    this_time: u128,
    total_time: u128,
    drain_sent: bool,
}

impl View for ClockDriver {
    type V = ClockState;

    closed spec fn view(&self) -> ClockState {
        ClockState {
            pending: self.feeder@,
            this_time: self.this_time as nat,
            total_time: self.total_time as nat,
            drain_sent: self.drain_sent,
        }
    }
}

impl ClockDriver {
    /// The clock can always tick once more.
    pub closed spec fn wf(&self) -> bool {
        &&& self.total_time < u128::MAX
        &&& self.this_time <= self.total_time + 1 || self.this_time <= usize::MAX
    }

    /// A driver at tick zero for the submitted processes, which it puts in
    /// delivery order. The estimate is made on that order.
    pub fn new(procs: Vec<Process>) -> (d: ClockDriver)
        ensures
            d.wf(),
            d@ == (ClockState {
                pending: sorted_arrivals(procs@),
                this_time: 0,
                total_time: (makespan(sorted_arrivals(procs@)) + 1) as nat,
                drain_sent: false,
            }),
    {
        let feeder = ArrivalFeeder::new(procs);
        let total_time = feeder.estimate();
        ClockDriver { feeder, this_time: 0, total_time, drain_sent: false }
    }

    /// The tick that the driver has reached.
    pub fn this_time(&self) -> (t: u128)
        ensures
            t == self@.this_time,
    {
        self.this_time
    }

    /// The estimated duration of the simulation.
    pub fn total_time(&self) -> (t: u128)
        ensures
            t == self@.total_time,
    {
        self.total_time
    }

    /// Performs the next action of the driver and returns it.
    pub fn advance(&mut self) -> (action: ClockAction)
        requires
            old(self).wf(),
        ensures
            final(self).wf(),
            action == old(self)@.action(),
            final(self)@ == old(self)@.advance(),
    {
        match self.feeder.poll(self.this_time) {
            Some(process) => ClockAction::Deliver { process },
            None => {
                if !self.feeder.is_closed() || self.this_time <= self.total_time {
                    let time = self.this_time;
                    self.this_time = self.this_time + 1;
                    ClockAction::Tick { time }
                } else if !self.drain_sent {
                    self.drain_sent = true;
                    ClockAction::RequestDrain
                } else {
                    ClockAction::Finished
                }
            },
        }
    }
}

} // verus!
