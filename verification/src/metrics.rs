//! The metrics collector: waiting and turnaround time of each process, and
//! their arithmetic means over all processes.

use crate::engine::Scheduler;
use crate::model::Phase;
use crate::record::ProcessRecord;
use vstd::arithmetic::div_mod::lemma_fundamental_div_mod;
use vstd::prelude::*;

verus! {

/// Why no metrics were computed.
#[derive(Clone, Copy, Debug, PartialEq, Eq, Structural)]
pub enum MetricsError {
    /// No process was recorded: there is nothing to average.
    Empty,
    /// Some record breaks the order of arrival, admission and completion.
    Inconsistent,
    /// Some process has not finished.
    Unfinished,
    /// The scheduler has not stopped yet.
    NotStopped,
}

/// An arithmetic mean of whole numbers, kept exact: the mean is `whole`
/// plus `remainder` divided by the number of values.
#[derive(Clone, Copy, Debug, PartialEq, Eq, Structural)]
pub struct Mean {
    pub whole: u128,
    pub remainder: usize,
}

/// The means over all processes, with the number of processes.
#[derive(Clone, Copy, Debug, PartialEq, Eq, Structural)]
pub struct Metrics {
    /// Number of processes.
    pub count: usize,
    /// Mean waiting time.
    pub waiting: Mean,
    /// Mean turnaround time.
    pub turnaround: Mean,
}

/// Sum of the waiting times.
pub open spec fn total_waiting(records: Seq<ProcessRecord>) -> int
    decreases records.len(),
{
    if records.len() == 0 {
        0
    } else {
        total_waiting(records.drop_last()) + records.last().waiting()
    }
}

/// Sum of the turnaround times, for finished processes.
pub open spec fn total_turnaround(records: Seq<ProcessRecord>) -> int
    decreases records.len(),
{
    if records.len() == 0 {
        0
    } else {
        total_turnaround(records.drop_last()) + records.last().turnaround()
    }
}

/// Whether every record is well-formed.
pub open spec fn all_consistent(records: Seq<ProcessRecord>) -> bool {
    forall|i: int| 0 <= i < records.len() ==> (#[trigger] records[i]).wf()
}

/// Whether every record has a completion tick.
pub open spec fn all_finished(records: Seq<ProcessRecord>) -> bool {
    forall|i: int| 0 <= i < records.len() ==> (#[trigger] records[i]).completion_tick is Some
}

impl Mean {
    /// The sum that this mean stands for, over `count` values.
    pub open spec fn sum(&self, count: int) -> int {
        self.whole * count + self.remainder
    }

    /// Whether this is the arithmetic mean of `count` values that add up to
    /// `sum`: `sum / count`, as a quotient and a remainder.
    pub open spec fn is_mean_of(&self, sum: int, count: int) -> bool {
        &&& count > 0
        &&& self.remainder < count
        &&& self.sum(count) == sum
    }

    /// Takes one more value into a mean over `count` values.
    fn take_in(&mut self, value: u128, count: usize)
        requires
            count > 0,
            old(self).remainder < count,
            old(self).sum(count as int) + value <= count * u128::MAX,
        ensures
            final(self).remainder < count,
            final(self).sum(count as int) == old(self).sum(count as int) + value,
    {
        let n: u128 = count as u128;
        let quotient: u128 = value / n;
        let rest: u128 = value % n;
        let joined: u128 = self.remainder as u128 + rest;
        let carry: u128 = if joined >= n {
            1
        } else {
            0
        };
        let remainder: u128 = if joined >= n {
            joined - n
        } else {
            joined
        };
        proof {
            lemma_fundamental_div_mod(value as int, n as int);
            let q = self.whole + quotient + carry;
            let c = count as int;
            assert(q * c + remainder == self.whole * c + self.remainder + value)
                by (nonlinear_arith)
                requires
                    q == self.whole + quotient + carry,
                    value == c * quotient + rest,
                    remainder + carry * c == self.remainder + rest,
            ;
            assert(q <= u128::MAX) by (nonlinear_arith)
                requires
                    q * c + remainder <= c * u128::MAX,
                    remainder >= 0,
                    c > 0,
            ;
        }
        self.whole = self.whole + quotient + carry;
        self.remainder = remainder as usize;
    }
}

/// Adding a record adds its waiting and turnaround time to the sums.
proof fn lemma_totals_step(records: Seq<ProcessRecord>, i: int)
    requires
        0 <= i < records.len(),
    ensures
        total_waiting(records.take(i + 1)) == total_waiting(records.take(i))
            + records[i].waiting(),
        total_turnaround(records.take(i + 1)) == total_turnaround(records.take(i))
            + records[i].turnaround(),
{
    assert(records.take(i + 1).drop_last() =~= records.take(i));
}

/// Computes the mean waiting time and the mean turnaround time over all the
/// records. Refuses an empty list, and lists that hold an ill-formed or an
/// unfinished record.
pub fn collect(records: &Vec<ProcessRecord>) -> (r: Result<Metrics, MetricsError>)
    ensures
        match r {
            Ok(m) => {
                &&& all_consistent(records@)
                &&& all_finished(records@)
                &&& m.count == records@.len()
                &&& m.waiting.is_mean_of(total_waiting(records@), records@.len() as int)
                &&& m.turnaround.is_mean_of(total_turnaround(records@), records@.len() as int)
            },
            Err(MetricsError::Empty) => records@.len() == 0,
            Err(MetricsError::Inconsistent) => records@.len() > 0 && !all_consistent(records@),
            Err(MetricsError::Unfinished) => records@.len() > 0 && all_consistent(records@)
                && !all_finished(records@),
            Err(MetricsError::NotStopped) => false,
        },
{
    let count = records.len();
    if count == 0 {
        return Err(MetricsError::Empty);
    }
    let mut i: usize = 0;
    while i < count
        invariant
            count == records@.len(),
            i <= count,
            forall|j: int| 0 <= j < i ==> (#[trigger] records@[j]).wf(),
        decreases count - i,
    {
        if !records[i].is_consistent() {
            assert(!records@[i as int].wf());
            return Err(MetricsError::Inconsistent);
        }
        i += 1;
    }
    let mut waiting = Mean { whole: 0, remainder: 0 };
    let mut turnaround = Mean { whole: 0, remainder: 0 };
    i = 0;
    while i < count
        invariant
            count == records@.len(),
            count > 0,
            i <= count,
            all_consistent(records@),
            forall|j: int| 0 <= j < i ==> (#[trigger] records@[j]).completion_tick is Some,
            waiting.remainder < count,
            turnaround.remainder < count,
            waiting.sum(count as int) == total_waiting(records@.take(i as int)),
            turnaround.sum(count as int) == total_turnaround(records@.take(i as int)),
            waiting.sum(count as int) <= i * u128::MAX,
            turnaround.sum(count as int) <= i * u128::MAX,
        decreases count - i,
    {
        let record = &records[i];
        let t = match record.turnaround_time() {
            Some(t) => t,
            None => {
                assert(records@[i as int].completion_tick is None);
                return Err(MetricsError::Unfinished);
            },
        };
        let w = record.waiting_time();
        proof {
            lemma_totals_step(records@, i as int);
            let c = count as int;
            let k = i as int;
            assert((k + 1) * u128::MAX == k * u128::MAX + u128::MAX) by (nonlinear_arith);
            assert((k + 1) * u128::MAX <= c * u128::MAX) by (nonlinear_arith)
                requires
                    k + 1 <= c,
            ;
        }
        waiting.take_in(w, count);
        turnaround.take_in(t, count);
        i += 1;
    }
    assert(records@.take(count as int) =~= records@);
    Ok(Metrics { count, waiting, turnaround })
}

/// The final metrics of a scheduler, which it supplies only once it has
/// stopped. A scheduler that never admitted a process has none.
pub fn final_metrics(engine: &Scheduler) -> (r: Result<Metrics, MetricsError>)
    requires
        engine@.inv(),
    ensures
        match r {
            Ok(m) => {
                &&& engine@.phase is Stopped
                &&& m.count == engine@.records.len()
                &&& m.waiting.is_mean_of(
                    total_waiting(engine@.records),
                    engine@.records.len() as int,
                )
                &&& m.turnaround.is_mean_of(
                    total_turnaround(engine@.records),
                    engine@.records.len() as int,
                )
            },
            Err(MetricsError::NotStopped) => !(engine@.phase is Stopped),
            Err(MetricsError::Empty) => engine@.phase is Stopped && engine@.records.len() == 0,
            Err(_) => false,
        },
{
    if engine.phase() != Phase::Stopped {
        return Err(MetricsError::NotStopped);
    }
    proof {
        let s = engine@;
        assert forall|i: int| 0 <= i < s.records.len() implies (#[trigger] s.records[i]).wf()
            && s.records[i].completion_tick is Some by {
            assert(s.process_inv(i));
        }
    }
    collect(engine.records())
}

} // verus!
