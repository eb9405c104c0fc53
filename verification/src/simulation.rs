//! The whole simulation: the feeder delivers, the scheduler dispatches, and
//! the clock runs until every process has finished.

use crate::engine::Scheduler;
use crate::feeder::ArrivalFeeder;
use crate::model::{Action, EngineState};
use crate::policy::{Algorithm, Config};
use crate::preservation::{lemma_accept_inv, lemma_drain_inv, lemma_idle_inv, lemma_step_inv};
use crate::process::Process;
use vstd::prelude::*;

verus! {

/// Why a simulation was not run.
#[derive(Clone, Copy, Debug, PartialEq, Eq, Structural)]
pub enum SimulationError {
    /// Round-Robin was asked for with a burst limit of zero.
    ZeroBurst,
    /// Some submitted process had already run.
    NotFresh,
}

/// Whether every process is as `Process::new` makes it.
pub open spec fn all_fresh(pending: Seq<Process>) -> bool {
    forall|i: int| 0 <= i < pending.len() ==> (#[trigger] pending[i]).is_fresh()
}

/// What a process still owes: nothing once finished, otherwise its remaining
/// work and one unit for the dispatch that will finish it.
pub open spec fn owed(p: Process) -> int {
    if p.state is Done {
        0
    } else {
        p.remain_time + 1
    }
}

/// What the admitted processes still owe together.
pub open spec fn backlog(processes: Seq<Process>) -> int
    decreases processes.len(),
{
    if processes.len() == 0 {
        0
    } else {
        backlog(processes.drop_last()) + owed(processes.last())
    }
}

/// What the processes still to arrive will owe.
pub open spec fn demand(pending: Seq<Process>) -> int
    decreases pending.len(),
{
    if pending.len() == 0 {
        0
    } else {
        pending[0].total_time + 1 + demand(pending.drop_first())
    }
}

/// A bound on the dispatches that the simulation still has to make.
pub open spec fn weight(s: EngineState, pending: Seq<Process>) -> int {
    backlog(s.processes) + demand(pending)
}

/// The scheduler takes in, in order, every pending process whose arrival
/// tick has come. Returns the scheduler and what stays pending.
pub open spec fn admit_due(s: EngineState, pending: Seq<Process>) -> (EngineState, Seq<Process>)
    decreases pending.len(),
{
    if pending.len() > 0 && s.can_accept(pending[0]) {
        admit_due(s.accept(pending[0]), pending.drop_first())
    } else {
        (s, pending)
    }
}

/// The admission phase of one round: an idle scheduler lets the clock run
/// to the next arrival, then everything due is admitted.
pub open spec fn arrive(s: EngineState, pending: Seq<Process>) -> (EngineState, Seq<Process>) {
    if pending.len() > 0 {
        admit_due(s.idle_until(pending[0].entry_time), pending)
    } else {
        (s, pending)
    }
}

/// What a simulation may start from: a scheduler that satisfies its
/// invariant and has not stopped, and fresh processes, few enough to count.
pub open spec fn ready_to_run(s: EngineState, pending: Seq<Process>) -> bool {
    &&& s.inv()
    &&& !(s.phase is Stopped)
    &&& all_fresh(pending)
    &&& s.processes.len() + pending.len() <= usize::MAX
}

/// The simulation. Each round admits what is due and dispatches one slice.
/// When nothing is left to run and nothing is left to arrive, the drain is
/// requested and the scheduler stops.
pub open spec fn run(s: EngineState, pending: Seq<Process>) -> EngineState
    decreases weight(s, pending),
    when ready_to_run(s, pending)
{
    let (s1, rest) = arrive(s, pending);
    if s1.runnable() {
        proof {
            lemma_round(s, pending);
        }
        run(s1.step(), rest)
    } else {
        s1.request_drain().step()
    }
}

/// Appending a process adds what it owes.
pub proof fn lemma_backlog_push(processes: Seq<Process>, p: Process)
    ensures
        backlog(processes.push(p)) == backlog(processes) + owed(p),
{
    assert(processes.push(p).drop_last() =~= processes);
}

/// Replacing a process changes the backlog by the difference of what the two
/// owe.
pub proof fn lemma_backlog_update(processes: Seq<Process>, i: int, p: Process)
    requires
        0 <= i < processes.len(),
    ensures
        backlog(processes.update(i, p)) == backlog(processes) - owed(processes[i]) + owed(p),
    decreases processes.len(),
{
    let updated = processes.update(i, p);
    if i == processes.len() - 1 {
        assert(updated.drop_last() =~= processes.drop_last());
    } else {
        assert(updated.drop_last() =~= processes.drop_last().update(i, p));
        lemma_backlog_update(processes.drop_last(), i, p);
    }
}

/// Nothing owes a negative amount.
pub proof fn lemma_weight_nonneg(processes: Seq<Process>, pending: Seq<Process>)
    ensures
        backlog(processes) >= 0,
        demand(pending) >= 0,
    decreases processes.len() + pending.len(),
{
    if processes.len() > 0 {
        lemma_weight_nonneg(processes.drop_last(), pending);
    } else if pending.len() > 0 {
        lemma_weight_nonneg(processes, pending.drop_first());
    }
}

/// Admitting what is due preserves the invariant and the weight, leaves the
/// clock and the phase alone, and leaves pending only what is not yet due.
pub proof fn lemma_admit_due(s: EngineState, pending: Seq<Process>)
    requires
        ready_to_run(s, pending),
    ensures
        ready_to_run(admit_due(s, pending).0, admit_due(s, pending).1),
        weight(admit_due(s, pending).0, admit_due(s, pending).1) == weight(s, pending),
        admit_due(s, pending).0.now == s.now,
        admit_due(s, pending).0.phase == s.phase,
        admit_due(s, pending).0.config == s.config,
        admit_due(s, pending).0.processes.len() + admit_due(s, pending).1.len()
            == s.processes.len() + pending.len(),
        s.runnable() ==> admit_due(s, pending).0.runnable(),
        pending.len() > 0 && pending[0].entry_time <= s.now ==> admit_due(
            s,
            pending,
        ).0.runnable(),
        admit_due(s, pending).1.len() > 0 ==> admit_due(s, pending).1[0].entry_time > s.now,
    decreases pending.len(),
{
    if pending.len() > 0 && s.can_accept(pending[0]) {
        let p = pending[0];
        let d = pending.drop_first();
        lemma_accept_inv(s, p);
        lemma_backlog_push(s.processes, p);
        assert(all_fresh(d)) by {
            assert forall|i: int| 0 <= i < d.len() implies (#[trigger] d[i]).is_fresh() by {
                assert(d[i] == pending[i + 1]);
            }
        }
        lemma_admit_due(s.accept(p), d);
    }
}

/// A step of a scheduler with something to run lowers the backlog and keeps
/// the phase and the number of processes.
pub proof fn lemma_step_progress(s: EngineState)
    requires
        s.inv(),
        s.runnable(),
    ensures
        backlog(s.step().processes) < backlog(s.processes),
        s.step().phase == s.phase,
        s.step().config == s.config,
        s.step().processes.len() == s.processes.len(),
{
    let q = s.requeued();
    crate::preservation::lemma_requeue_inv(s);
    let id = q.ready[0];
    assert(q.process_inv(id as int));
    let after = q.processes[id as int].after_slice(s.next_slice());
    lemma_backlog_update(q.processes, id as int, after);
}

/// One round keeps the simulation ready to run. Its admission phase
/// preserves the weight; its dispatch lowers it; and when nothing can be
/// dispatched, nothing is left to arrive.
pub proof fn lemma_round(s: EngineState, pending: Seq<Process>)
    requires
        ready_to_run(s, pending),
    ensures
        ready_to_run(arrive(s, pending).0, arrive(s, pending).1),
        weight(arrive(s, pending).0, arrive(s, pending).1) == weight(s, pending),
        arrive(s, pending).0.config == s.config,
        arrive(s, pending).0.processes.len() + arrive(s, pending).1.len() == s.processes.len()
            + pending.len(),
        arrive(s, pending).0.runnable() ==> {
            &&& ready_to_run(arrive(s, pending).0.step(), arrive(s, pending).1)
            &&& weight(arrive(s, pending).0.step(), arrive(s, pending).1) < weight(s, pending)
            &&& weight(arrive(s, pending).0.step(), arrive(s, pending).1) >= 0
        },
        !arrive(s, pending).0.runnable() ==> arrive(s, pending).1.len() == 0,
{
    let (s1, rest) = arrive(s, pending);
    if pending.len() > 0 {
        let idle = s.idle_until(pending[0].entry_time);
        lemma_idle_inv(s, pending[0].entry_time);
        lemma_admit_due(idle, pending);
    }
    if s1.runnable() {
        lemma_step_inv(s1);
        lemma_step_progress(s1);
        lemma_weight_nonneg(s1.step().processes, rest);
    }
}

/// A simulation ends with the scheduler stopped, every submitted process
/// admitted and every admitted process finished.
pub proof fn lemma_run_completes(s: EngineState, pending: Seq<Process>)
    requires
        ready_to_run(s, pending),
    ensures
        run(s, pending).inv(),
        run(s, pending).phase is Stopped,
        run(s, pending).all_done(),
        run(s, pending).processes.len() == s.processes.len() + pending.len(),
        run(s, pending).config == s.config,
    decreases weight(s, pending),
{
    let (s1, rest) = arrive(s, pending);
    lemma_round(s, pending);
    if s1.runnable() {
        lemma_run_completes(s1.step(), rest);
    } else {
        let d = s1.request_drain();
        lemma_drain_inv(s1);
        lemma_step_inv(d);
        let r = d.step();
        assert forall|i: int| 0 <= i < r.processes.len() implies (
        #[trigger] r.processes[i]).state is Done by {
            assert(s1.process_inv(i));
        }
    }
}

/// One round of the simulation: an idle scheduler lets the clock run to
/// the next arrival, everything due is admitted, and the scheduler takes one
/// step.
pub fn round(engine: &mut Scheduler, feeder: &mut ArrivalFeeder) -> (action: Action)
    requires
        ready_to_run(old(engine)@, old(feeder)@),
    ensures
        final(engine)@ == arrive(old(engine)@, old(feeder)@).0.step(),
        final(feeder)@ == arrive(old(engine)@, old(feeder)@).1,
        action == arrive(old(engine)@, old(feeder)@).0.step_action(),
        final(engine)@.inv(),
        all_fresh(final(feeder)@),
        old(feeder).wf() ==> final(feeder).wf(),
{
    let ghost before = engine@;
    let ghost pending = feeder@;
    proof {
        lemma_round(before, pending);
    }
    if let Some(entry) = feeder.next_entry() {
        engine.idle_until(entry);
        proof {
            lemma_idle_inv(before, entry);
            lemma_admit_due(engine@, pending);
        }
    }
    loop
        invariant
            ready_to_run(engine@, feeder@),
            admit_due(engine@, feeder@) == arrive(before, pending),
            old(feeder).wf() ==> feeder.wf(),
        ensures
            (engine@, feeder@) == arrive(before, pending),
            engine@.inv(),
            all_fresh(feeder@),
            old(feeder).wf() ==> feeder.wf(),
        decreases feeder@.len(),
    {
        match feeder.poll(engine.now()) {
            Some(p) => {
                proof {
                    lemma_accept_inv(engine@, p);
                    assert(all_fresh(feeder@)) by {
                        let older = feeder@;
                        assert forall|i: int| 0 <= i < older.len() implies (
                        #[trigger] older[i]).is_fresh() by {
                            assert(older[i] == (seq![p] + older)[i + 1]);
                        }
                    }
                }
                let _ = engine.accept(p);
            },
            None => {
                break ;
            },
        }
    }
    engine.step()
}

/// Runs the simulation from tick zero until every process that the feeder
/// holds has been admitted and has finished, and returns the stopped
/// scheduler. A configuration of Round-Robin without a burst, and a feeder
/// holding a process that has already run, are refused.
pub fn process_handler(config: Config, feeder: ArrivalFeeder) -> (r: Result<
    Scheduler,
    SimulationError,
>)
    ensures
        match r {
            Ok(s) => {
                &&& config.wf()
                &&& all_fresh(feeder@)
                &&& s@ == run(EngineState::init(config), feeder@)
                &&& s@.inv()
                &&& s@.phase is Stopped
                &&& s@.all_done()
                &&& s@.processes.len() == feeder@.len()
            },
            Err(SimulationError::ZeroBurst) => !config.wf(),
            Err(SimulationError::NotFresh) => config.wf() && !all_fresh(feeder@),
        },
{
    if config.algorithm == Algorithm::RoundRobin && config.burst_limit == 0 {
        return Err(SimulationError::ZeroBurst);
    }
    if !feeder.all_fresh() {
        return Err(SimulationError::NotFresh);
    }
    let ghost submitted = feeder@;
    let mut source = feeder;
    let mut engine = Scheduler::new(config);
    let count: usize = source.len();
    let ghost target = run(EngineState::init(config), submitted);
    proof {
        assert(submitted.len() == count);
        lemma_run_completes(engine@, submitted);
    }
    loop
        invariant
            config.wf(),
            submitted == feeder@,
            all_fresh(submitted),
            ready_to_run(engine@, source@),
            run(engine@, source@) == target,
            target == run(EngineState::init(config), submitted),
            target.inv(),
            target.phase is Stopped,
            target.all_done(),
            target.processes.len() == submitted.len(),
        decreases weight(engine@, source@),
    {
        let ghost before = engine@;
        let ghost pending = source@;
        proof {
            lemma_round(before, pending);
        }
        match round(&mut engine, &mut source) {
            Action::Ran { .. } => {},
            _ => {
                proof {
                    lemma_drain_inv(engine@);
                }
                engine.request_drain();
                let _ = engine.step();
                assert(engine@ == run(before, pending));
                return Ok(engine);
            },
        }
    }
}

} // verus!
