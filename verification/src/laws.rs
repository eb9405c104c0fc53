//! What holds of every state that the scheduler can reach, and of every
//! simulation.

use crate::clock::{makespan, makespan_from};
use crate::feeder::{landing, lemma_landing, sorted_arrivals};
use crate::model::{dispatched, Action, EngineState, Phase};
use crate::preservation::{lemma_requeue_inv, lemma_step_inv};
use crate::process::Process;
use crate::simulation::{admit_due, arrive, lemma_round, ready_to_run, run, weight};
use vstd::prelude::*;

verus! {

/// Conservation of work: at any point, the work that a process has
/// performed is the sum of the slices it was dispatched for; once the
/// process is done, that sum is exactly the work it needed.
pub proof fn law_conservation(s: EngineState, i: int)
    requires
        s.inv(),
        0 <= i < s.processes.len(),
    ensures
        s.records[i].total_duration - s.processes[i].remain_time == dispatched(s.log, i),
        s.processes[i].state is Done ==> dispatched(s.log, i) == s.records[i].total_duration,
{
    assert(s.process_inv(i));
}

/// Round-Robin slice bound: under Round-Robin no dispatch, past or next,
/// lasts longer than the burst limit.
pub proof fn law_round_robin_slice_bound(s: EngineState, k: int)
    requires
        s.inv(),
        s.config.algorithm is RoundRobin,
    ensures
        0 <= k < s.log.len() ==> s.log[k].slice <= s.config.burst_limit,
        s.step_action() matches Action::Ran { slice, .. } ==> slice <= s.config.burst_limit,
{
    lemma_requeue_inv(s);
    let q = s.requeued();
    if q.ready.len() > 0 {
        assert(q.process_inv(q.ready[0] as int));
    }
}

/// First-Come-First-Served never preempts: no process is held for
/// requeueing, every process is either untouched or done, every dispatch
/// so far lasted as long as its process needed, and the next dispatch
/// finishes the process it runs.
pub proof fn law_fcfs_non_preemption(s: EngineState)
    requires
        s.inv(),
        s.config.algorithm is Fcfs,
    ensures
        s.held is None,
        s.step().held is None,
        s.step_action() matches Action::Ran { process, finished, .. } ==> finished
            && s.step().processes[process as int].state is Done,
        forall|i: int|
            0 <= i < s.processes.len() ==> (#[trigger] s.processes[i]).state is Done
                || s.processes[i].remain_time == s.processes[i].total_time,
        forall|k: int|
            0 <= k < s.log.len() ==> (#[trigger] s.log[k]).slice
                == s.records[s.log[k].process as int].total_duration,
{
    lemma_requeue_inv(s);
    lemma_step_inv(s);
    let q = s.requeued();
    if q.ready.len() > 0 {
        assert(q.process_inv(q.ready[0] as int));
    }
    assert forall|i: int| 0 <= i < s.processes.len() implies (
    #[trigger] s.processes[i]).state is Done || s.processes[i].remain_time
        == s.processes[i].total_time by {
        assert(s.process_inv(i));
    }
    assert forall|k: int| 0 <= k < s.log.len() implies (#[trigger] s.log[k]).slice
        == s.records[s.log[k].process as int].total_duration by {
        assert(s.process_inv(s.log[k].process as int));
    }
}

/// Turnaround floor: a finished process has a turnaround time no shorter
/// than the work it needed, and never waited a negative time.
pub proof fn law_turnaround_floor(s: EngineState, i: int)
    requires
        s.inv(),
        0 <= i < s.records.len(),
    ensures
        s.records[i].wf(),
        s.records[i].waiting() >= 0,
        s.records[i].completion_tick is Some ==> s.records[i].turnaround()
            >= s.records[i].total_duration,
        s.records[i].completion_tick is Some <==> s.processes[i].state is Done,
{
    assert(s.process_inv(i));
}

/// The termination handshake: the phase only moves forward, from running
/// to drain requested to stopped. Only a drain request leaves `Running`;
/// only a step leaves `DrainRequested`, and only when nothing is left to
/// run, however much time has passed. A stopped scheduler stays as it is,
/// whatever it is asked.
pub proof fn law_handshake(s: EngineState, p: Process, tick: usize)
    requires
        s.inv(),
    ensures
        EngineState::init(s.config).phase is Running,
        s.request_drain().phase == if s.phase is Running {
            Phase::DrainRequested
        } else {
            s.phase
        },
        s.step().phase == if s.phase is DrainRequested && !s.runnable() {
            Phase::Stopped
        } else {
            s.phase
        },
        s.idle_until(tick).phase == s.phase,
        s.can_accept(p) ==> s.accept(p).phase == s.phase,
        s.phase is Stopped ==> {
            &&& s.step() == s
            &&& s.step_action() == Action::Stopped
            &&& s.request_drain() == s
            &&& s.idle_until(tick) == s
            &&& !s.can_accept(p)
            &&& s.all_done()
        },
{
    if s.phase is Stopped {
        assert forall|i: int| 0 <= i < s.processes.len() implies (
        #[trigger] s.processes[i]).state is Done by {
            assert(s.process_inv(i));
        }
    }
}

/// The dispatches never overlap: each slice ends before the next begins,
/// and the last has ended by now.
pub proof fn law_one_processor(s: EngineState, k: int)
    requires
        s.inv(),
        0 <= k < s.log.len(),
    ensures
        s.log[k].start_tick + s.log[k].slice <= s.now,
{
}

/// Whether two processes are the same submission: same name, same work,
/// same arrival tick.
pub open spec fn same_submission(p: Process, q: Process) -> bool {
    p.name == q.name && p.total_time == q.total_time && p.entry_time == q.entry_time
}

/// Whether `after` keeps every process of `before` at its position.
pub open spec fn extends(before: EngineState, after: EngineState) -> bool {
    &&& before.processes.len() <= after.processes.len()
    &&& forall|i: int|
        0 <= i < before.processes.len() ==> same_submission(
            #[trigger] after.processes[i],
            before.processes[i],
        )
}

/// Admission takes the pending processes in the order in which they stand.
pub proof fn lemma_admit_due_in_order(s: EngineState, pending: Seq<Process>)
    ensures
        extends(s, admit_due(s, pending).0),
        admit_due(s, pending).0.processes.len() + admit_due(s, pending).1.len()
            == s.processes.len() + pending.len(),
        forall|j: int|
            0 <= j < admit_due(s, pending).0.processes.len() - s.processes.len()
                ==> same_submission(
                #[trigger] admit_due(s, pending).0.processes[s.processes.len() + j],
                pending[j],
            ),
        forall|j: int|
            0 <= j < admit_due(s, pending).1.len() ==> (#[trigger] admit_due(s, pending).1[j])
                == pending[pending.len() - admit_due(s, pending).1.len() + j],
    decreases pending.len(),
{
    if pending.len() > 0 && s.can_accept(pending[0]) {
        let t = s.accept(pending[0]);
        let d = pending.drop_first();
        lemma_admit_due_in_order(t, d);
        let (u, rest) = admit_due(t, d);
        assert forall|i: int| 0 <= i < s.processes.len() implies same_submission(
            #[trigger] u.processes[i],
            s.processes[i],
        ) by {
            assert(same_submission(u.processes[i], t.processes[i]));
        }
        let n = s.processes.len() as int;
        assert forall|j: int| 0 <= j < u.processes.len() - n implies same_submission(
            #[trigger] u.processes[n + j],
            pending[j],
        ) by {
            if j == 0 {
                assert(same_submission(u.processes[n], t.processes[n]));
            } else {
                assert(same_submission(u.processes[t.processes.len() + (j - 1)], d[j - 1]));
            }
        }
        assert forall|j: int| 0 <= j < rest.len() implies (#[trigger] rest[j])
            == pending[pending.len() - rest.len() + j] by {
            assert(rest[j] == d[d.len() - rest.len() + j]);
        }
    }
}

/// Admission order: a simulation admits every pending process, in the
/// order in which the feeder holds them, behind those admitted before.
pub proof fn law_admission_order(s: EngineState, pending: Seq<Process>)
    requires
        ready_to_run(s, pending),
    ensures
        extends(s, run(s, pending)),
        run(s, pending).processes.len() == s.processes.len() + pending.len(),
        forall|j: int|
            0 <= j < pending.len() ==> same_submission(
                #[trigger] run(s, pending).processes[s.processes.len() + j],
                pending[j],
            ),
    decreases weight(s, pending),
{
    let (s1, rest) = arrive(s, pending);
    lemma_round(s, pending);
    let idle = if pending.len() > 0 {
        s.idle_until(pending[0].entry_time)
    } else {
        s
    };
    if pending.len() > 0 {
        lemma_admit_due_in_order(idle, pending);
    } else {
        assert(s1 == s);
    }
    let admitted = s1.processes.len() - s.processes.len();
    let r = run(s, pending);
    let mid = if s1.runnable() {
        s1.step()
    } else {
        s1.request_drain()
    };
    assert(extends(s1, mid)) by {
        lemma_requeue_inv(s1);
    }
    if s1.runnable() {
        law_admission_order(mid, rest);
    } else {
        crate::preservation::lemma_drain_inv(s1);
        lemma_requeue_inv(mid);
    }
    assert(extends(mid, r));
    assert forall|i: int| 0 <= i < s.processes.len() implies same_submission(
        #[trigger] r.processes[i],
        s.processes[i],
    ) by {
        assert(same_submission(r.processes[i], mid.processes[i]));
        assert(same_submission(mid.processes[i], s1.processes[i]));
        assert(same_submission(s1.processes[i], s.processes[i]));
    }
    assert forall|j: int| 0 <= j < pending.len() implies same_submission(
        #[trigger] r.processes[s.processes.len() + j],
        pending[j],
    ) by {
        if j < admitted {
            let i = s.processes.len() + j;
            assert(same_submission(r.processes[i], mid.processes[i]));
            assert(same_submission(mid.processes[i], s1.processes[i]));
            assert(same_submission(s1.processes[i], pending[j]));
        } else {
            assert(s1.runnable());
            let k = j - admitted;
            assert(same_submission(r.processes[mid.processes.len() + k], rest[k]));
            assert(rest[k] == pending[pending.len() - rest.len() + k]);
        }
    }
}

/// At the end of a simulation every process has finished, after exactly the
/// work it needed, and no sooner than that work takes from its arrival.
pub proof fn law_simulation_outcome(s: EngineState, pending: Seq<Process>, i: int)
    requires
        ready_to_run(s, pending),
        0 <= i < s.processes.len() + pending.len(),
    ensures
        run(s, pending).processes[i].state is Done,
        run(s, pending).processes[i].remain_time == 0,
        run(s, pending).records[i].completion_tick is Some,
        dispatched(run(s, pending).log, i) == run(s, pending).records[i].total_duration,
        run(s, pending).records[i].turnaround() >= run(s, pending).records[i].total_duration,
        run(s, pending).records[i].completion_tick->Some_0 <= run(s, pending).now,
{
    crate::simulation::lemma_run_completes(s, pending);
    let r = run(s, pending);
    assert(r.process_inv(i));
    assert(r.processes[i].state is Done);
}

/// Tie-break determinism: of two submissions, the one that arrives earlier,
/// or arrives at the same tick and was submitted first, is delivered by the
/// feeder, and admitted by a simulation from an empty scheduler, at the
/// earlier position. The positions are those of `landing`, a function of
/// the submissions alone.
pub proof fn law_tie_break(s: EngineState, submitted: Seq<Process>, i: int, j: int)
    requires
        ready_to_run(s, sorted_arrivals(submitted)),
        s.processes.len() == 0,
        0 <= i < submitted.len(),
        0 <= j < submitted.len(),
        submitted[i].entry_time < submitted[j].entry_time || (submitted[i].entry_time
            == submitted[j].entry_time && i < j),
    ensures
        0 <= landing(submitted)[i] < landing(submitted)[j] < submitted.len(),
        sorted_arrivals(submitted)[landing(submitted)[i]] == submitted[i],
        sorted_arrivals(submitted)[landing(submitted)[j]] == submitted[j],
        same_submission(
            run(s, sorted_arrivals(submitted)).processes[landing(submitted)[i]],
            submitted[i],
        ),
        same_submission(
            run(s, sorted_arrivals(submitted)).processes[landing(submitted)[j]],
            submitted[j],
        ),
{
    let sorted = sorted_arrivals(submitted);
    let r = run(s, sorted);
    lemma_landing(submitted);
    law_admission_order(s, sorted);
    assert(crate::feeder::precedes(submitted, i, j));
    assert(same_submission(
        r.processes[s.processes.len() + landing(submitted)[i]],
        sorted[landing(submitted)[i]],
    ));
    assert(same_submission(
        r.processes[s.processes.len() + landing(submitted)[j]],
        sorted[landing(submitted)[j]],
    ));
}

/// Work that the admitted processes still have to perform.
pub open spec fn remaining_total(processes: Seq<Process>) -> int
    decreases processes.len(),
{
    if processes.len() == 0 {
        0
    } else {
        remaining_total(processes.drop_last()) + processes.last().remain_time
    }
}

/// Appending a process adds its remaining work.
proof fn lemma_remaining_push(processes: Seq<Process>, p: Process)
    ensures
        remaining_total(processes.push(p)) == remaining_total(processes) + p.remain_time,
        remaining_total(processes) >= 0,
    decreases processes.len(),
{
    assert(processes.push(p).drop_last() =~= processes);
    if processes.len() > 0 {
        lemma_remaining_push(processes.drop_last(), processes.last());
        assert(processes.drop_last().push(processes.last()) =~= processes);
    }
}

/// Replacing a process changes the remaining work by the difference.
proof fn lemma_remaining_update(processes: Seq<Process>, i: int, p: Process)
    requires
        0 <= i < processes.len(),
    ensures
        remaining_total(processes.update(i, p)) == remaining_total(processes)
            - processes[i].remain_time + p.remain_time,
    decreases processes.len(),
{
    let updated = processes.update(i, p);
    if i == processes.len() - 1 {
        assert(updated.drop_last() =~= processes.drop_last());
    } else {
        assert(updated.drop_last() =~= processes.drop_last().update(i, p));
        lemma_remaining_update(processes.drop_last(), i, p);
    }
}

/// Processes with no work left have no work left together.
proof fn lemma_remaining_none(processes: Seq<Process>)
    requires
        forall|i: int| 0 <= i < processes.len() ==> (#[trigger] processes[i]).remain_time == 0,
    ensures
        remaining_total(processes) == 0,
    decreases processes.len(),
{
    if processes.len() > 0 {
        assert(processes.last() == processes[processes.len() - 1]);
        assert forall|i: int| 0 <= i < processes.drop_last().len() implies (
        #[trigger] processes.drop_last()[i]).remain_time == 0 by {
            assert(processes.drop_last()[i] == processes[i]);
        }
        lemma_remaining_none(processes.drop_last());
    }
}

/// A scheduler with nothing to run has no work left.
proof fn lemma_idle_means_done(s: EngineState)
    requires
        s.inv(),
        !s.runnable(),
    ensures
        remaining_total(s.processes) == 0,
        s.all_done(),
{
    assert forall|i: int| 0 <= i < s.processes.len() implies (
    #[trigger] s.processes[i]).remain_time == 0 && s.processes[i].state is Done by {
        assert(s.process_inv(i));
    }
    lemma_remaining_none(s.processes);
}

/// Admission does not move the tick at which all the work will be done.
proof fn lemma_admit_due_makespan(s: EngineState, pending: Seq<Process>)
    requires
        ready_to_run(s, pending),
    ensures
        makespan_from(
            admit_due(s, pending).0.now + remaining_total(admit_due(s, pending).0.processes),
            admit_due(s, pending).1,
        ) == makespan_from(s.now + remaining_total(s.processes), pending),
    decreases pending.len(),
{
    if pending.len() > 0 && s.can_accept(pending[0]) {
        let p = pending[0];
        let d = pending.drop_first();
        crate::preservation::lemma_accept_inv(s, p);
        lemma_remaining_push(s.processes, p);
        assert(crate::simulation::all_fresh(d)) by {
            assert forall|i: int| 0 <= i < d.len() implies (#[trigger] d[i]).is_fresh() by {
                assert(d[i] == pending[i + 1]);
            }
        }
        lemma_admit_due_makespan(s.accept(p), d);
    }
}

/// The scheduler wastes no time: a simulation ends at the tick at which a
/// processor that is never idle while work is waiting finishes all of it.
/// From an empty scheduler at tick zero that is the makespan of the
/// processes, whichever the algorithm, so the estimate of the clock driver
/// is one tick past the end of the simulation.
pub proof fn law_makespan(s: EngineState, pending: Seq<Process>)
    requires
        ready_to_run(s, pending),
    ensures
        run(s, pending).now == makespan_from(s.now + remaining_total(s.processes), pending),
        s == EngineState::init(s.config) ==> run(s, pending).now == makespan(pending),
    decreases weight(s, pending),
{
    let (s1, rest) = arrive(s, pending);
    lemma_round(s, pending);
    if pending.len() > 0 {
        let idle = s.idle_until(pending[0].entry_time);
        crate::preservation::lemma_idle_inv(s, pending[0].entry_time);
        if !s.runnable() {
            lemma_idle_means_done(s);
        }
        lemma_admit_due_makespan(idle, pending);
    }
    if s1.runnable() {
        let q = s1.requeued();
        lemma_requeue_inv(s1);
        let id = q.ready[0];
        assert(q.process_inv(id as int));
        lemma_remaining_update(
            q.processes,
            id as int,
            q.processes[id as int].after_slice(s1.next_slice()),
        );
        crate::model::lemma_clock_fits(q);
        law_makespan(s1.step(), rest);
    } else {
        lemma_idle_means_done(s1);
    }
}

} // verus!
