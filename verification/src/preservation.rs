//! Every transition of the scheduler preserves its invariant.

use crate::model::{
    dispatched, lemma_clock_fits, lemma_dispatched_push, lemma_performed_push,
    lemma_performed_update, performed_total, EngineState,
};
use crate::policy::Config;
use crate::process::Process;
use vstd::prelude::*;

verus! {

/// A log that never names a process attributes no work to it.
pub proof fn lemma_dispatched_absent(log: Seq<crate::record::Dispatch>, id: int)
    requires
        forall|k: int| 0 <= k < log.len() ==> (#[trigger] log[k]).process != id,
    ensures
        dispatched(log, id) == 0,
    decreases log.len(),
{
    if log.len() > 0 {
        lemma_dispatched_absent(log.drop_last(), id);
    }
}

/// A new scheduler satisfies the invariant.
pub proof fn lemma_init_inv(config: Config)
    requires
        config.wf(),
    ensures
        EngineState::init(config).inv(),
{
    let s = EngineState::init(config);
    assert(s.ready.no_duplicates());
}

/// Admission preserves the invariant.
pub proof fn lemma_accept_inv(s: EngineState, p: Process)
    requires
        s.inv(),
        s.can_accept(p),
        s.processes.len() < usize::MAX,
    ensures
        s.accept(p).inv(),
{
    let t = s.accept(p);
    let n = s.processes.len() as int;
    lemma_performed_push(s.processes, p);
    lemma_clock_fits(s);
    assert forall|i: int| 0 <= i < t.processes.len() implies #[trigger] t.process_inv(i) by {
        if i < n {
            assert(s.process_inv(i));
            if s.processes[i].state is Waiting && s.held != Some(i as usize) {
                let k = choose|k: int| 0 <= k < s.ready.len() && #[trigger] s.ready[k] == i;
                assert(t.ready[k] == i);
            }
        } else {
            assert(t.ready[s.ready.len() as int] == i);
            lemma_dispatched_absent(s.log, i);
        }
    }
    assert(t.ready.no_duplicates()) by {
        assert forall|a: int, b: int|
            0 <= a < t.ready.len() && 0 <= b < t.ready.len() && a != b implies t.ready[a]
            != t.ready[b] by {
            if a < s.ready.len() {
                assert(s.ready[a] < n);
            }
            if b < s.ready.len() {
                assert(s.ready[b] < n);
            }
        }
    }
    assert(t.queue_inv()) by {
        assert forall|k: int| 0 <= k < t.ready.len() implies {
            &&& (#[trigger] t.ready[k]) < t.processes.len()
            &&& t.processes[t.ready[k] as int].state is Waiting
            &&& t.held != Some(t.ready[k])
        } by {
            if k < s.ready.len() {
                assert(s.ready[k] < n);
            }
        }
    }
    assert(t.log_inv()) by {
        assert forall|k: int| 0 <= k < t.log.len() implies {
            &&& (#[trigger] t.log[k]).process < t.processes.len()
            &&& t.log[k].start_tick + t.log[k].slice <= t.now
            &&& t.config.algorithm is RoundRobin ==> t.log[k].slice <= t.config.burst_limit
            &&& t.config.algorithm is Fcfs ==> t.log[k].slice
                == t.processes[t.log[k].process as int].total_time
        } by {
            assert(s.log[k].process < n);
        }
    }
}

/// A drain request preserves the invariant.
pub proof fn lemma_drain_inv(s: EngineState)
    requires
        s.inv(),
    ensures
        s.request_drain().inv(),
{
    let t = s.request_drain();
    assert forall|i: int| 0 <= i < t.processes.len() implies #[trigger] t.process_inv(i) by {
        assert(s.process_inv(i));
        if s.processes[i].state is Waiting && s.held != Some(i as usize) {
            let k = choose|k: int| 0 <= k < s.ready.len() && #[trigger] s.ready[k] == i;
            assert(t.ready[k] == i);
        }
    }
}

/// Idling preserves the invariant.
pub proof fn lemma_idle_inv(s: EngineState, tick: usize)
    requires
        s.inv(),
    ensures
        s.idle_until(tick).inv(),
{
    let t = s.idle_until(tick);
    assert forall|i: int| 0 <= i < s.processes.len() implies (#[trigger] s.processes[i]).wf() by {
        assert(s.process_inv(i));
    }
    lemma_performed_nonneg(s.processes);
    assert forall|i: int| 0 <= i < t.processes.len() implies #[trigger] t.process_inv(i) by {
        assert(s.process_inv(i));
        if s.processes[i].state is Waiting && s.held != Some(i as usize) {
            let k = choose|k: int| 0 <= k < s.ready.len() && #[trigger] s.ready[k] == i;
            assert(t.ready[k] == i);
        }
    }
}

/// Well-formed processes have performed no negative amount of work.
pub proof fn lemma_performed_nonneg(processes: Seq<Process>)
    requires
        forall|i: int| 0 <= i < processes.len() ==> (#[trigger] processes[i]).wf(),
    ensures
        performed_total(processes) >= 0,
    decreases processes.len(),
{
    if processes.len() > 0 {
        lemma_performed_nonneg(processes.drop_last());
    }
}

/// Requeueing the held process preserves the invariant.
pub proof fn lemma_requeue_inv(s: EngineState)
    requires
        s.inv(),
    ensures
        s.requeued().inv(),
        s.requeued().held is None,
{
    let t = s.requeued();
    if let Some(h) = s.held {
        assert forall|i: int| 0 <= i < t.processes.len() implies #[trigger] t.process_inv(i) by {
            assert(s.process_inv(i));
            if s.processes[i].state is Waiting {
                if i == h {
                    assert(t.ready[s.ready.len() as int] == i);
                } else {
                    let k = choose|k: int| 0 <= k < s.ready.len() && #[trigger] s.ready[k] == i;
                    assert(t.ready[k] == i);
                }
            }
        }
        assert(t.ready.no_duplicates());
    }
}

/// A step preserves the invariant.
pub proof fn lemma_step_inv(s: EngineState)
    requires
        s.inv(),
    ensures
        s.step().inv(),
{
    let q = s.requeued();
    lemma_requeue_inv(s);
    let t = s.step();
    if q.ready.len() == 0 {
        assert forall|i: int| 0 <= i < t.processes.len() implies #[trigger] t.process_inv(i) by {
            assert(q.process_inv(i));
        }
    } else {
        let id = q.ready[0];
        let p = q.processes[id as int];
        let slice = s.next_slice();
        let after = p.after_slice(slice);
        assert(q.process_inv(id as int));
        lemma_clock_fits(q);
        lemma_performed_update(q.processes, id as int, after);
        assert forall|i: int| 0 <= i < t.processes.len() implies #[trigger] t.process_inv(i) by {
            assert(q.process_inv(i));
            lemma_dispatched_push(
                q.log,
                crate::record::Dispatch { process: id, start_tick: q.now as u128, slice },
                i,
            );
            if i != id && q.processes[i].state is Waiting {
                let k = choose|k: int| 0 <= k < q.ready.len() && #[trigger] q.ready[k] == i;
                assert(t.ready[k - 1] == i);
            }
        }
        assert(t.ready.no_duplicates());
        assert(t.queue_inv()) by {
            assert forall|k: int| 0 <= k < t.ready.len() implies {
                &&& (#[trigger] t.ready[k]) < t.processes.len()
                &&& t.processes[t.ready[k] as int].state is Waiting
                &&& t.held != Some(t.ready[k])
            } by {
                assert(t.ready[k] == q.ready[k + 1]);
            }
        }
        assert(t.log_inv()) by {
            assert forall|k: int| 0 <= k < t.log.len() implies {
                &&& (#[trigger] t.log[k]).process < t.processes.len()
                &&& t.log[k].start_tick + t.log[k].slice <= t.now
                &&& t.config.algorithm is RoundRobin ==> t.log[k].slice <= t.config.burst_limit
                &&& t.config.algorithm is Fcfs ==> t.log[k].slice
                    == t.processes[t.log[k].process as int].total_time
            } by {
                if k < q.log.len() {
                    assert(t.log[k] == q.log[k]);
                    assert(q.log[k].process < q.processes.len());
                }
            }
        }
    }
}

} // verus!
