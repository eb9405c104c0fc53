use process_scheduling::clock::{estimated_total_time, ClockAction, ClockDriver};
use process_scheduling::engine::{AcceptError, Scheduler};
use process_scheduling::feeder::{getting_proc_thread, ArrivalFeeder};
use process_scheduling::metrics::{collect, final_metrics, Mean, Metrics, MetricsError};
use process_scheduling::model::{Action, Phase};
use process_scheduling::policy::{Algorithm, Config};
use process_scheduling::process::{Process, ProcessState};
use process_scheduling::record::{diff_time, ProcessRecord};
use process_scheduling::simulation::{process_handler, round};
use std::collections::VecDeque;

fn round_robin(burst_limit: usize) -> Scheduler {
    Scheduler::new(Config::new(Algorithm::RoundRobin, burst_limit).unwrap())
}

#[test]
fn a_new_scheduler_is_idle_at_tick_zero() {
    let mut engine = round_robin(2);
    assert_eq!(engine.now(), 0);
    assert_eq!(engine.phase(), Phase::Running);
    assert!(!engine.runnable());
    assert_eq!(engine.config().burst_limit, 2);
    assert_eq!(engine.step(), Action::Idle);
    assert_eq!(engine.now(), 0);
    assert_eq!(engine.phase(), Phase::Running);
}

#[test]
fn admission_stamps_the_record() {
    let mut engine = round_robin(2);
    engine.idle_until(4);
    assert_eq!(engine.now(), 4);
    assert_eq!(engine.accept(Process::new("A", 3, 1)), Ok(0));
    assert_eq!(engine.accept(Process::new("B", 5, 4)), Ok(1));
    assert_eq!(
        engine.records().clone(),
        vec![
            ProcessRecord {
                entry_tick: 1,
                total_duration: 3,
                admitted_tick: 4,
                completion_tick: None
            },
            ProcessRecord {
                entry_tick: 4,
                total_duration: 5,
                admitted_tick: 4,
                completion_tick: None
            },
        ]
    );
    assert!(engine.runnable());
}

#[test]
fn admission_is_refused_with_a_reason() {
    let mut engine = round_robin(2);
    assert_eq!(engine.accept(Process::new("A", 3, 1)), Err(AcceptError::Early));
    let mut used = Process::new("B", 3, 0);
    used.run_for(1);
    assert_eq!(engine.accept(used), Err(AcceptError::NotFresh));
    let mut working = Process::new("C", 3, 0);
    working.state = ProcessState::Working;
    assert_eq!(engine.accept(working), Err(AcceptError::NotFresh));
    assert!(engine.records().is_empty());
    engine.request_drain();
    assert_eq!(engine.step(), Action::Stopped);
    assert_eq!(engine.accept(Process::new("D", 3, 0)), Err(AcceptError::Stopped));
    assert!(engine.processes().is_empty());
}

#[test]
fn the_clock_does_not_idle_while_work_waits() {
    let mut engine = round_robin(2);
    engine.idle_until(3);
    engine.idle_until(1);
    assert_eq!(engine.now(), 3);
    engine.accept(Process::new("A", 3, 0)).unwrap();
    engine.idle_until(10);
    assert_eq!(engine.now(), 3);
}

#[test]
fn a_preempted_process_queues_behind_new_arrivals() {
    let mut engine = round_robin(2);
    engine.accept(Process::new("A", 5, 0)).unwrap();
    assert_eq!(
        engine.step(),
        Action::Ran { process: 0, start_tick: 0, slice: 2, finished: false }
    );
    assert_eq!(engine.now(), 2);
    engine.accept(Process::new("B", 1, 2)).unwrap();
    assert_eq!(
        engine.step(),
        Action::Ran { process: 1, start_tick: 2, slice: 1, finished: true }
    );
    assert_eq!(engine.records()[1].completion_tick, Some(3));
    assert_eq!(
        engine.step(),
        Action::Ran { process: 0, start_tick: 3, slice: 2, finished: false }
    );
    assert_eq!(engine.processes()[0].remain_time, 1);
    assert_eq!(engine.processes()[0].state, ProcessState::Waiting);
    assert_eq!(
        engine.step(),
        Action::Ran { process: 0, start_tick: 5, slice: 1, finished: true }
    );
    assert_eq!(engine.processes()[0].state, ProcessState::Done);
    assert_eq!(engine.records()[0].completion_tick, Some(6));
    assert_eq!(engine.step(), Action::Idle);
}

#[test]
fn a_drain_stops_the_scheduler_only_once_the_queue_is_empty() {
    let mut engine = round_robin(1);
    engine.accept(Process::new("A", 2, 0)).unwrap();
    engine.request_drain();
    assert_eq!(engine.phase(), Phase::DrainRequested);
    assert_eq!(final_metrics(&engine), Err(MetricsError::NotStopped));
    assert!(matches!(engine.step(), Action::Ran { finished: false, .. }));
    engine.accept(Process::new("B", 1, 1)).unwrap();
    assert!(matches!(engine.step(), Action::Ran { process: 1, finished: true, .. }));
    assert!(matches!(engine.step(), Action::Ran { process: 0, finished: true, .. }));
    assert_eq!(engine.phase(), Phase::DrainRequested);
    assert_eq!(engine.step(), Action::Stopped);
    assert_eq!(engine.phase(), Phase::Stopped);
    assert_eq!(engine.step(), Action::Stopped);
    engine.request_drain();
    engine.idle_until(100);
    assert_eq!(engine.phase(), Phase::Stopped);
    assert_eq!(engine.now(), 3);
    let metrics = final_metrics(&engine).unwrap();
    assert_eq!(metrics.count, 2);
    assert_eq!(engine.records()[0].turnaround_time(), Some(3));
    assert_eq!(engine.records()[1].turnaround_time(), Some(1));
    assert_eq!(metrics.turnaround, Mean { whole: 2, remainder: 0 });
}

#[test]
fn a_process_without_work_finishes_at_once() {
    let mut engine = round_robin(1);
    engine.accept(Process::new("nothing", 0, 0)).unwrap();
    assert_eq!(
        engine.step(),
        Action::Ran { process: 0, start_tick: 0, slice: 0, finished: true }
    );
    assert_eq!(engine.records()[0].completion_tick, Some(0));
    assert_eq!(engine.processes()[0].state, ProcessState::Done);
}

#[test]
fn the_longest_times_do_not_overflow() {
    let max = usize::MAX;
    let procs = vec![Process::new("A", max, max), Process::new("B", max, 0)];
    let config = Config::new(Algorithm::Fcfs, 0).unwrap();
    let engine = process_handler(config, ArrivalFeeder::new(procs)).unwrap();
    assert_eq!(engine.processes()[0].name, "B");
    assert_eq!(engine.records()[0].completion_tick, Some(max as u128));
    assert_eq!(engine.records()[1].completion_tick, Some(2 * max as u128));
    assert_eq!(engine.now(), 2 * max as u128);
    let metrics = final_metrics(&engine).unwrap();
    assert_eq!(metrics.turnaround, Mean { whole: max as u128, remainder: 0 });
    assert_eq!(metrics.waiting, Mean { whole: 0, remainder: 0 });
}

#[test]
fn metrics_are_exact_means() {
    let record = |entry: usize, admitted: u128, completion: u128| ProcessRecord {
        entry_tick: entry,
        total_duration: 1,
        admitted_tick: admitted,
        completion_tick: Some(completion),
    };
    let records = vec![record(0, 0, 3), record(1, 3, 5), record(2, 9, 9)];
    assert_eq!(
        collect(&records),
        Ok(Metrics {
            count: 3,
            waiting: Mean { whole: 3, remainder: 0 },
            turnaround: Mean { whole: 4, remainder: 2 },
        })
    );
    let big = vec![record(0, u128::MAX, u128::MAX), record(0, u128::MAX, u128::MAX)];
    assert_eq!(
        collect(&big),
        Ok(Metrics {
            count: 2,
            waiting: Mean { whole: u128::MAX, remainder: 0 },
            turnaround: Mean { whole: u128::MAX, remainder: 0 },
        })
    );
}

#[test]
fn metrics_refuse_what_cannot_be_averaged() {
    assert_eq!(collect(&Vec::new()), Err(MetricsError::Empty));
    let open = ProcessRecord {
        entry_tick: 0,
        total_duration: 2,
        admitted_tick: 0,
        completion_tick: None,
    };
    assert_eq!(collect(&vec![open]), Err(MetricsError::Unfinished));
    assert_eq!(open.turnaround_time(), None);
    assert!(open.is_consistent());
    let early = ProcessRecord { admitted_tick: 0, entry_tick: 1, ..open };
    assert!(!early.is_consistent());
    assert_eq!(collect(&vec![open, early]), Err(MetricsError::Inconsistent));
    let rushed = ProcessRecord { completion_tick: Some(1), ..open };
    assert!(!rushed.is_consistent());
    assert_eq!(collect(&vec![rushed]), Err(MetricsError::Inconsistent));
}

#[test]
fn time_differences() {
    assert_eq!(diff_time(&3, &10), 7);
    assert_eq!(diff_time(&5, &5), 0);
    assert_eq!(diff_time(&0, &u128::MAX), u128::MAX);
}

#[test]
fn the_relay_keeps_order() {
    let mut inbox: VecDeque<Process> = VecDeque::new();
    inbox.push_back(Process::new("old", 1, 0));
    let mut outbox: VecDeque<Process> = VecDeque::new();
    outbox.push_back(Process::new("A", 1, 0));
    outbox.push_back(Process::new("B", 1, 0));
    outbox.push_back(Process::new("C", 1, 0));
    getting_proc_thread(&mut inbox, &mut outbox);
    assert!(outbox.is_empty());
    let names: Vec<String> = inbox.iter().map(|p| p.name.clone()).collect();
    assert_eq!(names, vec!["old", "A", "B", "C"]);
    getting_proc_thread(&mut inbox, &mut outbox);
    assert_eq!(inbox.len(), 4);
}

#[test]
fn the_estimate_is_one_tick_past_the_makespan() {
    assert_eq!(estimated_total_time(&VecDeque::new()), 1);
    assert_eq!(
        estimated_total_time(&VecDeque::from(vec![Process::new("A", 3, 0), Process::new("B", 2, 1)])),
        6
    );
    assert_eq!(
        estimated_total_time(&VecDeque::from(vec![
            Process::new("A", 3, 2),
            Process::new("B", 2, 10)
        ])),
        13
    );
    let max = usize::MAX;
    assert_eq!(
        estimated_total_time(&VecDeque::from(vec![
            Process::new("A", max, max),
            Process::new("B", max, max)
        ])),
        3 * max as u128 + 1
    );
    assert_eq!(ArrivalFeeder::empty().estimate(), 1);
    for algorithm in [Algorithm::RoundRobin, Algorithm::Fcfs] {
        let procs = vec![Process::new("A", 3, 2), Process::new("B", 4, 3), Process::new("C", 1, 20)];
        let estimate = ArrivalFeeder::new(procs.clone()).estimate();
        let config = Config::new(algorithm, 2).unwrap();
        let engine = process_handler(config, ArrivalFeeder::new(procs)).unwrap();
        assert_eq!(engine.now() + 1, estimate);
    }
}

#[test]
fn the_clock_driver_ticks_delivers_and_asks_for_the_drain() {
    let mut driver = ClockDriver::new(vec![Process::new("B", 1, 2), Process::new("A", 2, 0)]);
    assert_eq!(driver.this_time(), 0);
    assert_eq!(driver.total_time(), 4);
    let mut trace = Vec::new();
    loop {
        match driver.advance() {
            ClockAction::Tick { time } => trace.push(format!("tick {}", time)),
            ClockAction::Deliver { process } => trace.push(format!("deliver {}", process.name)),
            ClockAction::RequestDrain => trace.push("drain".to_string()),
            ClockAction::Finished => break,
        }
    }
    assert_eq!(
        trace,
        vec![
            "deliver A", "tick 0", "tick 1", "deliver B", "tick 2", "tick 3", "tick 4", "drain"
        ]
    );
    assert_eq!(driver.this_time(), 5);
    assert!(matches!(driver.advance(), ClockAction::Finished));
}

#[test]
fn a_round_admits_what_is_due_and_runs_one_slice() {
    let mut engine = round_robin(2);
    let mut feeder = ArrivalFeeder::new(vec![
        Process::new("C", 1, 9),
        Process::new("A", 3, 4),
        Process::new("B", 1, 5),
    ]);
    assert_eq!(
        round(&mut engine, &mut feeder),
        Action::Ran { process: 0, start_tick: 4, slice: 2, finished: false }
    );
    assert_eq!(engine.records()[0].admitted_tick, 4);
    assert_eq!(feeder.len(), 2);
    assert_eq!(
        round(&mut engine, &mut feeder),
        Action::Ran { process: 1, start_tick: 6, slice: 1, finished: true }
    );
    assert_eq!(engine.records()[1].admitted_tick, 6);
    assert_eq!(
        round(&mut engine, &mut feeder),
        Action::Ran { process: 0, start_tick: 7, slice: 1, finished: true }
    );
    assert_eq!(feeder.next_entry(), Some(9));
    assert_eq!(
        round(&mut engine, &mut feeder),
        Action::Ran { process: 2, start_tick: 9, slice: 1, finished: true }
    );
    assert!(feeder.is_closed());
    assert_eq!(round(&mut engine, &mut feeder), Action::Idle);
    assert_eq!(engine.now(), 10);
    engine.request_drain();
    assert_eq!(round(&mut engine, &mut feeder), Action::Stopped);
}

#[test]
fn a_late_submission_queues_behind_its_equals() {
    let mut feeder = ArrivalFeeder::empty();
    assert!(feeder.is_closed());
    feeder.submit(Process::new("B", 1, 5));
    feeder.submit(Process::new("D", 1, 7));
    feeder.submit(Process::new("C", 1, 5));
    feeder.submit(Process::new("A", 1, 0));
    assert!(feeder.all_fresh());
    assert_eq!(feeder.estimate(), 9);
    let mut names = Vec::new();
    while let Some(p) = feeder.poll(7) {
        names.push(p.name);
    }
    assert_eq!(names, vec!["A", "B", "C", "D"]);
    let mut used = Process::new("E", 2, 0);
    used.run_for(2);
    feeder.submit(used);
    assert!(!feeder.all_fresh());
}
