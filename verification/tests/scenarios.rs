use process_scheduling::engine::Scheduler;
use process_scheduling::feeder::ArrivalFeeder;
use process_scheduling::metrics::{collect, final_metrics, Mean, MetricsError};
use process_scheduling::model::Phase;
use process_scheduling::policy::{Algorithm, Config};
use process_scheduling::process::{Process, ProcessState};
use process_scheduling::record::Dispatch;
use process_scheduling::simulation::{process_handler, SimulationError};

fn simulate(algorithm: Algorithm, burst_limit: usize, procs: Vec<Process>) -> Scheduler {
    let config = Config::new(algorithm, burst_limit).unwrap();
    process_handler(config, ArrivalFeeder::new(procs)).unwrap()
}

fn mean_as_float(mean: Mean, count: usize) -> f64 {
    mean.whole as f64 + mean.remainder as f64 / count as f64
}

fn two_processes() -> Vec<Process> {
    vec![Process::new("A", 3, 0), Process::new("B", 2, 1)]
}

#[test]
fn fcfs_runs_each_process_to_completion() {
    let engine = simulate(Algorithm::Fcfs, 1, two_processes());
    let records = engine.records();
    assert_eq!(records.len(), 2);
    assert_eq!(records[0].completion_tick, Some(3));
    assert_eq!(records[1].completion_tick, Some(5));
    assert_eq!(records[0].turnaround_time(), Some(3));
    assert_eq!(records[1].turnaround_time(), Some(4));
    assert_eq!(records[0].admitted_tick, 0);
    assert_eq!(records[1].admitted_tick, 3);
    assert_eq!(records[0].waiting_time(), 0);
    assert_eq!(records[1].waiting_time(), 2);
    assert_eq!(
        engine.log().clone(),
        vec![
            Dispatch { process: 0, start_tick: 0, slice: 3 },
            Dispatch { process: 1, start_tick: 3, slice: 2 },
        ]
    );
    let metrics = final_metrics(&engine).unwrap();
    assert_eq!(metrics.count, 2);
    assert_eq!(metrics.turnaround, Mean { whole: 3, remainder: 1 });
    assert_eq!(mean_as_float(metrics.turnaround, metrics.count), 3.5);
    assert_eq!(mean_as_float(metrics.waiting, metrics.count), 1.0);
}

#[test]
fn round_robin_with_burst_one_interleaves() {
    let engine = simulate(Algorithm::RoundRobin, 1, two_processes());
    let records = engine.records();
    assert_eq!(records[0].completion_tick, Some(5));
    assert_eq!(records[1].completion_tick, Some(4));
    assert_eq!(records[0].turnaround_time(), Some(5));
    assert_eq!(records[1].turnaround_time(), Some(3));
    let order: Vec<usize> = engine.log().iter().map(|d| d.process).collect();
    assert_eq!(order, vec![0, 1, 0, 1, 0]);
    let starts: Vec<u128> = engine.log().iter().map(|d| d.start_tick).collect();
    assert_eq!(starts, vec![0, 1, 2, 3, 4]);
    let metrics = final_metrics(&engine).unwrap();
    assert_eq!(metrics.turnaround, Mean { whole: 4, remainder: 0 });
    assert_eq!(mean_as_float(metrics.turnaround, metrics.count), 4.0);
}

#[test]
fn single_process_under_either_algorithm() {
    for algorithm in [Algorithm::RoundRobin, Algorithm::Fcfs] {
        let engine = simulate(algorithm, 1, vec![Process::new("A", 4, 0)]);
        let record = engine.records()[0];
        assert_eq!(record.completion_tick, Some(4));
        assert_eq!(record.turnaround_time(), Some(4));
        assert_eq!(record.waiting_time(), 0);
        assert_eq!(engine.now(), 4);
        let metrics = final_metrics(&engine).unwrap();
        assert_eq!(metrics.count, 1);
        assert_eq!(metrics.turnaround, Mean { whole: 4, remainder: 0 });
        assert_eq!(metrics.waiting, Mean { whole: 0, remainder: 0 });
    }
}

#[test]
fn empty_input_has_no_completions_and_no_metrics() {
    let engine = simulate(Algorithm::RoundRobin, 1, Vec::new());
    assert_eq!(engine.phase(), Phase::Stopped);
    assert!(engine.records().is_empty());
    assert!(engine.log().is_empty());
    assert_eq!(engine.now(), 0);
    assert_eq!(final_metrics(&engine), Err(MetricsError::Empty));
    assert_eq!(collect(&Vec::new()), Err(MetricsError::Empty));
}

#[test]
fn equal_arrival_ticks_keep_submission_order() {
    for _ in 0..3 {
        for algorithm in [Algorithm::RoundRobin, Algorithm::Fcfs] {
            let engine = simulate(
                algorithm,
                1,
                vec![Process::new("A", 2, 0), Process::new("B", 2, 0)],
            );
            assert_eq!(engine.processes()[0].name, "A");
            assert_eq!(engine.processes()[1].name, "B");
            assert_eq!(engine.log()[0].process, 0);
            assert_eq!(engine.records()[0].admitted_tick, 0);
            assert_eq!(engine.records()[1].admitted_tick, 0);
        }
    }
}

#[test]
fn feeder_sorts_by_arrival_and_keeps_ties_in_order() {
    let mut feeder = ArrivalFeeder::new(vec![
        Process::new("late", 1, 5),
        Process::new("first", 1, 2),
        Process::new("second", 1, 2),
        Process::new("early", 1, 0),
        Process::new("third", 1, 2),
    ]);
    assert_eq!(feeder.len(), 5);
    assert_eq!(feeder.next_entry(), Some(0));
    let mut names = Vec::new();
    while let Some(p) = feeder.poll(10) {
        names.push(p.name);
    }
    assert_eq!(names, vec!["early", "first", "second", "third", "late"]);
    assert!(feeder.is_closed());
    assert_eq!(feeder.next_entry(), None);
}

#[test]
fn feeder_delivers_nothing_before_its_tick() {
    let mut feeder = ArrivalFeeder::new(vec![Process::new("A", 1, 3), Process::new("B", 1, 1)]);
    assert!(feeder.poll(0).is_none());
    assert_eq!(feeder.poll(1).unwrap().name, "B");
    assert!(feeder.poll(2).is_none());
    assert_eq!(feeder.poll(3).unwrap().name, "A");
    assert!(feeder.poll(3).is_none());
}

#[test]
fn work_is_conserved_and_slices_are_bounded() {
    let procs = vec![
        Process::new("A", 7, 0),
        Process::new("B", 3, 2),
        Process::new("C", 0, 2),
        Process::new("D", 5, 20),
    ];
    let engine = simulate(Algorithm::RoundRobin, 2, procs);
    for (id, process) in engine.processes().iter().enumerate() {
        let ran: usize = engine.log().iter().filter(|d| d.process == id).map(|d| d.slice).sum();
        assert_eq!(ran, process.total_time);
        assert_eq!(process.remain_time, 0);
        assert_eq!(process.state, ProcessState::Done);
        let record = engine.records()[id];
        assert!(record.turnaround_time().unwrap() >= process.total_time as u128);
    }
    assert!(engine.log().iter().all(|d| d.slice <= 2));
    let mut end = 0;
    for d in engine.log().iter() {
        assert!(d.start_tick >= end);
        end = d.start_tick + d.slice as u128;
    }
    assert_eq!(engine.records()[3].admitted_tick, 20);
    assert_eq!(engine.records()[3].completion_tick, Some(25));
    assert_eq!(engine.now(), 25);
}

#[test]
fn fcfs_dispatches_each_process_once() {
    let procs = vec![Process::new("A", 7, 0), Process::new("B", 3, 2), Process::new("C", 4, 30)];
    let engine = simulate(Algorithm::Fcfs, 1, procs);
    assert_eq!(
        engine.log().clone(),
        vec![
            Dispatch { process: 0, start_tick: 0, slice: 7 },
            Dispatch { process: 1, start_tick: 7, slice: 3 },
            Dispatch { process: 2, start_tick: 30, slice: 4 },
        ]
    );
}

#[test]
fn simulation_refuses_what_it_cannot_run() {
    let zero = Config { algorithm: Algorithm::RoundRobin, burst_limit: 0 };
    let r = process_handler(zero, ArrivalFeeder::new(vec![Process::new("A", 1, 0)]));
    assert_eq!(r.err(), Some(SimulationError::ZeroBurst));
    let mut used = Process::new("A", 3, 0);
    used.run_for(1);
    let config = Config::new(Algorithm::Fcfs, 0).unwrap();
    let r = process_handler(config, ArrivalFeeder::new(vec![used]));
    assert_eq!(r.err(), Some(SimulationError::NotFresh));
}
