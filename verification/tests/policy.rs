use process_scheduling::policy::{time_need_from, Algorithm, Config, ConfigError, BTIME, QTIME};
use process_scheduling::process::{Process, ProcessState};

#[test]
fn round_robin_grants_the_burst_or_what_is_left() {
    assert_eq!(time_need_from(0, 5, 2), 2);
    assert_eq!(time_need_from(0, 2, 2), 2);
    assert_eq!(time_need_from(0, 1, 2), 1);
    assert_eq!(time_need_from(0, 0, 2), 0);
    assert_eq!(time_need_from(0, 5, 0), 0);
    assert_eq!(Algorithm::RoundRobin.slice(9, 4), 4);
    assert_eq!(Algorithm::RoundRobin.slice(3, 4), 3);
}

#[test]
fn fcfs_grants_all_that_is_left() {
    assert_eq!(time_need_from(1, 5, 2), 5);
    assert_eq!(time_need_from(1, 0, 2), 0);
    assert_eq!(time_need_from(1, usize::MAX, 1), usize::MAX);
    assert_eq!(Algorithm::Fcfs.slice(9, 4), 9);
}

#[test]
fn an_unknown_selector_grants_nothing() {
    assert_eq!(time_need_from(2, 5, 2), 0);
    assert_eq!(time_need_from(255, 5, 2), 0);
}

#[test]
fn selectors_name_algorithms() {
    assert_eq!(Algorithm::from_code(0), Some(Algorithm::RoundRobin));
    assert_eq!(Algorithm::from_code(1), Some(Algorithm::Fcfs));
    assert_eq!(Algorithm::from_code(2), None);
    assert_eq!(Algorithm::RoundRobin.code(), 0);
    assert_eq!(Algorithm::Fcfs.code(), 1);
}

#[test]
fn configurations() {
    assert_eq!(
        Config::new(Algorithm::RoundRobin, 3),
        Ok(Config { algorithm: Algorithm::RoundRobin, burst_limit: 3 })
    );
    assert_eq!(Config::new(Algorithm::RoundRobin, 0), Err(ConfigError::ZeroBurst));
    assert_eq!(
        Config::new(Algorithm::Fcfs, 0),
        Ok(Config { algorithm: Algorithm::Fcfs, burst_limit: 0 })
    );
    assert_eq!(
        Config::from_millis(Algorithm::RoundRobin, BTIME, QTIME),
        Ok(Config { algorithm: Algorithm::RoundRobin, burst_limit: 1 })
    );
    assert_eq!(
        Config::from_millis(Algorithm::RoundRobin, 1000, 400),
        Ok(Config { algorithm: Algorithm::RoundRobin, burst_limit: 2 })
    );
    assert_eq!(
        Config::from_millis(Algorithm::RoundRobin, 399, 400),
        Err(ConfigError::ZeroBurst)
    );
    assert_eq!(Config::from_millis(Algorithm::Fcfs, 400, 0), Err(ConfigError::ZeroQuantum));
    assert_eq!(QTIME, 400);
    assert_eq!(BTIME, 400);
}

#[test]
fn a_new_process_has_all_its_work_ahead() {
    let p = Process::new("A", 4, 9);
    assert_eq!(p.name, "A");
    assert_eq!(p.total_time, 4);
    assert_eq!(p.remain_time, 4);
    assert_eq!(p.entry_time, 9);
    assert_eq!(p.state, ProcessState::Waiting);
    assert!(!p.done());
    assert!(p.fresh());
    assert!(Process::new("idle", 0, 0).done());
}

#[test]
fn running_a_process_uses_up_its_work() {
    let mut p = Process::new("A", 4, 0);
    p.run_for(3);
    assert_eq!(p.remain_time, 1);
    assert_eq!(p.state, ProcessState::Waiting);
    assert!(!p.done());
    assert!(!p.fresh());
    let copy = p.clone();
    assert_eq!(copy.name, "A");
    assert_eq!(copy.remain_time, 1);
    p.run_for(1);
    assert_eq!(p.remain_time, 0);
    assert_eq!(p.total_time, 4);
    assert_eq!(p.state, ProcessState::Done);
    assert!(p.done());
}
