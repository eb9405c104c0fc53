//! Slice policies: how long a dispatched process may run.

use vstd::prelude::*;

verus! {

/// Real-time milliseconds that one quantum-unit lasts.
pub const QTIME: usize = 400;

/// Milliseconds that Round-Robin grants per dispatch.
pub const BTIME: usize = 400;

/// The scheduling algorithm. It decides the length of a slice and nothing
/// else.
#[derive(Clone, Copy, Debug, PartialEq, Eq, Structural)]
pub enum Algorithm {
    /// Each dispatch runs for at most the burst limit.
    RoundRobin,
    /// Each dispatch runs to completion.
    Fcfs,
}

/// Length of the slice that `algorithm` grants a process with `remain`
/// quantum-units left.
pub open spec fn slice_len(algorithm: Algorithm, remain: int, burst_limit: int) -> int {
    match algorithm {
        Algorithm::RoundRobin => if remain <= burst_limit {
            remain
        } else {
            burst_limit
        },
        Algorithm::Fcfs => remain,
    }
}

/// The algorithm that a numeric selector stands for: 0 is Round-Robin, 1 is
/// First-Come-First-Served.
pub open spec fn algorithm_of(code: u8) -> Option<Algorithm> {
    if code == 0 {
        Some(Algorithm::RoundRobin)
    } else if code == 1 {
        Some(Algorithm::Fcfs)
    } else {
        None
    }
}

impl Algorithm {
    /// Reads a numeric selector.
    pub fn from_code(code: u8) -> (r: Option<Algorithm>)
        ensures
            r == algorithm_of(code),
    {
        if code == 0 {
            Some(Algorithm::RoundRobin)
        } else if code == 1 {
            Some(Algorithm::Fcfs)
        } else {
            None
        }
    }

    /// The numeric selector of this algorithm.
    pub fn code(&self) -> (c: u8)
        ensures
            algorithm_of(c) == Some(*self),
    {
        match self {
            Algorithm::RoundRobin => 0,
            Algorithm::Fcfs => 1,
        }
    }

    /// Length of the next slice of a process with `remain_time` quantum-units
    /// left.
    pub fn slice(&self, remain_time: usize, burst_limit: usize) -> (s: usize)
        ensures
            s == slice_len(*self, remain_time as int, burst_limit as int),
            s <= remain_time,
            *self is RoundRobin ==> s <= burst_limit,
            *self is Fcfs ==> s == remain_time,
    {
        match self {
            Algorithm::RoundRobin => if remain_time <= burst_limit {
                remain_time
            } else {
                burst_limit
            },
            Algorithm::Fcfs => remain_time,
        }
    }
}

/// Length of the next slice under a numeric selector; a selector that names
/// no algorithm grants nothing.
pub fn time_need_from(rr_or_fcfs: u8, remain_time: usize, btime: usize) -> (need: usize)
    ensures
        need == match algorithm_of(rr_or_fcfs) {
            Some(a) => slice_len(a, remain_time as int, btime as int),
            None => 0,
        },
        need <= remain_time,
{
    match Algorithm::from_code(rr_or_fcfs) {
        Some(a) => a.slice(remain_time, btime),
        None => 0,
    }
}

/// What is fixed when a scheduler is built: the algorithm and the burst
/// limit, in quantum-units.
#[derive(Clone, Copy, Debug, PartialEq, Eq, Structural)]
pub struct Config {
    pub algorithm: Algorithm,
    pub burst_limit: usize,
}

/// Why a configuration was refused.
#[derive(Clone, Copy, Debug, PartialEq, Eq, Structural)]
pub enum ConfigError {
    /// Round-Robin with a burst limit of zero would never perform any work.
    ZeroBurst,
    /// A quantum-unit must last some time.
    ZeroQuantum,
}

impl Config {
    /// Round-Robin needs a burst limit of at least one quantum-unit.
    pub open spec fn wf(&self) -> bool {
        self.algorithm is RoundRobin ==> self.burst_limit >= 1
    }

    /// Builds a configuration, refusing Round-Robin without a burst.
    pub fn new(algorithm: Algorithm, burst_limit: usize) -> (r: Result<Config, ConfigError>)
        ensures
            r == if algorithm is RoundRobin && burst_limit == 0 {
                Err::<Config, ConfigError>(ConfigError::ZeroBurst)
            } else {
                Ok((Config { algorithm, burst_limit }))
            },
            r is Ok ==> r->Ok_0.wf(),
    {
        match algorithm {
            Algorithm::RoundRobin => if burst_limit == 0 {
                Err(ConfigError::ZeroBurst)
            } else {
                Ok(Config { algorithm, burst_limit })
            },
            Algorithm::Fcfs => Ok(Config { algorithm, burst_limit }),
        }
    }

    /// Builds a configuration from a burst and a quantum duration given in
    /// milliseconds, counting the whole quantum-units that fit in the burst.
    pub fn from_millis(algorithm: Algorithm, btime_mil: usize, qtime: usize) -> (r: Result<
        Config,
        ConfigError,
    >)
        ensures
            r == if qtime == 0 {
                Err::<Config, ConfigError>(ConfigError::ZeroQuantum)
            } else if algorithm is RoundRobin && btime_mil / qtime == 0 {
                Err::<Config, ConfigError>(ConfigError::ZeroBurst)
            } else {
                Ok((Config { algorithm, burst_limit: btime_mil / qtime }))
            },
            r is Ok ==> r->Ok_0.wf(),
    {
        if qtime == 0 {
            Err(ConfigError::ZeroQuantum)
        } else {
            Config::new(algorithm, btime_mil / qtime)
        }
    }
}

} // verus!
