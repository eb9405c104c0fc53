//! A discrete-time simulator for two process-scheduling algorithms,
//! Round-Robin and First-Come-First-Served.
//!
//! Time is counted in quantum-units. Processes arrive at their entry tick,
//! wait in a FIFO ready queue, and are dispatched for slices whose length the
//! selected algorithm decides. Every function is verified: the contracts say
//! what each step does, and the laws say what holds of every state that the
//! scheduler can reach.
//!
//! - `process`, `record`: the data.
//! - `policy`: the two algorithms and the configuration.
//! - `input`: the lines that the operator types.
//! - `feeder`: the order of arrival.
//! - `model`: the scheduler as a state machine, with its invariant.
//! - `preservation`: every transition keeps the invariant.
//! - `engine`: the scheduler itself.
//! - `simulation`: feeder and scheduler run together to the end.
//! - `clock`: the clock driver and its estimate of the duration.
//! - `metrics`: waiting and turnaround time, and their means.
//! - `laws`: conservation of work, the slice bound, non-preemption, the
//!   turnaround floor, the order of admission, the makespan.

pub mod clock;
pub mod engine;
pub mod feeder;
pub mod input;
pub mod laws;
pub mod metrics;
pub mod model;
pub mod policy;
pub mod preservation;
pub mod process;
pub mod record;
pub mod simulation;
