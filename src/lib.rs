//! Simulation of a single-server queue whose server switches off when idle
//! and warms up before serving again, with exact per-run metrics and batch
//! statistics over runs.

pub mod measures;
pub mod simulation;
