//! Post-route hold-fix ECO: the decisions, rewiring and text formats of a hold-fix run,
//! with their contracts proved by Verus.

pub mod text;
pub mod job;
pub mod number;
pub mod netlist;
pub mod engine;
pub mod emit;
pub mod cli;
pub mod report;
