//! Core of a distributed task scheduler for a clustered SQL engine.
//!
//! Client drivers submit query plans; worker processes ("executors")
//! advertise task slots and run individual physical-plan tasks. The
//! scheduler compiles a submitted plan into a DAG of shuffle stages,
//! materializes per-partition tasks, tracks their lifecycle, assigns them
//! to executors (by pull polling or push dispatch), and reports job
//! status. All of the decision logic lives here as verified functions
//! over plain values; network and file I/O stay outside.

pub mod codec;
pub mod config;
pub mod domain;
pub mod plan;
pub mod planner;
pub mod server;
pub mod state;
pub mod store;
