//! Processes, pipes and native binaries of a simulated chain virtual machine.
//!
//! A script that runs under the simulator may start child processes, connect
//! them by pipes and block on reads and writes. This crate holds the
//! bookkeeping behind that: which process owns which end of which pipe, who
//! waits for whom, which bytes move when a reader meets a writer, and which
//! native library stands for which on-chain binary.

pub mod binary;
pub mod context;
pub mod delivery;
pub mod event;
pub mod fd;
pub mod ids;
pub mod laws;
pub mod outside;
pub mod scheduler;
pub mod spawn;
pub mod status;
pub mod walk;
