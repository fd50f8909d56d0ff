//! A deterministic, single-processor CPU-scheduling simulator.
//!
//! A fixed population of processes alternates between CPU bursts and I/O
//! bursts.  Three scheduling policies drive them to completion: first-come
//! first-serve, round-robin with a fixed time quantum, and a three-level
//! multi-level feedback queue that demotes a process one level each time it
//! exhausts its quantum without finishing a burst.  A simulation driver
//! advances a global clock one step at a time and folds the metrics of each
//! completed process into an aggregate report.

pub mod process;
pub mod outcome;
pub mod round_robin;
pub mod fcfs;
pub mod mlfq;
pub mod driver;
pub mod fixture;
