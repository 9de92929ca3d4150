//! Verified core of a concurrent TCP port scanner.
//!
//! The scanner partitions the port space `1..=65535` across `N` workers by
//! residue class: worker `i` probes ports `i+1, i+1+N, i+1+2N, ...`. Workers
//! report every port that accepted a connection, and a collector gathers the
//! findings and emits them as one ascending, duplicate-free report.
//!
//! This crate holds everything that can be stated and proved: the port
//! partition, each worker's visit sequence, command-line classification, and
//! the sorting and rendering of the final report. The pieces that touch the
//! outside world — reading process arguments, resolving an address, opening
//! TCP connections, spawning threads — live in the surrounding binary, which
//! hands this crate plain values and takes plain values back.

pub mod args;
pub mod ports;
pub mod report;
pub mod text;
