//! Verified core of a concurrent TCP connect scanner.
//!
//! The library holds everything the scanner decides and computes: parsing the
//! service catalog, picking the most probable ports, parsing a port range,
//! classifying a probe outcome, and the bookkeeping of the bounded-concurrency
//! scan itself. Networking, progress rendering and output formatting live
//! outside the library and only exchange plain values with it.

#![verifier::loop_isolation(false)]

pub mod ip;
pub mod ports;
pub mod scanner;
pub mod services;
pub mod text;
