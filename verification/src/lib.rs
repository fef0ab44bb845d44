//! A compiler core for a small line-oriented quantum-assembly language.
//!
//! Each line of a program names one operation: a qubit-count declaration
//! (`QUBITS n`), a gate (`H`, `X`, `Y`, `Z`, `S`, `T`, `CNOT`) with its
//! operand qubit indices, or a measurement request (`MEASURE i ...`).
//! The library scans, validates and assembles such programs into [`lang::Circuit`]
//! values, and provides the pure parts of the execution driver (extracting
//! measured bits from a collapse outcome).  Driving an actual state-vector
//! engine involves floating-point amplitudes and therefore lives outside
//! this crate.

pub mod bits;
pub mod lang;
pub mod laws;
pub mod numeral;
pub mod parse;
pub mod render;
pub mod scan;
