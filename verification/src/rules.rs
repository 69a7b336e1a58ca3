//! The rule engine: independent checkers that each walk the token stream
//! with a small local state machine and produce diagnostics.

pub mod alias;
pub mod compiled;
