//! A static analyzer for scripts in a BASIC-family dialect.
//!
//! The library turns normalized source text into a positioned token stream
//! and walks that stream with small per-rule state machines, reporting
//! structural errors — unbalanced compiler-directive blocks and ill-formed
//! alias declarations — as precise (line, column, message) diagnostics.

pub mod analysis;
pub mod compile;
pub mod fb_code;
pub mod rules;
pub mod thinbasic_script;
pub mod tokenizer;
