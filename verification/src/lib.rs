//! Runtime monitor for Lola-style stream specifications.
//!
//! A specification declares input streams (external observations), output
//! streams (derived expressions) and triggers. The engine ingests a
//! time-ordered sequence of events, computes every output and trigger value,
//! and reports violations. Time-driven streams are fired by a periodic
//! schedule computed from their rates; event-driven streams are fired by the
//! arrival of the inputs they depend on.

pub mod basics;
pub mod coordination;
pub mod error;
pub mod evaluator;
pub mod float;
pub mod ir;
pub mod math;
pub mod parse;
pub mod schedule;
pub mod storage;
pub mod time;
pub mod value;
pub mod windows;
