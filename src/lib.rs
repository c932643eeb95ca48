//! Rating replay engine: the verified parts that work on integers and bytes.
//!
//! Token scanning and the input formats, the event standings with their tie
//! ranges, the bounded evidence buffer, and the ordering of the final report.
//! The floating-point rating model is driven by the program around this crate.

pub mod scanner;
pub mod contests;
pub mod standings;
pub mod report;
pub mod evidence;
