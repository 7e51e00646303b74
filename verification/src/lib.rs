//! A table-driven trigonometric evaluator over an exact fixed-point
//! real-number backend, together with a small decimal big-integer engine.
//!
//! The evaluator computes `sin`/`cos` from angle-addition and half-angle
//! identities and a precomputed correction table, never from the host's
//! transcendental functions.

pub mod angle;
pub mod backend;
pub mod bigint;
pub mod decimal;
pub mod decint;
pub mod decompose;
pub mod digit;
pub mod extended;
pub mod fixed;
pub mod reduce;
pub mod table;
pub mod trig;
pub mod utils;
