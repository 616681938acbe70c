//! Builder for arithmetic-circuit programs over a prime field.
//!
//! The builder accumulates a flat sequence of opcodes — field-arithmetic
//! assertions, black-box function calls, prover-side directives and embedded
//! prover programs — that together express a constraint system for a proving
//! backend. Intermediate values are witnesses drawn from a monotonically
//! increasing index space, and every emitted assertion keeps to the degree-two
//! budget that the backend imposes.

pub mod acir;
pub mod blackbox;
pub mod expr;
pub mod field;
pub mod laws;
pub mod locmap;
pub mod opcode;
pub mod sort;
