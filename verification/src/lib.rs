//! A scalar reverse-mode automatic-differentiation engine.
//!
//! The engine records scalar computations as a DAG of nodes (a tape) and,
//! from any root, propagates gradients back to every node that contributed
//! to it. Scalars are IEEE-754 binary64 bit patterns carried in `u64`;
//! their arithmetic stands behind the trusted wrappers of `scalar`.

pub mod scalar;
pub mod value;
pub mod laws;
