//! Exact primal simplex for linear programs in standard maximisation form:
//! maximise c·x subject to A·x <= b, x >= 0, with b >= 0.
//!
//! The tableau holds integers over one common positive denominator, so every
//! pivot is exact and every selection rule is decided without rounding.
pub mod error;
pub mod model;
pub mod tableau;
pub mod program;
pub mod feasibility;
