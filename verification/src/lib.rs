//! Structural type inference and pre-run type checker for EO, over XMIR.

pub mod types;
pub mod solver;
pub mod xmir;
pub mod resolve;
pub mod infer;
pub mod diag;
