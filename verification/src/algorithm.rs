//! The two solvers of the liveness equations.

pub mod chaotic_iter;
pub mod mfp;
