//! A quantitative financial-analysis engine over fixed-point values.
//!
//! Given a time-ordered series of cash flows the engine computes net present
//! value, solves for the internal rate of return, aggregates Monte Carlo
//! uncertainty samples, and produces parametric sensitivity curves.  Peer
//! numeric utilities (matrix operations, allocation factors, particle
//! statistics) share the same fixed-point conventions.
//!
//! All quantities are `i128` values in millionths of a unit (see
//! [`fixed::SCALE`]); every public operation carries a contract that pins its
//! result down to the exact tick.

pub mod fixed;
pub mod npv;
pub mod irr;
pub mod sensitivity;
pub mod stats;
pub mod monte_carlo;
pub mod simulator;
pub mod environmental;
pub mod matrix_ops;
pub mod particles;
