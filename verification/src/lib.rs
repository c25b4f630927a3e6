//! Synthesis of self-similar arrival processes.
//!
//! The crate fits a binary multiplicative cascade — one Beta-style
//! split-ratio law per dyadic scale — to a short trace of inter-arrival
//! increments, and then samples an unbounded stream of synthetic arrival
//! timestamps from the fitted model. All quantities are non-negative
//! `Q32.32` fixed-point numbers, so fitting and sampling are exact integer
//! computations: every public operation carries a contract that pins its
//! result down as a function of its inputs, which makes reproducibility
//! under a fixed seed a theorem rather than a convention.

pub mod cascade;
pub mod fixed;
pub mod rng;
pub mod sampler;
pub mod stream;
