//! Bursty packet loss for a live audio stream.
//!
//! The stream is split into packets of a fixed size. At each packet boundary a
//! small recurrent model gives a drop probability, conditioned on the last
//! decision and the target loss, and a seeded generator turns it into keep or
//! drop. Every sample of a dropped packet has gain 0.0, every other gain 1.0.
//!
//! - [`plugin`]: parameters of a block in, one gain per sample out;
//! - [`dsp`]: the masker that walks from packet to packet;
//! - [`model`]: the recurrent model;
//! - [`rng`]: the generator of the thresholds;
//! - [`arith`]: the arithmetic that the caller supplies;
//! - [`single`], [`double`]: floating-point numbers by their bit patterns;
//! - [`laws`]: what holds of all of it together;
//! - [`meaning`]: what it comes to in numbers and single operations.

pub mod arith;
pub mod double;
pub mod dsp;
pub mod laws;
pub mod meaning;
pub mod model;
pub mod plugin;
pub mod rng;
pub mod single;
