//! A genetic algorithm that tunes the three gains of a PID controller.
//!
//! Gains are decimal fixed-point numbers, costs are IEEE 754 binary32 bit
//! patterns, and every random decision is drawn from a seeded generator that
//! is handed explicitly to the operation that needs it. The cost function is
//! supplied by the caller through the [`work::Work`] trait.

pub mod fitness;
pub mod gain;
pub mod genetic_algorithm;
pub mod individual;
pub mod population;
pub mod rng;
pub mod work;
