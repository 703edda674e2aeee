//! Pseudo-random number generation.
pub mod xorshift_128;
