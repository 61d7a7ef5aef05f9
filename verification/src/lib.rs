//! Approximate nearest-neighbour search over similarity digests: a navigating
//! spreading-out graph bootstrapped by NN-descent, with an exact-match radix
//! tree beside it.

pub mod bytes;
pub mod controllers;
pub mod datalayer;
pub mod harness;
pub mod order;
pub mod random;
