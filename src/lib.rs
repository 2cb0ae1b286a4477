use vstd::prelude::*;

pub mod benchmark;
pub mod bit_vector;
pub mod sieve;
