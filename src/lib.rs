//! Prime generation over 64-bit ranges with a segmented sieve, and primality
//! checking with deterministic Miller-Rabin and Baillie-PSW tests.

pub mod bits;
pub mod config;
pub mod delivery;
pub mod fermat;
pub mod generator;
pub mod isqrt;
pub mod lucas;
pub mod output;
pub mod primality;
pub mod primes;
pub mod scan;
pub mod settings;
pub mod sieve;
pub mod verification;

