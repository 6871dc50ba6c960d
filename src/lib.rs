//! Prime sieves over `u64` bounds, with the queries built on them.

pub mod atkin;
pub mod atomic;
pub mod eratosthenes;
pub mod method;
pub mod primality;
pub mod queries;
pub mod storage;
pub mod threaded;
