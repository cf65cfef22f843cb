//! Streaming estimation of the number of distinct elements of a stream in
//! bounded memory, together with two small utilities: a linear congruential
//! generator and a Rabin-Karp substring search.

pub mod lcg;
pub mod rabin_karp;
pub mod random;
pub mod uniques;
