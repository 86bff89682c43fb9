//! A small collection of concurrency and I/O exercises, with their logic
//! verified: primality by trial division, the packet protocol of a tiny actor
//! system (dispatcher, counting workers, reducer), comma reports over text,
//! hashing output, channel producers and consumers, and the rules of two
//! procedural macros.

pub mod primes;
pub mod text;
pub mod packet;
pub mod sorting;
pub mod actor;
pub mod mistake;
pub mod hash;
pub mod channel;
pub mod errors;
pub mod fib;
