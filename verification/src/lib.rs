//! Prime sequences and prime factorisation as pull-based producers, together
//! with the decision logic and the protocol model of a bounded bridge that
//! hands a producer's items to an asynchronous consumer.

pub mod arith;
pub mod bridge;
pub mod error;
pub mod factor;
pub mod factor_theory;
pub mod model;
pub mod primes;
pub mod sieve;

pub use error::MpscSendError;
pub use factor::{prime_factor, PrimeFactor};
pub use primes::{primes_unbounded, UnboundedPrimes};
