//! Cryptographic accumulators with membership and non-membership proofs.
//!
//! An accumulator condenses a set of elements into one group element: each
//! element is hashed to a prime, and the accumulator value is a generator raised
//! to the product of those primes.  The accumulator is generic over a `Group`;
//! `RsaGroup` provides the group of integers modulo a product of two safe primes.

pub mod groups;
pub mod hashing;
pub mod natural;
pub mod number_theory;
pub mod rsa_accumulator;
pub mod traits;

pub use groups::rsa_group;
pub use rsa_accumulator::{GenericAccumulator, RsaAccumulator};
pub use traits::{Accumulator, Group};
