//! Prime-number primitives with machine-checked contracts: bounded sieving, incremental
//! generation, ranged enumeration, primality testing and factorization.
//!
//! Every contract is stated over the mathematical integers: `arith::prime` says what a prime
//! is, and `prime_list::primes_in` is the ascending list of the primes of an interval, which
//! every prime base is held against.
//!
//! All numbers are `usize`, and no operation wraps around. Squares are compared by division,
//! so that the comparison is exact up to `usize::MAX`. A search that would have to leave the
//! machine range ends instead: the generator yields nothing more, `nth_prime` fails with
//! `PrimeError::Overflow`, the range scanner is exhausted, and the bound of the adaptive
//! primality test stops at `usize::MAX`.

pub mod arith;
pub mod error;
pub mod factor;
pub mod generator;
pub mod oracle;
pub mod prime_list;
pub mod range;
pub mod seed;
pub mod sieve;

pub use crate::error::PrimeError;
pub use crate::factor::prime_factors;
pub use crate::generator::{nth_prime, PrimeGenerator};
pub use crate::oracle::{is_prime, is_prime_py};
pub use crate::range::PrimeRange;
pub use crate::seed::{extend_seed_primes, seed_primes};
pub use crate::sieve::{sieve, sieve0, PrimeSieve};
