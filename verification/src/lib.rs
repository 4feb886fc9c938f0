//! Verified arithmetic for Fermat-quotient moments and the Lerch-prime search.
pub mod arith;
pub mod cyclic;
pub mod lerch;
pub mod number_theory;
pub mod recurrence;
pub mod reduction;
pub mod reference;
pub mod search;
pub mod sieve;
pub mod validate;
pub mod verify;
