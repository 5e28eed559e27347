//! Counting kernels for the bounded coin-change problem.
//!
//! Given a target amount, a cap on the number of coins, and a sequence of
//! positive coin denominations, the library counts how many ways the target
//! can be assembled with at most that many coins, one count per achievable
//! (amount, coin-count) pair.  Counts are 64-bit and wrap silently on
//! overflow; the result is the true count only while that count fits in
//! 64 bits.
//!
//! Two kernels compute the same function over one flat, transposed dynamic
//! programming table: a strictly sequential fold and a fold that fans each
//! denomination's update out over independent residue classes.

pub mod laws;
pub mod model;
pub mod par_kernel;
pub mod seq_kernel;
pub mod table;
