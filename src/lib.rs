//! Primality oracle for 64-bit and 128-bit unsigned integers.
//!
//! `is_prime` screens out 0, 1 and even numbers, divides by the odd primes up
//! to 53 through precomputed inverses modulo 2^64, and decides the rest with
//! a Baillie-PSW test: a base-2 strong Fermat test, a perfect-square guard and
//! a strong Lucas-V test whose parameter is searched from 3 upwards (no
//! hashed witness tables). `is_prime_wc` skips the screening. The 128-bit
//! entry points delegate to the 64-bit ones below 2^64 and otherwise run the
//! same cascade with double-width Montgomery arithmetic. Khashin's quadratic
//! Frobenius test over 128-bit moduli is offered as a stronger secondary
//! test.
//!
//! Every function states its result exactly over the mathematical model in
//! `math` (Montgomery forms, modular powers, the Jacobi symbol, Lucas
//! sequences) and `quadratic` (the rings `Z_n[√c]`); `laws` holds the
//! properties that relate them.

pub mod math;
pub mod quadratic;
pub mod check;
pub mod wide;
pub mod qft;
pub mod trial;
pub mod laws;

pub use check::{is_prime, is_prime_wc};
pub use wide::{is_prime_128, is_prime_wc_128};
