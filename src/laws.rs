//! Laws that relate the library's functions, proved over their contracts.

use vstd::prelude::*;
use vstd::arithmetic::div_mod::lemma_small_mod;
use crate::math::{
    bpsw, is_square, lemma_cancel_radix, lemma_mont_mul, lemma_mont_of_congruent, mont_of,
    prime_decision, radix128, radix64, small_prime, trial_result,
};

verus! {

/// 1 is not prime, 2 is, and no other even number is.
pub proof fn law_small_and_even(x: int)
    ensures
        !prime_decision(1),
        prime_decision(2),
        x % 2 == 0 && x != 2 ==> !prime_decision(x),
{
}

/// Montgomery round trip: for an odd modulus `n` and `x < n`, the
/// Montgomery product of the Montgomery form of `x` with 1 (the conversion
/// back, `back`) is `x` itself, for the 64-bit and the 128-bit radix.
pub proof fn law_mont_round_trip(x: int, n: int, r: int, back: int)
    requires
        n > 1,
        n % 2 == 1,
        0 <= x < n,
        r == radix64() || r == radix128(),
        0 <= back < n,
        (back * r) % n == (mont_of(x, r, n) * 1) % n,
    ensures
        back == x,
{
    vstd::arithmetic::div_mod::lemma_mod_twice(x * r, n);
    lemma_cancel_radix(back, x, r, n);
    lemma_small_mod(back as nat, n as nat);
    lemma_small_mod(x as nat, n as nat);
}

/// Montgomery product: the product `res` of the Montgomery forms of `a` and
/// `b` is the Montgomery form of `a * b mod n`.
pub proof fn law_mont_product(a: int, b: int, n: int, r: int, res: int)
    requires
        n > 1,
        n % 2 == 1,
        r == radix64() || r == radix128(),
        0 <= res < n,
        (res * r) % n == (mont_of(a, r, n) * mont_of(b, r, n)) % n,
    ensures
        res == mont_of((a * b) % n, r, n),
{
    lemma_mont_mul(mont_of(a, r, n), mont_of(b, r, n), a, b, res, r, n);
    vstd::arithmetic::div_mod::lemma_mod_twice(a * b, n);
    lemma_mont_of_congruent(a * b, (a * b) % n, r, n);
}

/// `x` is a prime number: above 1, with no divisor strictly between 1 and
/// `x`.
pub open spec fn is_prime_number(x: int) -> bool {
    x > 1 && forall|d: int| 1 < d < x ==> #[trigger] (x % d) != 0
}

/// What the trial filter rejects from the `i`-th small prime on has a
/// proper divisor.
proof fn lemma_trial_rejects(x: int, i: int)
    requires
        x > 1,
        trial_result(x, i) == Some(false),
    ensures
        !is_prime_number(x),
    decreases 15 - i,
{
    let p = small_prime(i);
    if x % p == 0 {
        assert(x != p);
        assert(p <= x) by {
            vstd::arithmetic::div_mod::lemma_fundamental_div_mod(x, p);
            vstd::arithmetic::div_mod::lemma_div_pos_is_pos(x, p);
            if x / p == 0 {
                assert(x == p * 0 + x % p);
                assert(p * 0 == 0) by (nonlinear_arith);
            } else {
                assert(p * (x / p) >= p) by (nonlinear_arith)
                    requires
                        x / p >= 1,
                        p > 0,
                ;
            }
        }
        assert(1 < p < x && x % p == 0);
    } else {
        lemma_trial_rejects(x, i + 1);
    }
}

/// The screening before the Baillie-PSW cascade is sound: parity and the
/// small-prime trial filter never declare a prime composite, and what they
/// declare composite has a proper divisor.
pub proof fn law_screening_sound(x: int)
    ensures
        is_prime_number(x) ==> x == 2 || (x % 2 == 1 && trial_result(x, 0) != Some(false)),
        x > 1 && ((x % 2 == 0 && x != 2) || trial_result(x, 0) == Some(false)) ==> !is_prime_number(x),
{
    if x > 1 && trial_result(x, 0) == Some(false) {
        lemma_trial_rejects(x, 0);
    }
    if x > 2 && x % 2 == 0 {
        assert(1 < 2 < x && x % 2 == 0);
    }
}

/// Above the small primes, the trial filter never declares a number prime.
proof fn lemma_trial_large(x: int, i: int)
    requires
        x > 53,
    ensures
        trial_result(x, i) != Some(true),
    decreases 15 - i,
{
    if 0 <= i < 15 {
        assert(small_prime(i) <= 53);
        lemma_trial_large(x, i + 1);
    }
}

/// Perfect squares from 2047 on are never declared prime, whether or not a
/// Lucas parameter exists for them.
pub proof fn law_squares_rejected(x: int)
    requires
        x >= 2047,
        is_square(x),
    ensures
        !bpsw(x),
        !prime_decision(x),
{
    lemma_trial_large(x, 0);
}

} // verus!
