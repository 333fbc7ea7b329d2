//! The 128-bit primality kernel: double-width products built from 64-bit
//! halves, Montgomery arithmetic modulo 128-bit odd numbers, and the same
//! Baillie-PSW cascade as the 64-bit path.

use vstd::prelude::*;
use vstd::arithmetic::div_mod::*;
use vstd::arithmetic::mul::*;
use vstd::arithmetic::power2::*;
use vstd::arithmetic::power::*;
use vstd::bits::lemma_u128_shr_is_div;
use crate::check::{is_prime, is_prime_wc, mul_inv2};
use crate::trial::trial_filter_128;
use crate::math::{
    bpsw, jacobi, lemma_lucas_double, lemma_mod_mul_sub, lemma_mont_mul_values,
    lemma_mont_of_congruent, lemma_mont_sub_values, lemma_negate_inverse, lemma_negate_neg_inverse,
    lemma_newton_step, lemma_next_bit, lemma_radix128, lemma_radix64, lemma_redc, lemma_reduce_once,
    lemma_residue_is, lemma_sign_mul, lemma_square_and_multiply, lemma_square_by_root,
    lemma_two_adic_double, lemma_unmont, lemma_wrapped_newton, lucas_chain, lucas_param,
    lucas_param_from, lucas_probable_prime, lucas_v, mont_of, odd_part, param_limit, prime_decision,
    radix128, radix64, reaches_minus_one, sign, strong_probable_prime, two_adic, unmont,
};

verus! {

/// Splits `x` into its high and low 64-bit halves.
fn split_to_u128(x: u128) -> (r: (u128, u128))
    ensures
        r.0 == x as int / radix64(),
        r.1 == x as int % radix64(),
        r.0 < radix64(),
        x == r.0 * radix64() + r.1,
{
    (x / 0x1_0000_0000_0000_0000, x % 0x1_0000_0000_0000_0000)
}

/// The product identity behind the schoolbook 128 x 128 -> 256-bit
/// multiplication from four 64 x 64 -> 128-bit partial products.
proof fn lemma_schoolbook(
    x1: int,
    x0: int,
    y1: int,
    y0: int,
    c0: int,
    z0: int,
    c1: int,
    z1a: int,
    c2: int,
    z1: int,
    b: int,
)
    requires
        x0 * y0 == c0 * b + z0,
        x1 * y0 + c0 == c1 * b + z1a,
        x0 * y1 + z1a == c2 * b + z1,
    ensures
        (x1 * b + x0) * (y1 * b + y0) == (x1 * y1 + c1 + c2) * (b * b) + (z1 * b + z0),
{
    let xy00 = x0 * y0;
    let xy10 = x1 * y0;
    let xy01 = x0 * y1;
    let xy11 = x1 * y1;
    lemma_mul_is_distributive_add_other_way(y1 * b + y0, x1 * b, x0);
    lemma_mul_is_distributive_add(x1 * b, y1 * b, y0);
    lemma_mul_is_distributive_add(x0, y1 * b, y0);
    assert((x1 * b) * (y1 * b) == xy11 * (b * b)) by (nonlinear_arith)
        requires
            xy11 == x1 * y1,
    ;
    assert((x1 * b) * y0 == xy10 * b) by (nonlinear_arith)
        requires
            xy10 == x1 * y0,
    ;
    assert(x0 * (y1 * b) == xy01 * b) by (nonlinear_arith)
        requires
            xy01 == x0 * y1,
    ;
    assert(xy10 * b == c1 * (b * b) + z1a * b - c0 * b) by (nonlinear_arith)
        requires
            xy10 == c1 * b + z1a - c0,
    ;
    assert(xy01 * b == c2 * (b * b) + z1 * b - z1a * b) by (nonlinear_arith)
        requires
            xy01 == c2 * b + z1 - z1a,
    ;
    assert(xy11 * (b * b) + c1 * (b * b) + c2 * (b * b) == (xy11 + c1 + c2) * (b * b))
        by (nonlinear_arith);
}

/// Bounds on 64-bit digit products.
proof fn lemma_digit_products(a: int, b: int, c: int)
    requires
        0 <= a < radix64(),
        0 <= b < radix64(),
        0 <= c < radix64(),
    ensures
        0 <= a * b + c < radix128(),
        a * b <= (radix64() - 1) * (radix64() - 1),
{
    assert(a * b <= (radix64() - 1) * (radix64() - 1)) by (nonlinear_arith)
        requires
            0 <= a < radix64(),
            0 <= b < radix64(),
    ;
    assert(0 <= a * b) by (nonlinear_arith)
        requires
            0 <= a,
            0 <= b,
    ;
    assert((radix64() - 1) * (radix64() - 1) + radix64() - 1 < radix128()) by (nonlinear_arith);
}

/// Full product of two 128-bit integers as `(high, low)` words:
/// `high * 2^128 + low == lhs * rhs`.
pub fn u256prod(lhs: u128, rhs: u128) -> (r: (u128, u128))
    ensures
        r.0 * radix128() + r.1 == lhs * rhs,
{
    let (x1, x0) = split_to_u128(lhs);
    let (y1, y0) = split_to_u128(rhs);
    proof {
        lemma_digit_products(x0 as int, y0 as int, 0);
        lemma_digit_products(x1 as int, y1 as int, 0);
    }
    let (c, z0) = split_to_u128(x0 * y0);
    proof {
        lemma_digit_products(x1 as int, y0 as int, c as int);
    }
    let (c1, z1a) = split_to_u128(x1 * y0 + c);
    proof {
        lemma_digit_products(x1 as int, y1 as int, c1 as int);
    }
    let z2 = x1 * y1 + c1;
    proof {
        lemma_digit_products(x0 as int, y1 as int, z1a as int);
    }
    let (c2, z1) = split_to_u128(x0 * y1 + z1a);
    proof {
        lemma_schoolbook(
            x1 as int,
            x0 as int,
            y1 as int,
            y0 as int,
            c as int,
            z0 as int,
            c1 as int,
            z1a as int,
            c2 as int,
            z1 as int,
            radix64(),
        );
        let hi = z2 + c2;
        let lo = z1 * radix64() + z0;
        assert(0 <= lo < radix128()) by (nonlinear_arith)
            requires
                0 <= z1 < radix64(),
                0 <= z0 < radix64(),
                lo == z1 * radix64() + z0,
        ;
        assert(lhs * rhs <= (radix128() - 1) * (radix128() - 1)) by (nonlinear_arith)
            requires
                0 <= lhs < radix128(),
                0 <= rhs < radix128(),
        ;
        assert(hi < radix128()) by (nonlinear_arith)
            requires
                hi * radix128() + lo == lhs * rhs,
                lhs * rhs <= (radix128() - 1) * (radix128() - 1),
                0 <= lo,
                radix128() > 1,
        ;
    }
    (z2 + c2, z1 * 0x1_0000_0000_0000_0000 + z0)
}

/// High word of the product of two 128-bit integers: `lhs * rhs / 2^128`.
pub fn u256prod_hi(lhs: u128, rhs: u128) -> (r: u128)
    ensures
        r == (lhs * rhs) / radix128(),
{
    let (hi, lo) = u256prod(lhs, rhs);
    proof {
        lemma_fundamental_div_mod_converse_div(lhs * rhs, radix128(), hi as int, lo as int);
    }
    hi
}

/// Square of a 128-bit integer as `(high, low)` words, sharing the cross
/// product: `high * 2^128 + low == x * x`.
pub fn u256sqr(x: u128) -> (r: (u128, u128))
    ensures
        r.0 * radix128() + r.1 == x * x,
{
    let (x1, x0) = split_to_u128(x);
    proof {
        lemma_digit_products(x0 as int, x0 as int, 0);
        lemma_digit_products(x1 as int, x1 as int, 0);
        lemma_digit_products(x1 as int, x0 as int, 0);
    }
    let m = x1 * x0;
    let (c, z0) = split_to_u128(x0 * x0);
    proof {
        lemma_digit_products(x1 as int, x0 as int, c as int);
    }
    let (c1, z1a) = split_to_u128(m + c);
    proof {
        lemma_digit_products(x1 as int, x1 as int, c1 as int);
    }
    let z2 = x1 * x1 + c1;
    proof {
        lemma_digit_products(x0 as int, x1 as int, z1a as int);
        lemma_mul_is_commutative(x0 as int, x1 as int);
    }
    let (c2, z1) = split_to_u128(m + z1a);
    proof {
        lemma_schoolbook(
            x1 as int,
            x0 as int,
            x1 as int,
            x0 as int,
            c as int,
            z0 as int,
            c1 as int,
            z1a as int,
            c2 as int,
            z1 as int,
            radix64(),
        );
        let hi = z2 + c2;
        let lo = z1 * radix64() + z0;
        assert(0 <= lo < radix128()) by (nonlinear_arith)
            requires
                0 <= z1 < radix64(),
                0 <= z0 < radix64(),
                lo == z1 * radix64() + z0,
        ;
        assert(x * x <= (radix128() - 1) * (radix128() - 1)) by (nonlinear_arith)
            requires
                0 <= x < radix128(),
        ;
        assert(hi < radix128()) by (nonlinear_arith)
            requires
                hi * radix128() + lo == x * x,
                x * x <= (radix128() - 1) * (radix128() - 1),
                0 <= lo,
                radix128() > 1,
        ;
    }
    (z2 + c2, z1 * 0x1_0000_0000_0000_0000 + z0)
}

/// The negated inverse `inv` of an odd `n` modulo 2^128:
/// `n * inv ≡ -1 (mod 2^128)`.
pub open spec fn is_neg_inverse_128(n: u128, inv: u128) -> bool {
    (n as int * inv as int) % radix128() == radix128() - 1
}

/// REDC from the double-width product `hi * 2^128 + lo` of two residues.
fn redc_128(hi: u128, lo: u128, n: u128, inv: u128) -> (r: u128)
    requires
        n % 2 == 1,
        (hi * radix128() + lo) < n * radix128(),
        is_neg_inverse_128(n, inv),
    ensures
        r < n,
        (r as int * radix128()) % (n as int) == (hi * radix128() + lo) % (n as int),
{
    let ghost p = hi * radix128() + lo;
    let t = lo.wrapping_mul(inv);
    let carry = u256prod_hi(t, n);
    proof {
        lemma_fundamental_div_mod_converse_div(p, radix128(), hi as int, lo as int);
        lemma_fundamental_div_mod_converse_mod(p, radix128(), hi as int, lo as int);
        lemma_mul_is_commutative(t as int, n as int);
        lemma_redc(p, n as int, inv as int, radix128(), t as int);
        lemma_reduce_once(
            hi as int + carry as int + if lo != 0 { 1int } else { 0int },
            radix128(),
            n as int,
        );
    }
    // hi + carry + (lo != 0) lies below 2n; add it modulo n without overflow
    let b = carry + if lo != 0 { 1u128 } else { 0u128 };
    if hi >= n - b {
        hi - (n - b)
    } else {
        hi + b
    }
}

/// Product in Montgomery form, 128-bit form: for `x, y < n` returns the
/// `r < n` with `r * 2^128 ≡ x * y (mod n)`.
pub fn mont_prod_128(x: u128, y: u128, n: u128, inv: u128) -> (r: u128)
    requires
        n % 2 == 1,
        x < n,
        y < n,
        is_neg_inverse_128(n, inv),
    ensures
        r < n,
        (r as int * radix128()) % (n as int) == (x as int * y as int) % (n as int),
{
    let (hi, lo) = u256prod(x, y);
    proof {
        assert((x as int) * (y as int) < (n as int) * radix128()) by (nonlinear_arith)
            requires
                x < n,
                y < n,
                n < radix128(),
        ;
    }
    redc_128(hi, lo, n, inv)
}

/// Squaring in Montgomery form, 128-bit form.
pub fn mont_sqr_128(x: u128, n: u128, inv: u128) -> (r: u128)
    requires
        n % 2 == 1,
        x < n,
        is_neg_inverse_128(n, inv),
    ensures
        r < n,
        (r as int * radix128()) % (n as int) == (x as int * x as int) % (n as int),
{
    let (hi, lo) = u256sqr(x);
    proof {
        assert((x as int) * (x as int) < (n as int) * radix128()) by (nonlinear_arith)
            requires
                x < n,
                n < radix128(),
        ;
    }
    redc_128(hi, lo, n, inv)
}

/// One Newton step towards the inverse of `n` modulo 2^128: if `e` is
/// correct in the low `j` bits, the result is correct in twice as many.
fn newton_step_128(n: u128, e: u128, Ghost(j): Ghost<nat>) -> (w: u128)
    requires
        1 <= j <= 128,
        (n as int * e as int) % (pow2(j) as int) == 1,
    ensures
        (n as int * w as int) % (pow2(if 2 * j < 128 { 2 * j } else { 128 }) as int) == 1,
{
    let c = e.wrapping_mul(n);
    let a = 2u128.wrapping_sub(c);
    let w = a.wrapping_mul(e);
    proof {
        let m = radix128();
        if 2 - c < 0 {
            lemma_mod_add_multiples_vanish(2 - c, m);
        }
        lemma_wrapped_newton(n as int, e as int, a as int, w as int, m);
        lemma_radix128();
        lemma_newton_step(n as int, e as int, w as int, j, 128);
    }
    w
}

/// Multiplicative inverse over Z/2^128, negated: for odd `n` returns the
/// unique `v` with `n * v ≡ -1 (mod 2^128)`. The 64-bit inverse of the low
/// word is lifted by one Newton step.
pub fn mul_inv2_128(n: u128) -> (r: u128)
    requires
        n % 2 == 1,
    ensures
        is_neg_inverse_128(n, r),
{
    let low = (n % 0x1_0000_0000_0000_0000) as u64;
    let v = mul_inv2(low);
    let e = 0u64.wrapping_sub(v);
    proof {
        lemma_mul_mod_noop_left(n as int, v as int, radix64());
        lemma_mul_mod_noop_left(low as int, v as int, radix64());
        lemma_negate_neg_inverse(n as int, v as int, radix64());
        lemma_radix64();
    }
    let w = newton_step_128(n, e as u128, Ghost(64));
    proof {
        lemma_radix128();
        lemma_negate_inverse(n as int, w as int, radix128());
    }
    0u128.wrapping_sub(w)
}

/// Convert to Montgomery form, 128-bit form: `x * 2^128 mod n`, by 128
/// modular doublings.
pub fn to_mont_128(x: u128, n: u128) -> (r: u128)
    requires
        n > 0,
    ensures
        r == mont_of(x as int, radix128(), n as int),
{
    let mut y = x % n;
    let mut i: u32 = 0;
    proof {
        lemma2_to64();
    }
    while i < 128
        invariant
            n > 0,
            i <= 128,
            y < n,
            y as int == (x as int * pow2(i as nat)) % (n as int),
        decreases 128 - i,
    {
        proof {
            lemma_reduce_once(2 * y, 1, n as int);
            lemma_small_mod((if 2 * y >= n { 2 * y - n } else { 2 * y }) as nat, n as nat);
            lemma_mul_mod_noop_right(2, x as int * pow2(i as nat), n as int);
            lemma_pow2_unfold((i + 1) as nat);
            assert(2 * (x as int * pow2(i as nat)) == x as int * pow2((i + 1) as nat)) by (nonlinear_arith)
                requires
                    pow2((i + 1) as nat) == 2 * pow2(i as nat),
            ;
        }
        y = if y >= n - y {
            y - (n - y)
        } else {
            y + y
        };
        i = i + 1;
    }
    proof {
        lemma_radix128();
    }
    y
}

/// One in Montgomery form, 128-bit form: `2^128 mod n`.
pub fn one_mont_128(n: u128) -> (r: u128)
    requires
        n > 0,
    ensures
        r == mont_of(1, radix128(), n as int),
{
    proof {
        lemma_mod_sub_multiples_vanish(radix128(), n as int);
    }
    0u128.wrapping_sub(n) % n
}

/// Two in Montgomery form, from the Montgomery form of one.
pub fn two_mont_128(one: u128, n: u128) -> (r: u128)
    requires
        n % 2 == 1,
        n > 1,
        one == mont_of(1, radix128(), n as int),
    ensures
        r == mont_of(2, radix128(), n as int),
{
    proof {
        let m = radix128();
        if n > 0x8000_0000_0000_0000_0000_0000_0000_0000 {
            lemma_mod_sub_multiples_vanish(m, n as int);
            lemma_small_mod((m - n) as nat, n as nat);
        }
        assert(one < 0x8000_0000_0000_0000_0000_0000_0000_0000);
        lemma_mul_mod_noop_right(2, m, n as int);
        lemma_reduce_once(2 * one, 1, n as int);
        lemma_small_mod(
            (if 2 * one >= n { 2 * one - n } else { 2 * one }) as nat,
            n as nat,
        );
    }
    let two = one + one;
    if two >= n {
        two - n
    } else {
        two
    }
}

/// Subtraction of residues: `(x - y) mod n`.
pub fn mont_sub_128(x: u128, y: u128, n: u128) -> (r: u128)
    requires
        x < n,
        y < n,
    ensures
        r == (x as int - y as int) % (n as int),
{
    if y > x {
        proof {
            lemma_mod_add_multiples_vanish(x - y, n as int);
            lemma_small_mod((x - y + n) as nat, n as nat);
        }
        n - (y - x)
    } else {
        proof {
            lemma_small_mod((x - y) as nat, n as nat);
        }
        x - y
    }
}

/// Modular exponentiation in Montgomery form: for residues `base` and `one`
/// standing for `b` and `a`, returns the Montgomery form of `a * b^pow`.
pub fn mont_pow_128(base: u128, one: u128, pow: u128, n: u128, inv: u128) -> (r: u128)
    requires
        n % 2 == 1,
        n > 1,
        base < n,
        one < n,
        pow >= 1,
        is_neg_inverse_128(n, inv),
    ensures
        r < n,
        r == mont_of(
            unmont(one as int, radix128(), n as int) * vstd::arithmetic::power::pow(
                unmont(base as int, radix128(), n as int),
                pow as nat,
            ),
            radix128(),
            n as int,
        ),
{
    let ghost rr = radix128();
    let ghost nn = n as int;
    let ghost target = unmont(one as int, rr, nn) * vstd::arithmetic::power::pow(
        unmont(base as int, rr, nn),
        pow as nat,
    );
    let mut b = base;
    let mut acc = one;
    let mut p = pow;
    while p > 1
        invariant
            n % 2 == 1,
            n > 1,
            is_neg_inverse_128(n, inv),
            b < n,
            acc < n,
            1 <= p,
            (unmont(acc as int, rr, nn) * vstd::arithmetic::power::pow(unmont(b as int, rr, nn), p as nat))
                % nn == target % nn,
            rr == radix128(),
            nn == n as int,
        decreases p,
    {
        let ghost va = unmont(acc as int, rr, nn);
        let ghost vb = unmont(b as int, rr, nn);
        proof {
            lemma_square_and_multiply(va, vb, p as nat, nn);
        }
        if p % 2 == 0 {
            let b2 = mont_sqr_128(b, n, inv);
            proof {
                lemma_mont_mul_values(b as int, b as int, b2 as int, rr, nn);
                lemma_unmont(0, vb * vb, rr, nn);
            }
            b = b2;
        } else {
            let acc2 = mont_prod_128(acc, b, n, inv);
            let b2 = mont_sqr_128(b, n, inv);
            proof {
                lemma_mont_mul_values(acc as int, b as int, acc2 as int, rr, nn);
                lemma_unmont(0, va * vb, rr, nn);
                lemma_mont_mul_values(b as int, b as int, b2 as int, rr, nn);
                lemma_unmont(0, vb * vb, rr, nn);
            }
            acc = acc2;
            b = b2;
        }
        p = p / 2;
    }
    let r = mont_prod_128(acc, b, n, inv);
    proof {
        let va = unmont(acc as int, rr, nn);
        let vb = unmont(b as int, rr, nn);
        lemma_mont_mul_values(acc as int, b as int, r as int, rr, nn);
        lemma_pow1(vb);
        lemma_mont_of_congruent(va * vb, target, rr, nn);
    }
    r
}

/// Strong Fermat (Miller-Rabin) test in Montgomery form: `base` is the
/// Montgomery form of the witness, `one` and `oneinv` those of 1 and
/// `n - 1`, and `tz` the number of halvings of `n - 1`.
pub fn strong_fermat_128(n: u128, tz: u32, base: u128, one: u128, oneinv: u128, inv: u128) -> (r: bool)
    requires
        n % 2 == 1,
        n > 1,
        1 <= tz < 128,
        (n as int - 1) / (pow2(tz as nat) as int) >= 1,
        base < n,
        one == mont_of(1, radix128(), n as int),
        oneinv == mont_of(n as int - 1, radix128(), n as int),
        is_neg_inverse_128(n, inv),
    ensures
        r == strong_probable_prime(n as int, tz as nat, unmont(base as int, radix128(), n as int)),
{
    let ghost rr = radix128();
    let ghost nn = n as int;
    let ghost vb = unmont(base as int, rr, nn);
    let d = (n - 1) >> (tz as u128);
    proof {
        lemma_u128_shr_is_div((n - 1) as u128, tz as u128);
        assert(d as int == (nn - 1) / (pow2(tz as nat) as int));
        lemma_unmont(0, 1, rr, nn);
        lemma_small_mod(1, n as nat);
        lemma_mod_bound(1 * rr, nn);
    }
    let mut result = mont_pow_128(base, one, d, n, inv);
    let ghost x = vstd::arithmetic::power::pow(vb, d as nat) % nn;
    proof {
        lemma_unmont(0, vstd::arithmetic::power::pow(vb, d as nat), rr, nn);
        assert(unmont(one as int, rr, nn) == 1);
        let pw = vstd::arithmetic::power::pow(vb, d as nat);
        assert(1 * pw == pw) by (nonlinear_arith);
        assert(result == mont_of(vstd::arithmetic::power::pow(vb, d as nat), rr, nn));
        assert(unmont(result as int, rr, nn) == x);
        lemma_mod_bound(vstd::arithmetic::power::pow(vb, d as nat), nn);
        lemma_residue_is(result as int, 1, rr, nn);
        lemma_residue_is(result as int, nn - 1, rr, nn);
    }
    if result == one || result == oneinv {
        return true;
    }
    let mut count: u32 = 1;
    while count < tz
        invariant
            n % 2 == 1,
            n > 1,
            is_neg_inverse_128(n, inv),
            1 <= count <= tz,
            result < n,
            oneinv == mont_of(nn - 1, rr, nn),
            unmont(result as int, rr, nn) != nn - 1,
            reaches_minus_one(x, tz as nat, nn) == reaches_minus_one(
                unmont(result as int, rr, nn),
                (tz - count + 1) as nat,
                nn,
            ),
            rr == radix128(),
            nn == n as int,
            x != 1,
            strong_probable_prime(nn, tz as nat, vb) == (x == 1 || reaches_minus_one(x, tz as nat, nn)),
            vb == unmont(base as int, rr, nn),
        decreases tz - count,
    {
        let ghost v = unmont(result as int, rr, nn);
        count = count + 1;
        let next = mont_sqr_128(result, n, inv);
        proof {
            lemma_mont_mul_values(result as int, result as int, next as int, rr, nn);
            lemma_unmont(0, v * v, rr, nn);
            lemma_unmont(result as int, 0, rr, nn);
            lemma_residue_is(next as int, nn - 1, rr, nn);
        }
        result = next;
        if result == oneinv {
            proof {
                assert(reaches_minus_one(unmont(result as int, rr, nn), (tz - count + 1) as nat, nn));
                assert(reaches_minus_one(v, (tz - count + 2) as nat, nn));

            }
            return true;
        }
    }
    proof {
        assert(!reaches_minus_one((unmont(result as int, rr, nn) * unmont(result as int, rr, nn)) % nn, 0, nn));
    }
    false
}

/// Splits `m > 0` into its odd part and the number of factors two.
fn split_twos_128(m: u128) -> (r: (u128, u32))
    requires
        m > 0,
    ensures
        r.0 as int == odd_part(m as int),
        r.1 as nat == two_adic(m as int),
        r.1 < 128,
        r.0 % 2 == 1,
{
    let mut d = m;
    let mut s: u32 = 0;
    proof {
        lemma2_to64();
    }
    while d % 2 == 0
        invariant
            d > 0,
            m as int == d as int * pow2(s as nat),
            two_adic(m as int) == s + two_adic(d as int),
            s < 128,
            d as int * pow2(s as nat) <= 0xffff_ffff_ffff_ffff_ffff_ffff_ffff_ffff,
        decreases d,
    {
        proof {
            lemma_pow2_unfold((s + 1) as nat);
            assert(d as int * pow2(s as nat) == (d / 2) as int * pow2((s + 1) as nat)) by (nonlinear_arith)
                requires
                    d % 2 == 0,
                    pow2((s + 1) as nat) == 2 * pow2(s as nat),
            ;
            lemma_pow2_pos(s as nat);
            if s + 1 >= 128 {
                assert(s + 1 == 128);
                lemma_radix128();
                assert((d / 2) as int * pow2((s + 1) as nat) >= pow2((s + 1) as nat)) by (nonlinear_arith)
                    requires
                        d / 2 >= 1,
                        pow2((s + 1) as nat) > 0,
                ;
            }
        }
        d = d / 2;
        s = s + 1;
    }
    proof {
        lemma_pow2_pos(s as nat);
        lemma_div_multiples_vanish(d as int, pow2(s as nat) as int);
        lemma_mul_is_commutative(d as int, pow2(s as nat) as int);
    }
    (d, s)
}

/// Non-quadratic residue check: whether the Jacobi symbol `(a / k)` is `-1`,
/// for odd `k`, by the binary Jacobi algorithm.
pub fn nqr_128(a: u128, k: u128) -> (r: bool)
    requires
        k % 2 == 1,
    ensures
        r == (jacobi(a as int, k as int) == -1),
{
    let mut n = a;
    let mut p = k;
    let mut t = false;
    while n != 0
        invariant
            p % 2 == 1,
            jacobi(a as int, k as int) == sign(t) * jacobi(n as int, p as int),
        decreases n,
    {
        let ghost n0 = n;
        while n % 2 == 0
            invariant
                n != 0,
                n <= n0,
                p % 2 == 1,
                jacobi(a as int, k as int) == sign(t) * jacobi(n as int, p as int),
            decreases n,
        {
            // a factor two flips the sign when p ≡ 3, 5 (mod 8)
            proof {
                lemma_sign_mul(t, p % 8 == 3 || p % 8 == 5, jacobi((n / 2) as int, p as int));
            }
            n = n / 2;
            if p % 8 == 3 || p % 8 == 5 {
                t = !t;
            }
        }
        // reciprocity flips the sign when n ≡ p ≡ 3 (mod 4)
        proof {
            lemma_sign_mul(t, p % 4 == 3 && n % 4 == 3, jacobi((p % n) as int, n as int));
        }
        if p % 4 == 3 && n % 4 == 3 {
            t = !t;
        }
        let next = p % n;
        p = n;
        n = next;
    }
    p == 1 && t
}

/// Lucas parameter search: the least `p >= 3` below 2^32 for which
/// `p^2 - 4` is a non-quadratic residue of the odd `n`, or 0 when there is
/// none (as for perfect squares).
pub fn param_search_128(n: u128) -> (r: u128)
    requires
        n % 2 == 1,
    ensures
        r as int == lucas_param(n as int),
        r != 0 ==> 3 <= r < param_limit() && jacobi(r * r - 4, n as int) == -1,
        r == 0 ==> forall|q: int| 3 <= q < param_limit() ==> #[trigger] jacobi(q * q - 4, n as int) != -1,
{
    let mut p: u128 = 3;
    while p < 0x1_0000_0000
        invariant
            n % 2 == 1,
            3 <= p <= 0x1_0000_0000,
            lucas_param_from(n as int, p as int) == lucas_param(n as int),
            forall|q: int| 3 <= q < p ==> #[trigger] jacobi(q * q - 4, n as int) != -1,
        decreases 0x1_0000_0000 - p,
    {
        proof {
            assert(p * p <= 0xffff_ffff * 0xffff_ffffint) by (nonlinear_arith)
                requires
                    p <= 0xffff_ffff,
            ;
            assert(p * p >= 9) by (nonlinear_arith)
                requires
                    p >= 3,
            ;
        }
        if nqr_128(p * p - 4, n) {
            return p;
        }
        p = p + 1;
    }
    0
}

/// Lucas-V strong probable-prime test with Selfridge's parameter `(P, 1)`:
/// `one` and `two` are the Montgomery forms of 1 and 2. A modulus without a
/// parameter below 2^32 is rejected.
pub fn lucas_128(n: u128, one: u128, two: u128, inv: u128) -> (r: bool)
    requires
        n % 2 == 1,
        n > 1,
        one == mont_of(1, radix128(), n as int),
        two == mont_of(2, radix128(), n as int),
        is_neg_inverse_128(n, inv),
    ensures
        r == (lucas_param(n as int) != 0 && lucas_probable_prime(n as int, lucas_param(n as int))),
{
    let ghost rr = radix128();
    let ghost nn = n as int;
    let param = param_search_128(n);
    if param == 0 {
        return false;
    }
    let ghost pp = param as int;
    // n + 1 = 2 * (n / 2 + 1) = d * 2^s
    let (d, s0) = split_twos_128(n / 2 + 1);
    let s = s0 + 1;
    proof {
        lemma_two_adic_double((n / 2 + 1) as int);
        assert(2 * (n / 2 + 1) == n + 1);
        lemma_mod_bound(1 * rr, nn);
        lemma_mod_bound(2 * rr, nn);
        lemma_unmont(0, 2, rr, nn);
        lemma_small_mod(2, n as nat);
        assert(unmont(two as int, rr, nn) == 2);
    }
    let m_param = to_mont_128(param, n);
    let m_2_inv = mont_sub_128(0, two, n);
    let sq = mont_sqr_128(m_param, n, inv);
    let mut w = mont_sub_128(sq, two, n);
    let mut v = m_param;
    proof {
        lemma_mod_bound(pp * rr, nn);
        lemma_unmont(0, pp, rr, nn);
        lemma_mont_sub_values(0, two as int, m_2_inv as int, rr, nn);
        lemma_mont_mul_values(m_param as int, m_param as int, sq as int, rr, nn);
        lemma_unmont(0, (pp % nn) * (pp % nn), rr, nn);
        lemma_mont_sub_values(sq as int, two as int, w as int, rr, nn);
        lemma_mod_twice(pp, nn);
        lemma_mod_mul_sub(pp % nn, pp % nn, 2, pp, pp, 2, nn);
        lemma_mod_twice((pp % nn) * (pp % nn), nn);
        lemma_lucas_double(pp, 1);
        assert(lucas_v(pp, 1) == pp);
    }
    // the highest power of two not above d
    let mut mask: u128 = 1;
    let ghost mut j: nat = 0;
    proof {
        lemma2_to64();
    }
    while mask <= d / 2
        invariant
            1 <= mask <= d,
            mask as int == pow2(j),
        decreases d - mask,
    {
        proof {
            lemma_pow2_unfold(j + 1);
        }
        mask = mask * 2;
        proof {
            j = j + 1;
        }
    }
    proof {
        lemma_fundamental_div_mod(d as int, mask as int);
        assert(d / mask == 1) by (nonlinear_arith)
            requires
                d / 2 < mask,
                1 <= mask <= d,
                d == mask * (d / mask) + d % mask,
                0 <= d % mask < mask,
        ;
    }
    while mask > 1
        invariant
            n % 2 == 1,
            n > 1,
            is_neg_inverse_128(n, inv),
            rr == radix128(),
            nn == n as int,
            1 <= mask <= d,
            mask as int == pow2(j),
            v < n,
            w < n,
            m_param < n,
            two < n,
            unmont(two as int, rr, nn) == 2,
            unmont(m_param as int, rr, nn) == pp % nn,
            unmont(v as int, rr, nn) == lucas_v(pp, (d / mask) as nat) % nn,
            unmont(w as int, rr, nn) == lucas_v(pp, (d / mask) as nat + 1) % nn,
        decreases mask,
    {
        let ghost k = (d / mask) as nat;
        let ghost vk = lucas_v(pp, k);
        let ghost vk1 = lucas_v(pp, k + 1);
        proof {
            assert(j > 0) by {
                if j == 0 {
                    lemma2_to64();
                }
            }
            lemma_pow2_unfold(j);
            lemma_pow2_pos((j - 1) as nat);
            lemma_next_bit(d as int, pow2((j - 1) as nat) as int);
            lemma_lucas_double(pp, k);
            lemma_lucas_double(pp, k + 1);
            assert(2 * (k + 1) == 2 * k + 2);
            j = (j - 1) as nat;
        }
        mask = mask / 2;
        let vw = mont_prod_128(v, w, n, inv);
        let t = mont_sub_128(vw, m_param, n);
        proof {
            lemma_mont_mul_values(v as int, w as int, vw as int, rr, nn);
            lemma_unmont(0, unmont(v as int, rr, nn) * unmont(w as int, rr, nn), rr, nn);
            lemma_mont_sub_values(vw as int, m_param as int, t as int, rr, nn);
            lemma_mod_twice(pp, nn);
            lemma_mod_twice(vk, nn);
            lemma_mod_twice(vk1, nn);
            lemma_mod_mul_sub(
                unmont(v as int, rr, nn),
                unmont(w as int, rr, nn),
                unmont(m_param as int, rr, nn),
                vk,
                vk1,
                pp,
                nn,
            );
            lemma_mod_twice(vk, nn);
            lemma_mod_twice(vk1, nn);
        }
        if (d / mask) % 2 == 1 {
            let ww = mont_sqr_128(w, n, inv);
            let w2 = mont_sub_128(ww, two, n);
            proof {
                lemma_mont_mul_values(w as int, w as int, ww as int, rr, nn);
                lemma_unmont(0, unmont(w as int, rr, nn) * unmont(w as int, rr, nn), rr, nn);
                lemma_mont_sub_values(ww as int, two as int, w2 as int, rr, nn);
                lemma_mod_mul_sub(
                    unmont(w as int, rr, nn),
                    unmont(w as int, rr, nn),
                    2,
                    vk1,
                    vk1,
                    2,
                    nn,
                );
            }
            v = t;
            w = w2;
        } else {
            let vv = mont_sqr_128(v, n, inv);
            let v2 = mont_sub_128(vv, two, n);
            proof {
                lemma_mont_mul_values(v as int, v as int, vv as int, rr, nn);
                lemma_unmont(0, unmont(v as int, rr, nn) * unmont(v as int, rr, nn), rr, nn);
                lemma_mont_sub_values(vv as int, two as int, v2 as int, rr, nn);
                lemma_mod_mul_sub(
                    unmont(v as int, rr, nn),
                    unmont(v as int, rr, nn),
                    2,
                    vk,
                    vk,
                    2,
                    nn,
                );
            }
            w = t;
            v = v2;
        }
    }
    let ghost vd = lucas_v(pp, d as nat) % nn;
    proof {
        assert(mask == 1);
        lemma_div_by_multiple(d as int, 1);
        assert(d / mask == d);
        lemma_unmont(v as int, 0, rr, nn);
        lemma_unmont(m_2_inv as int, 0, rr, nn);
        lemma_residue_is(v as int, 2, rr, nn);
        assert((0 - 2) % nn == nn - 2) by {
            lemma_mod_add_multiples_vanish(-2, nn);
            lemma_small_mod((nn - 2) as nat, nn as nat);
        }
        assert((v == m_2_inv) == (vd == nn - 2));
    }
    if v == two || v == m_2_inv {
        return true;
    }
    let mut counter: u32 = 1;
    while counter < s
        invariant
            n % 2 == 1,
            n > 1,
            is_neg_inverse_128(n, inv),
            rr == radix128(),
            nn == n as int,
            1 <= counter <= s,
            v < n,
            two < n,
            unmont(two as int, rr, nn) == 2,
            two == mont_of(2, rr, nn),
            pp == lucas_param(nn),
            pp != 0,
            lucas_probable_prime(nn, pp) == (vd == 2 || vd == nn - 2 || lucas_chain(vd, (s - 1) as nat, nn)),
            vd != 2,
            vd != nn - 2,
            lucas_chain(vd, (s - 1) as nat, nn) == lucas_chain(unmont(v as int, rr, nn), (s - counter) as nat, nn),
        decreases s - counter,
    {
        let ghost cur = unmont(v as int, rr, nn);
        proof {
            lemma_residue_is(v as int, 0, rr, nn);
            lemma_small_mod(0, n as nat);
        }
        if v == 0 {
            return true;
        }
        let vv = mont_sqr_128(v, n, inv);
        let next = mont_sub_128(vv, two, n);
        proof {
            lemma_mont_mul_values(v as int, v as int, vv as int, rr, nn);
            lemma_unmont(0, cur * cur, rr, nn);
            lemma_mont_sub_values(vv as int, two as int, next as int, rr, nn);
            lemma_mod_mul_sub(cur, cur, 2, cur, cur, 2, nn);
            lemma_unmont(next as int, 0, rr, nn);
            lemma_residue_is(next as int, 2, rr, nn);
            assert(unmont(next as int, rr, nn) == (cur * cur - 2) % nn);
            assert(cur != 0);
            assert(lucas_chain(cur, (s - counter) as nat, nn) == ((cur * cur - 2) % nn != 2 && lucas_chain(
                (cur * cur - 2) % nn,
                (s - counter - 1) as nat,
                nn,
            )));
        }
        v = next;
        if v == two {
            return false;
        }
        counter = counter + 1;
    }
    false
}

/// Integer square root: the `r` with `r^2 <= x < (r + 1)^2`.
fn isqrt_128(x: u128) -> (r: u128)
    ensures
        r * r <= x < (r + 1) * (r + 1),
{
    let mut lo: u128 = 0;
    let mut hi: u128 = 0x1_0000_0000_0000_0000;
    while hi - lo > 1
        invariant
            lo < hi <= 0x1_0000_0000_0000_0000,
            lo * lo <= x,
            x < hi * hi,
        decreases hi - lo,
    {
        let mid = lo + (hi - lo) / 2;
        proof {
            assert(mid * mid <= 0xffff_ffff_ffff_ffff * 0xffff_ffff_ffff_ffffint) by (nonlinear_arith)
                requires
                    mid <= 0xffff_ffff_ffff_ffff,
            ;
        }
        if mid * mid <= x {
            lo = mid;
        } else {
            hi = mid;
        }
    }
    lo
}

/// The Baillie-PSW cascade on an odd `x >= 2^64`: a base-2 strong Fermat
/// test, a perfect-square guard and the strong Lucas test.
fn core_primality_128(x: u128) -> (r: bool)
    requires
        x % 2 == 1,
        x >= radix64(),
    ensures
        r == bpsw(x as int),
{
    let ghost rr = radix128();
    let ghost xx = x as int;
    let inv = mul_inv2_128(x);
    let (_, tzc) = split_twos_128(x - 1);
    let one = one_mont_128(x);
    let oneinv = mont_sub_128(0, one, x);
    let two = two_mont_128(one, x);
    proof {
        lemma_mod_bound(1 * rr, xx);
        lemma_mod_bound(2 * rr, xx);
        // the first halving of the even x - 1
        assert(tzc >= 1) by {
            assert(two_adic(xx - 1) == 1 + two_adic((xx - 1) / 2));
        }
        lemma_pow2_pos(tzc as nat);
        // Montgomery form of -1
        lemma_sub_mod_noop(0, rr, xx);
        lemma_small_mod(0, x as nat);
        assert((xx - 1) * rr == xx * rr + (-rr)) by (nonlinear_arith);
        lemma_mod_multiples_vanish(rr, -rr, xx);
        assert(oneinv == mont_of(xx - 1, rr, xx));
        lemma_unmont(0, 2, rr, xx);
        lemma_small_mod(2, x as nat);
    }
    if !strong_fermat_128(x, tzc, two, one, oneinv, inv) {
        return false;
    }
    let sqrt = isqrt_128(x);
    proof {
        lemma_square_by_root(xx, sqrt as int);
    }
    if sqrt * sqrt == x {
        return false;
    }
    lucas_128(x, one, two, inv)
}

/// 128-bit primality test for odd `x > 1`, without the screening of small
/// and even inputs; inputs below 2^64 take the 64-bit path.
pub fn is_prime_wc_128(x: u128) -> (r: bool)
    requires
        x % 2 == 1,
        x > 1,
    ensures
        r == bpsw(x as int),
{
    if x < 0x1_0000_0000_0000_0000 {
        return is_prime_wc(x as u64);
    }
    core_primality_128(x)
}

/// Primality test for every 128-bit integer: inputs below 2^64 take the
/// 64-bit path; larger ones go through parity, the small-prime trial filter
/// and the Baillie-PSW cascade.
pub fn is_prime_128(x: u128) -> (r: bool)
    ensures
        r == prime_decision(x as int),
{
    if x < 0x1_0000_0000_0000_0000 {
        return is_prime(x as u64);
    }
    if x % 2 == 0 {
        return false;
    }
    match trial_filter_128(x) {
        Some(b) => b,
        None => core_primality_128(x),
    }
}

} // verus!
