//! Khashin's quadratic Frobenius test for 128-bit odd moduli.
//!
//! Let `c` be the first element of `-1, 2, 3, 5, 7, 9, ...` that is a
//! non-residue of `n` (found by residue shortcuts, then a search over odd
//! numbers). A prime `n` satisfies, in the ring `Z_n[√c]`:
//! - `(2 + √-1)^n = 2 - √-1` when `c = -1`,
//! - `(2 + √2)^n = 2 - √2` when `c = 2`,
//! - `(1 + √c)^n = 1 - √c` otherwise.
//! Elements are pairs `(real, coefficient)` of Montgomery residues.

use vstd::prelude::*;
use vstd::arithmetic::div_mod::*;
use crate::math::{jacobi, lemma_mont_sub_values, lemma_residue_is, lemma_unmont, mont_of, radix128};
use crate::quadratic::{
    lemma_congr_lin, lemma_prod_value, lemma_qpow_one, lemma_qpow_step, lemma_qunit,
    lemma_unmont_add, qmul, qpow,
};
use crate::wide::{is_neg_inverse_128, mont_prod_128, mont_sqr_128, mont_sub_128, nqr_128, to_mont_128};

verus! {

/// The value that a residue stands for modulo `n` (128-bit radix).
pub open spec fn val(x: u128, n: u128) -> int {
    crate::math::unmont(x as int, radix128(), n as int)
}

/// The ring element that a pair of residues stands for.
pub open spec fn qval(x: (u128, u128), n: u128) -> (int, int) {
    (val(x.0, n), val(x.1, n))
}

/// The requirements shared by the ring operations: an odd modulus above 1,
/// its negated inverse, and reduced residues.
pub open spec fn ring_ok(n: u128, inv: u128) -> bool {
    n % 2 == 1 && n > 1 && is_neg_inverse_128(n, inv)
}

/// Both coordinates of an element are residues below `n`.
pub open spec fn reduced(x: (u128, u128), n: u128) -> bool {
    x.0 < n && x.1 < n
}

/// `x + x mod n` for `x < n`.
fn double(x: u128, n: u128) -> (r: u128)
    requires
        x < n,
    ensures
        r == (2 * x) % (n as int),
{
    proof {
        crate::math::lemma_reduce_once(2 * x, 1, n as int);
        lemma_small_mod((if 2 * x >= n { 2 * x - n } else { 2 * x }) as nat, n as nat);
    }
    if x >= n - x {
        x - (n - x)
    } else {
        x + x
    }
}

/// `x + y mod n` for `x, y < n`.
fn mont_add(x: u128, y: u128, n: u128) -> (r: u128)
    requires
        x < n,
        y < n,
    ensures
        r == (x + y) % (n as int),
{
    proof {
        crate::math::lemma_reduce_once(x + y, 1, n as int);
        lemma_small_mod((if x + y >= n { x + y - n } else { x + y }) as nat, n as nat);
    }
    if x >= n - y {
        x - (n - y)
    } else {
        x + y
    }
}

/// Twice a product, `2xy`: the coefficient of a square.
fn sqr_coef(x: u128, y: u128, n: u128, inv: u128) -> (r: u128)
    requires
        ring_ok(n, inv),
        x < n,
        y < n,
    ensures
        r < n,
        val(r, n) == (val(x, n) * val(y, n) + val(y, n) * val(x, n)) % (n as int),
{
    let p = mont_prod_128(x, y, n, inv);
    proof {
        lemma_prod_value(x as int, y as int, p as int, radix128(), n as int);
        lemma_unmont_add(p as int, p as int, (2 * p) % (n as int), radix128(), n as int);
        lemma_mod_twice(val(x, n) * val(y, n), n as int);
        crate::quadratic::lemma_mul_commutes(val(x, n), val(y, n));
        lemma_congr_lin(val(p, n), val(x, n) * val(y, n), val(p, n), val(x, n) * val(y, n), 1, n as int);
    }
    double(p, n)
}

/// The coefficient of a product, `xb + ya`.
fn prod_coef(x: u128, y: u128, a: u128, b: u128, n: u128, inv: u128) -> (r: u128)
    requires
        ring_ok(n, inv),
        x < n,
        y < n,
        a < n,
        b < n,
    ensures
        r < n,
        val(r, n) == (val(x, n) * val(b, n) + val(y, n) * val(a, n)) % (n as int),
{
    let p = mont_prod_128(x, b, n, inv);
    let q = mont_prod_128(y, a, n, inv);
    proof {
        lemma_prod_value(x as int, b as int, p as int, radix128(), n as int);
        lemma_prod_value(y as int, a as int, q as int, radix128(), n as int);
        lemma_unmont_add(p as int, q as int, (p + q) % (n as int), radix128(), n as int);
        lemma_mod_twice(val(x, n) * val(b, n), n as int);
        lemma_mod_twice(val(y, n) * val(a, n), n as int);
        lemma_congr_lin(val(p, n), val(x, n) * val(b, n), val(q, n), val(y, n) * val(a, n), 1, n as int);
    }
    mont_add(p, q, n)
}

/// `x^2 - y^2`: the real part of a square of Gaussian integers.
fn gaussian_sqr_real(x: u128, y: u128, n: u128, inv: u128) -> (r: u128)
    requires
        ring_ok(n, inv),
        x < n,
        y < n,
    ensures
        r < n,
        val(r, n) == (val(x, n) * val(x, n) + (-1) * (val(y, n) * val(y, n))) % (n as int),
{
    let p = mont_sqr_128(x, n, inv);
    let q = mont_sqr_128(y, n, inv);
    let r = mont_sub_128(p, q, n);
    proof {
        lemma_prod_value(x as int, x as int, p as int, radix128(), n as int);
        lemma_prod_value(y as int, y as int, q as int, radix128(), n as int);
        lemma_mont_sub_values(p as int, q as int, r as int, radix128(), n as int);
        lemma_mod_twice(val(x, n) * val(x, n), n as int);
        lemma_mod_twice(val(y, n) * val(y, n), n as int);
        lemma_congr_lin(val(p, n), val(x, n) * val(x, n), val(q, n), val(y, n) * val(y, n), -1, n as int);
    }
    r
}

/// `xa - yb`: the real part of a product of Gaussian integers.
fn gaussian_prod_real(x: u128, y: u128, a: u128, b: u128, n: u128, inv: u128) -> (r: u128)
    requires
        ring_ok(n, inv),
        x < n,
        y < n,
        a < n,
        b < n,
    ensures
        r < n,
        val(r, n) == (val(x, n) * val(a, n) + (-1) * (val(y, n) * val(b, n))) % (n as int),
{
    let p = mont_prod_128(x, a, n, inv);
    let q = mont_prod_128(y, b, n, inv);
    let r = mont_sub_128(p, q, n);
    proof {
        lemma_prod_value(x as int, a as int, p as int, radix128(), n as int);
        lemma_prod_value(y as int, b as int, q as int, radix128(), n as int);
        lemma_mont_sub_values(p as int, q as int, r as int, radix128(), n as int);
        lemma_mod_twice(val(x, n) * val(a, n), n as int);
        lemma_mod_twice(val(y, n) * val(b, n), n as int);
        lemma_congr_lin(val(p, n), val(x, n) * val(a, n), val(q, n), val(y, n) * val(b, n), -1, n as int);
    }
    r
}

/// The doubled residue `2q mod n` stands for twice the value of `q`.
proof fn lemma_double_value(q: u128, d: u128, v: int, n: u128)
    requires
        n % 2 == 1,
        n > 1,
        q < n,
        d == (2 * q) % (n as int),
        val(q, n) == v % (n as int),
    ensures
        val(d, n) % (n as int) == (2 * v) % (n as int),
{
    lemma_unmont_add(q as int, q as int, d as int, radix128(), n as int);
    lemma_mod_twice(v, n as int);
    lemma_mod_twice(val(q, n) + val(q, n), n as int);
    lemma_congr_lin(0, 0, val(q, n), v, 2, n as int);
}

/// `x^2 + 2y^2`: the real part of a square in `Z_n[√2]`.
fn two_sqr_real(x: u128, y: u128, n: u128, inv: u128) -> (r: u128)
    requires
        ring_ok(n, inv),
        x < n,
        y < n,
    ensures
        r < n,
        val(r, n) == (val(x, n) * val(x, n) + 2 * (val(y, n) * val(y, n))) % (n as int),
{
    let p = mont_sqr_128(x, n, inv);
    let q = mont_sqr_128(y, n, inv);
    let d = double(q, n);
    let r = mont_add(p, d, n);
    proof {
        lemma_prod_value(x as int, x as int, p as int, radix128(), n as int);
        lemma_prod_value(y as int, y as int, q as int, radix128(), n as int);
        lemma_double_value(q, d, val(y, n) * val(y, n), n);
        lemma_unmont_add(p as int, d as int, r as int, radix128(), n as int);
        lemma_mod_twice(val(x, n) * val(x, n), n as int);
        lemma_congr_lin(val(p, n), val(x, n) * val(x, n), val(d, n), 2 * (val(y, n) * val(y, n)), 1, n as int);
    }
    r
}

/// `xa + 2yb`: the real part of a product in `Z_n[√2]`.
fn two_prod_real(x: u128, y: u128, a: u128, b: u128, n: u128, inv: u128) -> (r: u128)
    requires
        ring_ok(n, inv),
        x < n,
        y < n,
        a < n,
        b < n,
    ensures
        r < n,
        val(r, n) == (val(x, n) * val(a, n) + 2 * (val(y, n) * val(b, n))) % (n as int),
{
    let p = mont_prod_128(x, a, n, inv);
    let q = mont_prod_128(y, b, n, inv);
    let d = double(q, n);
    let r = mont_add(p, d, n);
    proof {
        lemma_prod_value(x as int, a as int, p as int, radix128(), n as int);
        lemma_prod_value(y as int, b as int, q as int, radix128(), n as int);
        lemma_double_value(q, d, val(y, n) * val(b, n), n);
        lemma_unmont_add(p as int, d as int, r as int, radix128(), n as int);
        lemma_mod_twice(val(x, n) * val(a, n), n as int);
        lemma_congr_lin(val(p, n), val(x, n) * val(a, n), val(d, n), 2 * (val(y, n) * val(b, n)), 1, n as int);
    }
    r
}

/// The Montgomery product of `q` with the parameter `c` stands for
/// `c * v` when `q` stands for `v`.
proof fn lemma_scaled_value(q: u128, c: u128, t: u128, v: int, n: u128)
    requires
        n % 2 == 1,
        n > 1,
        q < n,
        c < n,
        t < n,
        (t as int * radix128()) % (n as int) == (q as int * c as int) % (n as int),
        val(q, n) == v % (n as int),
    ensures
        val(t, n) % (n as int) == (val(c, n) * v) % (n as int),
{
    lemma_prod_value(q as int, c as int, t as int, radix128(), n as int);
    lemma_mod_twice(v, n as int);
    lemma_mod_twice(val(q, n) * val(c, n), n as int);
    crate::quadratic::lemma_congr_mul(val(q, n), val(c, n), v, val(c, n), n as int);
    crate::quadratic::lemma_mul_commutes(v, val(c, n));
}

/// `x^2 + cy^2`: the real part of a square in `Z_n[√c]`, for `c` in
/// Montgomery form.
fn general_sqr_real(x: u128, y: u128, c: u128, n: u128, inv: u128) -> (r: u128)
    requires
        ring_ok(n, inv),
        x < n,
        y < n,
        c < n,
    ensures
        r < n,
        val(r, n) == (val(x, n) * val(x, n) + val(c, n) * (val(y, n) * val(y, n))) % (n as int),
{
    let p = mont_sqr_128(x, n, inv);
    let q = mont_sqr_128(y, n, inv);
    let t = mont_prod_128(q, c, n, inv);
    let r = mont_add(p, t, n);
    proof {
        lemma_prod_value(x as int, x as int, p as int, radix128(), n as int);
        lemma_prod_value(y as int, y as int, q as int, radix128(), n as int);
        lemma_scaled_value(q, c, t, val(y, n) * val(y, n), n);
        lemma_unmont_add(p as int, t as int, r as int, radix128(), n as int);
        lemma_mod_twice(val(x, n) * val(x, n), n as int);
        lemma_congr_lin(
            val(p, n),
            val(x, n) * val(x, n),
            val(t, n),
            val(c, n) * (val(y, n) * val(y, n)),
            1,
            n as int,
        );
    }
    r
}

/// `xa + cyb`: the real part of a product in `Z_n[√c]`.
fn general_prod_real(x: u128, y: u128, a: u128, b: u128, c: u128, n: u128, inv: u128) -> (r: u128)
    requires
        ring_ok(n, inv),
        x < n,
        y < n,
        a < n,
        b < n,
        c < n,
    ensures
        r < n,
        val(r, n) == (val(x, n) * val(a, n) + val(c, n) * (val(y, n) * val(b, n))) % (n as int),
{
    let p = mont_prod_128(x, a, n, inv);
    let q = mont_prod_128(y, b, n, inv);
    let t = mont_prod_128(q, c, n, inv);
    let r = mont_add(p, t, n);
    proof {
        lemma_prod_value(x as int, a as int, p as int, radix128(), n as int);
        lemma_prod_value(y as int, b as int, q as int, radix128(), n as int);
        lemma_scaled_value(q, c, t, val(y, n) * val(b, n), n);
        lemma_unmont_add(p as int, t as int, r as int, radix128(), n as int);
        lemma_mod_twice(val(x, n) * val(a, n), n as int);
        lemma_congr_lin(
            val(p, n),
            val(x, n) * val(a, n),
            val(t, n),
            val(c, n) * (val(y, n) * val(b, n)),
            1,
            n as int,
        );
    }
    r
}

/// Square of a Gaussian integer `x.0 + x.1 * √-1`.
fn gaussian_sqr(x: (u128, u128), n: u128, inv: u128) -> (r: (u128, u128))
    requires
        ring_ok(n, inv),
        reduced(x, n),
    ensures
        reduced(r, n),
        qval(r, n) == qmul(qval(x, n), qval(x, n), -1, n as int),
{
    (gaussian_sqr_real(x.0, x.1, n, inv), sqr_coef(x.0, x.1, n, inv))
}

/// Product of Gaussian integers.
fn gaussian_prod(x: (u128, u128), a: (u128, u128), n: u128, inv: u128) -> (r: (u128, u128))
    requires
        ring_ok(n, inv),
        reduced(x, n),
        reduced(a, n),
    ensures
        reduced(r, n),
        qval(r, n) == qmul(qval(x, n), qval(a, n), -1, n as int),
{
    (gaussian_prod_real(x.0, x.1, a.0, a.1, n, inv), prod_coef(x.0, x.1, a.0, a.1, n, inv))
}

/// Square in `Z_n[√2]`.
fn two_sqr(x: (u128, u128), n: u128, inv: u128) -> (r: (u128, u128))
    requires
        ring_ok(n, inv),
        reduced(x, n),
    ensures
        reduced(r, n),
        qval(r, n) == qmul(qval(x, n), qval(x, n), 2, n as int),
{
    (two_sqr_real(x.0, x.1, n, inv), sqr_coef(x.0, x.1, n, inv))
}

/// Product in `Z_n[√2]`.
fn two_prod(x: (u128, u128), a: (u128, u128), n: u128, inv: u128) -> (r: (u128, u128))
    requires
        ring_ok(n, inv),
        reduced(x, n),
        reduced(a, n),
    ensures
        reduced(r, n),
        qval(r, n) == qmul(qval(x, n), qval(a, n), 2, n as int),
{
    (two_prod_real(x.0, x.1, a.0, a.1, n, inv), prod_coef(x.0, x.1, a.0, a.1, n, inv))
}

/// Square in `Z_n[√c]`, `c` in Montgomery form.
fn general_sqr(x: (u128, u128), c: u128, n: u128, inv: u128) -> (r: (u128, u128))
    requires
        ring_ok(n, inv),
        reduced(x, n),
        c < n,
    ensures
        reduced(r, n),
        qval(r, n) == qmul(qval(x, n), qval(x, n), val(c, n), n as int),
{
    (general_sqr_real(x.0, x.1, c, n, inv), sqr_coef(x.0, x.1, n, inv))
}

/// Product in `Z_n[√c]`, `c` in Montgomery form.
fn general_prod(x: (u128, u128), a: (u128, u128), c: u128, n: u128, inv: u128) -> (r: (u128, u128))
    requires
        ring_ok(n, inv),
        reduced(x, n),
        reduced(a, n),
        c < n,
    ensures
        reduced(r, n),
        qval(r, n) == qmul(qval(x, n), qval(a, n), val(c, n), n as int),
{
    (general_prod_real(x.0, x.1, a.0, a.1, c, n, inv), prod_coef(x.0, x.1, a.0, a.1, n, inv))
}

/// Power in the Gaussian integers modulo `n` by square-and-multiply:
/// `one * base^pow`.
fn gaussian_pow(base: (u128, u128), one: (u128, u128), pow: u128, n: u128, inv: u128) -> (r: (u128, u128))
    requires
        ring_ok(n, inv),
        reduced(base, n),
        reduced(one, n),
        pow >= 1,
    ensures
        reduced(r, n),
        qval(r, n) == qmul(qval(one, n), qpow(qval(base, n), pow as nat, -1, n as int), -1, n as int),
{
    let ghost nn = n as int;
    let ghost target = qmul(qval(one, n), qpow(qval(base, n), pow as nat, -1, nn), -1, nn);
    let mut b = base;
    let mut acc = one;
    let mut p = pow;
    while p > 1
        invariant
            ring_ok(n, inv),
            nn == n as int,
            reduced(b, n),
            reduced(acc, n),
            1 <= p,
            qmul(qval(acc, n), qpow(qval(b, n), p as nat, -1, nn), -1, nn) == target,
        decreases p,
    {
        proof {
            lemma_qpow_step(qval(acc, n), qval(b, n), p as nat, -1, nn);
        }
        if p % 2 == 0 {
            b = gaussian_sqr(b, n, inv);
        } else {
            acc = gaussian_prod(acc, b, n, inv);
            b = gaussian_sqr(b, n, inv);
        }
        p = p / 2;
    }
    proof {
        lemma_qpow_one(qval(acc, n), qval(b, n), -1, nn);
    }
    gaussian_prod(acc, b, n, inv)
}

/// Power in `Z_n[√2]` by square-and-multiply:
/// `one * base^pow`.
fn two_pow(base: (u128, u128), one: (u128, u128), pow: u128, n: u128, inv: u128) -> (r: (u128, u128))
    requires
        ring_ok(n, inv),
        reduced(base, n),
        reduced(one, n),
        pow >= 1,
    ensures
        reduced(r, n),
        qval(r, n) == qmul(qval(one, n), qpow(qval(base, n), pow as nat, 2, n as int), 2, n as int),
{
    let ghost nn = n as int;
    let ghost target = qmul(qval(one, n), qpow(qval(base, n), pow as nat, 2, nn), 2, nn);
    let mut b = base;
    let mut acc = one;
    let mut p = pow;
    while p > 1
        invariant
            ring_ok(n, inv),
            nn == n as int,
            reduced(b, n),
            reduced(acc, n),
            1 <= p,
            qmul(qval(acc, n), qpow(qval(b, n), p as nat, 2, nn), 2, nn) == target,
        decreases p,
    {
        proof {
            lemma_qpow_step(qval(acc, n), qval(b, n), p as nat, 2, nn);
        }
        if p % 2 == 0 {
            b = two_sqr(b, n, inv);
        } else {
            acc = two_prod(acc, b, n, inv);
            b = two_sqr(b, n, inv);
        }
        p = p / 2;
    }
    proof {
        lemma_qpow_one(qval(acc, n), qval(b, n), 2, nn);
    }
    two_prod(acc, b, n, inv)
}

/// Power in `Z_n[√c]`, `c` in Montgomery form, by square-and-multiply:
/// `one * base^pow`.
fn general_pow(base: (u128, u128), one: (u128, u128), c: u128, pow: u128, n: u128, inv: u128) -> (r: (u128, u128))
    requires
        ring_ok(n, inv),
        reduced(base, n),
        reduced(one, n),
        pow >= 1,
        c < n,
    ensures
        reduced(r, n),
        qval(r, n) == qmul(qval(one, n), qpow(qval(base, n), pow as nat, val(c, n), n as int), val(c, n), n as int),
{
    let ghost nn = n as int;
    let ghost target = qmul(qval(one, n), qpow(qval(base, n), pow as nat, val(c, n), nn), val(c, n), nn);
    let mut b = base;
    let mut acc = one;
    let mut p = pow;
    while p > 1
        invariant
            ring_ok(n, inv),
            nn == n as int,
            reduced(b, n),
            reduced(acc, n),
            1 <= p,
            c < n,
            qmul(qval(acc, n), qpow(qval(b, n), p as nat, val(c, n), nn), val(c, n), nn) == target,
        decreases p,
    {
        proof {
            lemma_qpow_step(qval(acc, n), qval(b, n), p as nat, val(c, n), nn);
        }
        if p % 2 == 0 {
            b = general_sqr(b, c, n, inv);
        } else {
            acc = general_prod(acc, b, c, n, inv);
            b = general_sqr(b, c, n, inv);
        }
        p = p / 2;
    }
    proof {
        lemma_qpow_one(qval(acc, n), qval(b, n), val(c, n), nn);
    }
    general_prod(acc, b, c, n, inv)
}

/// The bound below which odd Frobenius parameters are searched.
pub open spec fn frob_limit() -> int {
    0x7fff_ffff
}

/// The first odd `c >= start` below `frob_limit()` with Jacobi `(c / n) = -1`,
/// or 0 when there is none.
pub open spec fn frob_search(n: int, start: int) -> int
    decreases frob_limit() + 2 - start,
{
    if start >= frob_limit() {
        0
    } else if jacobi(start, n) == -1 {
        start
    } else {
        frob_search(n, start + 2)
    }
}

/// The Frobenius parameter of an odd `n`: `-1` when `n ≡ 3 (mod 4)`, 2 when
/// `n ≡ 5 (mod 8)`, 3 when `n ≡ 5, 7 (mod 12)`, 5 when `n ≡ 2, 3 (mod 5)`,
/// and otherwise the first odd non-residue from 7 on (0 when none lies
/// below `frob_limit()`).
pub open spec fn frobenius_index(n: int) -> int {
    if n % 4 == 3 {
        -1
    } else if n % 8 == 5 {
        2
    } else if n % 12 == 5 || n % 12 == 7 {
        3
    } else if n % 5 == 2 || n % 5 == 3 {
        5
    } else {
        frob_search(n, 7)
    }
}

/// `(1 / m) = 1`.
proof fn lemma_jacobi_one(m: int)
    requires
        m >= 1,
    ensures
        jacobi(1, m) == 1,
{
    assert(jacobi(1, m) == crate::math::sign(false) * jacobi(m % 1, 1));
    assert(jacobi(0, 1) == 1);
}

/// `(2 / n) = -1` for `n ≡ 5 (mod 8)`.
proof fn lemma_jacobi_two(n: int)
    requires
        n > 1,
        n % 8 == 5,
    ensures
        jacobi(2, n) == -1,
{
    lemma_jacobi_one(n);
    assert(jacobi(2, n) == crate::math::sign(true) * jacobi(1, n));
}

/// `(2 / 3) = (2 / 5) = -1` and `(3 / 5) = -1`.
proof fn lemma_jacobi_small()
    ensures
        jacobi(2, 3) == -1,
        jacobi(2, 5) == -1,
        jacobi(3, 5) == -1,
{
    lemma_jacobi_two(5);
    lemma_jacobi_one(3);
    assert(jacobi(2, 3) == crate::math::sign(true) * jacobi(1, 3));
    assert(jacobi(3, 5) == crate::math::sign(false) * jacobi(2, 3));
}

/// `(3 / n) = -1` for `n ≡ 5 (mod 12)`.
proof fn lemma_jacobi_three(n: int)
    requires
        n > 1,
        n % 12 == 5,
    ensures
        jacobi(3, n) == -1,
{
    lemma_jacobi_small();
    assert(jacobi(3, n) == crate::math::sign(false) * jacobi(n % 3, 3));
}

/// `(5 / n) = -1` for `n ≡ 2, 3 (mod 5)`.
proof fn lemma_jacobi_five(n: int)
    requires
        n > 1,
        n % 5 == 2 || n % 5 == 3,
    ensures
        jacobi(5, n) == -1,
{
    lemma_jacobi_small();
    assert(jacobi(5, n) == crate::math::sign(false) * jacobi(n % 5, 5));
}

/// `(-1 / n) = (n - 1 / n) = -1` for `n ≡ 3 (mod 4)`.
proof fn lemma_jacobi_minus_one(n: int)
    requires
        n > 1,
        n % 4 == 3,
    ensures
        jacobi(n - 1, n) == -1,
{
    let m = (n - 1) / 2;
    assert(jacobi(n - 1, n) == crate::math::sign(n % 8 == 3 || n % 8 == 5) * jacobi(m, n));
    if m == 1 {
        assert(jacobi(m, n) == crate::math::sign(false) * jacobi(n % 1, 1));
    } else {
        assert(n % m == 1) by {
            lemma_fundamental_div_mod_converse_mod(n, m, 2, 1);
        }
        lemma_jacobi_one(m);
        assert(jacobi(m, n) == crate::math::sign(m % 4 == 3 && n % 4 == 3) * jacobi(n % m, m));
    }
}

/// The residue shortcuts of the Frobenius parameter give non-residues.
proof fn lemma_frobenius_shortcuts(n: int)
    requires
        n > 1,
        n % 2 == 1,
    ensures
        n % 4 == 3 ==> jacobi(n - 1, n) == -1,
        n % 8 == 5 ==> jacobi(2, n) == -1,
        n % 12 == 5 ==> jacobi(3, n) == -1,
        n % 5 == 2 || n % 5 == 3 ==> jacobi(5, n) == -1,
{
    if n % 4 == 3 {
        lemma_jacobi_minus_one(n);
    }
    if n % 8 == 5 {
        lemma_jacobi_two(n);
    }
    if n % 12 == 5 {
        lemma_jacobi_three(n);
    }
    if n % 5 == 2 || n % 5 == 3 {
        lemma_jacobi_five(n);
    }
}

/// The Frobenius parameter of an odd `n`, as the `frobenius_index`
/// shortcuts and search give it; whatever is returned other than 0 is a
/// non-residue (`-1` standing for `n - 1`).
fn frobenius_idx(n: u128) -> (r: i32)
    requires
        n % 2 == 1,
        n > 1,
    ensures
        r as int == frobenius_index(n as int),
        r != 0 ==> jacobi(if r == -1 { n - 1 } else { r as int }, n as int) == -1,
{
    proof {
        lemma_frobenius_shortcuts(n as int);
    }
    if n % 4 == 3 {
        return -1;
    }
    if n % 8 == 5 {
        return 2;
    }
    if n % 12 == 5 || n % 12 == 7 {
        return 3;
    }
    if n % 5 == 2 || n % 5 == 3 {
        return 5;
    }
    let mut idx: u128 = 7;
    while idx < 0x7fff_ffff
        invariant
            n % 2 == 1,
            n > 1,
            7 <= idx <= 0x7fff_ffff + 1,
            frob_search(n as int, idx as int) == frob_search(n as int, 7),
            frobenius_index(n as int) == frob_search(n as int, 7),
        decreases 0x7fff_ffff + 2 - idx,
    {
        if nqr_128(idx, n) {
            return idx as i32;
        }
        idx = idx + 2;
    }
    0
}

/// What the quadratic Frobenius test decides for an odd `n > 2` with
/// Frobenius parameter `c`: `(2 + √-1)^n = 2 - √-1` for `c = -1`,
/// `(2 + √2)^n = 2 - √2` for `c = 2`, `(1 + √c)^n = 1 - √c` otherwise, all
/// in `Z_n[√c]`; rejected when no parameter was found.
pub open spec fn qft_accepts(n: int) -> bool {
    let c = frobenius_index(n);
    if c == 0 {
        false
    } else if c == -1 {
        qpow((2, 1), n as nat, -1, n) == (2int, n - 1)
    } else if c == 2 {
        qpow((2, 1), n as nat, 2, n) == (2int, n - 1)
    } else {
        qpow((1, 1), n as nat, c % n, n) == (1int, n - 1)
    }
}

/// Khashin's quadratic Frobenius test: `one`, `two` and `oneinv` are the
/// Montgomery forms of 1, 2 and `n - 1`.
pub fn qft(n: u128, one: u128, two: u128, oneinv: u128, inv: u128) -> (r: bool)
    requires
        ring_ok(n, inv),
        n > 2,
        one == mont_of(1, radix128(), n as int),
        two == mont_of(2, radix128(), n as int),
        oneinv == mont_of(n - 1, radix128(), n as int),
    ensures
        r == qft_accepts(n as int),
{
    let ghost nn = n as int;
    let ghost rr = radix128();
    let idx = frobenius_idx(n);
    proof {
        lemma_mod_bound(1 * rr, nn);
        lemma_mod_bound(2 * rr, nn);
        lemma_mod_bound((nn - 1) * rr, nn);
        lemma_unmont(0, 1, rr, nn);
        lemma_unmont(0, 2, rr, nn);
        lemma_unmont(0, 0, rr, nn);
        lemma_small_mod(1, n as nat);
        lemma_small_mod(2, n as nat);
        lemma_small_mod(0, n as nat);
        assert(0 * rr == 0);
        assert(mont_of(0, rr, nn) == 0);
        assert(val(0, n) == 0);
        assert(val(one, n) == 1);
        assert(val(two, n) == 2);
    }
    if idx == 0 {
        return false;
    }
    let mul_ident = (one, 0u128);
    if idx == -1 {
        let base = (two, one);
        let residue = gaussian_pow(base, mul_ident, n, n, inv);
        proof {
            lemma_qunit(qval(base, n), n as nat, -1, nn);
            lemma_qunit(qpow(qval(base, n), n as nat, -1, nn), 1, -1, nn);
            lemma_residue_is(residue.0 as int, 2, rr, nn);
            lemma_residue_is(residue.1 as int, nn - 1, rr, nn);
        }
        residue.0 == two && residue.1 == oneinv
    } else if idx == 2 {
        let base = (two, one);
        let residue = two_pow(base, mul_ident, n, n, inv);
        proof {
            lemma_qunit(qval(base, n), n as nat, 2, nn);
            lemma_qunit(qpow(qval(base, n), n as nat, 2, nn), 1, 2, nn);
            lemma_residue_is(residue.0 as int, 2, rr, nn);
            lemma_residue_is(residue.1 as int, nn - 1, rr, nn);
        }
        residue.0 == two && residue.1 == oneinv
    } else {
        let base = (one, one);
        let c = to_mont_128(idx as u128, n);
        proof {
            lemma_mod_bound(idx * rr, nn);
            lemma_unmont(0, idx as int, rr, nn);
        }
        let residue = general_pow(base, mul_ident, c, n, n, inv);
        proof {
            lemma_qunit(qval(base, n), n as nat, val(c, n), nn);
            lemma_qunit(qpow(qval(base, n), n as nat, val(c, n), nn), 1, val(c, n), nn);
            lemma_residue_is(residue.0 as int, 1, rr, nn);
            lemma_residue_is(residue.1 as int, nn - 1, rr, nn);
        }
        residue.0 == one && residue.1 == oneinv
    }
}

} // verus!
