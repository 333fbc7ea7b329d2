//! Mathematical model shared by the 64-bit and 128-bit kernels: Montgomery
//! representation, modular powers, the Jacobi symbol and Lucas sequences.

use vstd::prelude::*;
use vstd::arithmetic::div_mod::*;
use vstd::arithmetic::mul::*;
use vstd::arithmetic::power::*;
use vstd::arithmetic::power2::*;

verus! {

/// The Montgomery radix for 64-bit words, 2^64.
pub open spec fn radix64() -> int {
    0x1_0000_0000_0000_0000
}

/// The Montgomery radix for 128-bit words, 2^128.
pub open spec fn radix128() -> int {
    radix64() * radix64()
}

/// The Montgomery form of `v` modulo `n` for radix `r`: `v * r mod n`.
pub open spec fn mont_of(v: int, r: int, n: int) -> int {
    (v * r) % n
}

/// Multiplying by two can be undone modulo an odd number.
pub proof fn lemma_cancel_two(a: int, b: int, n: int)
    requires
        n > 0,
        n % 2 == 1,
        (a * 2) % n == (b * 2) % n,
    ensures
        a % n == b % n,
{
    let h = (n + 1) / 2;
    assert(h * 2 == n + 1);
    lemma_mul_mod_noop_left(a * 2, h, n);
    lemma_mul_mod_noop_left(b * 2, h, n);
    assert(a * 2 * h == a * n + a) by (nonlinear_arith)
        requires
            h * 2 == n + 1,
    ;
    assert(b * 2 * h == b * n + b) by (nonlinear_arith)
        requires
            h * 2 == n + 1,
    ;
    lemma_mod_multiples_vanish(a, a, n);
    lemma_mod_multiples_vanish(b, b, n);
    lemma_mul_is_commutative(a, n);
    lemma_mul_is_commutative(b, n);
}

/// Multiplying by a power of two can be undone modulo an odd number.
pub proof fn lemma_cancel_pow2(a: int, b: int, k: nat, n: int)
    requires
        n > 0,
        n % 2 == 1,
        (a * pow2(k)) % n == (b * pow2(k)) % n,
    ensures
        a % n == b % n,
    decreases k,
{
    if k == 0 {
        lemma2_to64();
    } else {
        lemma_pow2_unfold(k);
        let p = pow2((k - 1) as nat) as int;
        assert(a * pow2(k) == (a * p) * 2) by (nonlinear_arith)
            requires
                pow2(k) == 2 * p,
        ;
        assert(b * pow2(k) == (b * p) * 2) by (nonlinear_arith)
            requires
                pow2(k) == 2 * p,
        ;
        lemma_cancel_two(a * p, b * p, n);
        lemma_cancel_pow2(a, b, (k - 1) as nat, n);
    }
}

/// The radix 2^64 as a power of two.
pub proof fn lemma_radix64()
    ensures
        pow2(64) == radix64(),
{
    lemma2_to64();
}

/// The radix 2^128 as a power of two.
pub proof fn lemma_radix128()
    ensures
        pow2(128) == radix128(),
{
    lemma2_to64();
    lemma_pow2_adds(64, 64);
}

/// Multiplying by the 64-bit or the 128-bit radix can be undone modulo an odd number.
pub proof fn lemma_cancel_radix(a: int, b: int, r: int, n: int)
    requires
        n > 0,
        n % 2 == 1,
        r == radix64() || r == radix128(),
        (a * r) % n == (b * r) % n,
    ensures
        a % n == b % n,
{
    if r == radix64() {
        lemma_radix64();
        lemma_cancel_pow2(a, b, 64, n);
    } else {
        lemma_radix128();
        lemma_cancel_pow2(a, b, 128, n);
    }
}

/// A value below `n` whose product with the radix is congruent to `x * y`
/// is the Montgomery product of `x` and `y`: for Montgomery forms of `a` and
/// `b` it is the Montgomery form of `a * b`.
pub proof fn lemma_mont_mul(x: int, y: int, a: int, b: int, res: int, r: int, n: int)
    requires
        n > 0,
        n % 2 == 1,
        r == radix64() || r == radix128(),
        0 <= res < n,
        (res * r) % n == (x * y) % n,
        x == mont_of(a, r, n),
        y == mont_of(b, r, n),
    ensures
        res == mont_of(a * b, r, n),
{
    lemma_mul_mod_noop_general(a * r, b * r, n);
    assert((a * r) * (b * r) == (a * b * r) * r) by (nonlinear_arith);
    lemma_cancel_radix(res, a * b * r, r, n);
    lemma_small_mod(res as nat, n as nat);
}

/// The reduction step of Montgomery multiplication (REDC) with the negated
/// inverse `inv` of `n` modulo the radix `r`: for `t = (p mod r) * inv mod r`
/// the sum `p + t * n` is a multiple of `r`, and its quotient `s` is below
/// `2 * n` and congruent to `p / r` modulo `n`.
pub proof fn lemma_redc(p: int, n: int, inv: int, r: int, t: int)
    requires
        r > 0,
        0 < n < r,
        0 <= p < n * r,
        (n * inv) % r == r - 1,
        t == ((p % r) * inv) % r,
    ensures
        p / r < n,
        (t * n) / r < n,
        p + t * n == (p / r + (t * n) / r + (if p % r != 0 { 1int } else { 0int })) * r,
        (p / r + (t * n) / r + (if p % r != 0 { 1int } else { 0int })) < 2 * n,
        ((p / r + (t * n) / r + (if p % r != 0 { 1int } else { 0int })) * r) % n == p % n,
{
    let lo = p % r;
    let hi = p / r;
    let tn = t * n;
    let c = tn / r;
    let tlo = tn % r;
    lemma_fundamental_div_mod(p, r);
    lemma_fundamental_div_mod(tn, r);
    lemma_mod_bound(p, r);
    lemma_mod_bound(tn, r);
    lemma_mod_bound(lo * inv, r);
    assert(0 <= t < r);
    // the low words cancel
    lemma_mul_mod_noop_left(lo * inv, n, r);
    assert(lo * inv * n == lo * (n * inv)) by (nonlinear_arith);
    lemma_mul_mod_noop_right(lo, n * inv, r);
    assert(lo * (r - 1) == lo * r + (-lo)) by (nonlinear_arith);
    lemma_mod_multiples_vanish(lo, -lo, r);
    assert(tlo == (-lo) % r);
    lemma_add_mod_noop(lo, tn, r);
    lemma_add_mod_noop(lo, -lo, r);
    assert((lo + tlo) % r == 0) by {
        lemma_mod_twice(tn, r);
        lemma_add_mod_noop(lo, tlo, r);
        assert((lo + tlo) % r == (lo % r + tlo % r) % r);
        lemma_small_mod(lo as nat, r as nat);
        lemma_mod_twice(-lo, r);
        assert(lo + (-lo) == 0);
        lemma_small_mod(0, r as nat);
    }
    assert(lo + tlo == (if lo != 0 { r } else { 0 })) by {
        if lo == 0 {
            lemma_small_mod(tlo as nat, r as nat);
        } else {
            assert(0 < lo + tlo < 2 * r);
            if lo + tlo < r {
                lemma_small_mod((lo + tlo) as nat, r as nat);
            } else {
                lemma_mod_self_0(r);
                lemma_mod_sub_multiples_vanish(lo + tlo, r);
                lemma_small_mod((lo + tlo - r) as nat, r as nat);
            }
        }
    }
    // bounds
    assert(hi < n) by {
        lemma_div_is_ordered(p, n * r - 1, r);
        lemma_mul_is_commutative(n, r);
        lemma_div_multiples_vanish_fancy(n - 1, r - 1, r);
        assert(n * r - 1 == (n - 1) * r + (r - 1)) by (nonlinear_arith);
    }
    assert(tn < r * n) by (nonlinear_arith)
        requires
            tn == t * n,
            t < r,
            n > 0,
    ;
    assert(0 <= tn) by (nonlinear_arith)
        requires
            tn == t * n,
            t >= 0,
            n > 0,
    ;
    assert(c < n) by {
        lemma_div_is_ordered(tn, r * n - 1, r);
        lemma_div_multiples_vanish_fancy(n - 1, r - 1, r);
        assert(r * n - 1 == (n - 1) * r + (r - 1)) by (nonlinear_arith);
    }
    let s = hi + c + (if lo != 0 { 1int } else { 0int });
    assert(p + tn == s * r) by (nonlinear_arith)
        requires
            p == r * hi + lo,
            tn == r * c + tlo,
            lo + tlo == (if lo != 0 { r } else { 0 }),
            s == hi + c + (if lo != 0 { 1int } else { 0int }),
    ;
    assert(s < 2 * n) by (nonlinear_arith)
        requires
            p + tn == s * r,
            p < n * r,
            tn < r * n,
            r > 0,
    {
        assert(s * r < 2 * n * r);
    }
    lemma_mod_multiples_vanish(t, p, n);
    lemma_mul_is_commutative(t, n);
}

/// Subtracting `n` once from a value below `2 * n` keeps its Montgomery
/// class and brings it below `n`.
pub proof fn lemma_reduce_once(s: int, r: int, n: int)
    requires
        0 < n,
        0 <= s < 2 * n,
    ensures
        0 <= (if s >= n { s - n } else { s }) < n,
        ((if s >= n { s - n } else { s }) * r) % n == (s * r) % n,
{
    if s >= n {
        assert((s - n) * r == n * (-r) + s * r) by (nonlinear_arith);
        lemma_mod_multiples_vanish(-r, s * r, n);
    }
}

/// The number of bits of the radix `r`.
pub open spec fn radix_bits(r: int) -> nat {
    if r == radix64() {
        64
    } else {
        128
    }
}

/// The inverse of the radix `r` modulo an odd `n`, written out as
/// `((n + 1) / 2)^k` for `r = 2^k`.
pub open spec fn radix_inv(r: int, n: int) -> int {
    pow((n + 1) / 2, radix_bits(r))
}

/// The value that a Montgomery residue `x` stands for modulo `n`: the
/// unique `v < n` with `v * r ≡ x (mod n)`.
pub open spec fn unmont(x: int, r: int, n: int) -> int {
    (x * radix_inv(r, n)) % n
}

/// The radix and its inverse multiply to one modulo an odd `n > 1`.
pub proof fn lemma_radix_inv(r: int, n: int)
    requires
        n > 1,
        n % 2 == 1,
        r == radix64() || r == radix128(),
    ensures
        (r * radix_inv(r, n)) % n == 1,
{
    let k = radix_bits(r);
    let h = (n + 1) / 2;
    if r == radix64() {
        lemma_radix64();
    } else {
        lemma_radix128();
    }
    assert(pow2(k) == r);
    lemma_pow2(k);
    lemma_pow_distributes(2, h, k);
    assert(2 * h == n + 1);
    lemma_pow_mod_noop(2 * h, k, n);
    lemma_mod_add_multiples_vanish(1, n);
    lemma_small_mod(1, n as nat);
    lemma1_pow(k);
}

/// Montgomery form and `unmont` undo each other.
pub proof fn lemma_unmont(x: int, v: int, r: int, n: int)
    requires
        n > 1,
        n % 2 == 1,
        r == radix64() || r == radix128(),
    ensures
        0 <= x < n ==> mont_of(unmont(x, r, n), r, n) == x,
        unmont(mont_of(v, r, n), r, n) == v % n,
        0 <= unmont(x, r, n) < n,
{
    let ri = radix_inv(r, n);
    lemma_radix_inv(r, n);
    lemma_mod_bound(x * ri, n);
    // mont_of(unmont(x)) == x
    lemma_mul_mod_noop_left(x * ri, r, n);
    assert(x * ri * r == x * (r * ri)) by (nonlinear_arith);
    lemma_mul_mod_noop_right(x, r * ri, n);
    if 0 <= x < n {
        lemma_small_mod(x as nat, n as nat);
    }
    // unmont(mont_of(v)) == v % n
    lemma_mul_mod_noop_left(v * r, ri, n);
    assert(v * r * ri == v * (r * ri)) by (nonlinear_arith);
    lemma_mul_mod_noop_right(v, r * ri, n);
}

/// The Montgomery product of two residues, read as values.
pub proof fn lemma_mont_mul_values(x: int, y: int, res: int, r: int, n: int)
    requires
        n > 1,
        n % 2 == 1,
        r == radix64() || r == radix128(),
        0 <= x < n,
        0 <= y < n,
        0 <= res < n,
        (res * r) % n == (x * y) % n,
    ensures
        res == mont_of(unmont(x, r, n) * unmont(y, r, n), r, n),
{
    lemma_unmont(x, 0, r, n);
    lemma_unmont(y, 0, r, n);
    lemma_mont_mul(x, y, unmont(x, r, n), unmont(y, r, n), res, r, n);
}

/// One step of Newton's iteration for the inverse modulo a power of two
/// doubles the number of correct low bits, up to the word size `k`.
pub proof fn lemma_newton_step(n: int, e: int, w: int, j: nat, k: nat)
    requires
        1 <= j <= k,
        (n * e) % (pow2(j) as int) == 1,
        w % (pow2(k) as int) == ((2 - n * e) * e) % (pow2(k) as int),
    ensures
        (n * w) % (pow2(if 2 * j < k { 2 * j } else { k }) as int) == 1,
{
    let q = pow2(j) as int;
    let jj: nat = if 2 * j < k { 2 * j } else { k };
    lemma_pow2_pos(j);
    lemma_pow2_pos(jj);
    lemma_pow2_pos(k);
    let m = (n * e) / q;
    lemma_fundamental_div_mod(n * e, q);
    assert(n * e == 1 + q * m);
    lemma_pow2_adds(j, j);
    assert(n * ((2 - n * e) * e) == 1 - m * m * pow2(2 * j)) by (nonlinear_arith)
        requires
            n * e == 1 + q * m,
            pow2(2 * j) == q * q,
    ;
    // reduce modulo 2^jj, which divides both 2^k and 2^(2j)
    lemma_pow2_adds(jj, (k - jj) as nat);
    lemma_pow2_pos((k - jj) as nat);
    lemma_mod_mod(w, pow2(jj) as int, pow2((k - jj) as nat) as int);
    lemma_mod_mod((2 - n * e) * e, pow2(jj) as int, pow2((k - jj) as nat) as int);
    assert(w % (pow2(jj) as int) == ((2 - n * e) * e) % (pow2(jj) as int));
    lemma_mul_mod_noop_right(n, w, pow2(jj) as int);
    lemma_mul_mod_noop_right(n, (2 - n * e) * e, pow2(jj) as int);
    lemma_pow2_adds(jj, (2 * j - jj) as nat);
    lemma_pow2_pos((2 * j - jj) as nat);
    let f = pow2((2 * j - jj) as nat) as int;
    assert(1 - m * m * pow2(2 * j) == 1 + pow2(jj) * (-(m * m * f))) by (nonlinear_arith)
        requires
            pow2(2 * j) == pow2(jj) * f,
    ;
    lemma_mod_multiples_vanish(-(m * m * f), 1, pow2(jj) as int);
    lemma2_to64();
    lemma_pow2_strictly_increases(0, jj);
    lemma_small_mod(1, pow2(jj));
}

/// What one wrapped Newton step `(2 - e * n) * e` computes, modulo the word.
pub proof fn lemma_wrapped_newton(n: int, e: int, a: int, w: int, m: int)
    requires
        m > 0,
        a % m == (2 - (e * n) % m) % m,
        w == (a * e) % m,
    ensures
        w % m == ((2 - n * e) * e) % m,
{
    lemma_mod_twice(a * e, m);
    lemma_mul_mod_noop_left(a, e, m);
    lemma_sub_mod_noop_right(2, e * n, m);
    lemma_mul_mod_noop_left(2 - e * n, e, m);
    lemma_mul_is_commutative(e, n);
}

/// Negating a positive inverse modulo `m` gives the negated inverse.
pub proof fn lemma_negate_inverse(n: int, e: int, m: int)
    requires
        m > 1,
        (n * e) % m == 1,
    ensures
        (n * (m - e)) % m == m - 1,
{
    assert(n * (m - e) == n * m - n * e) by (nonlinear_arith);
    lemma_mod_multiples_vanish(n, -(n * e), m);
    assert(n * m + (-(n * e)) == m * n - n * e) by (nonlinear_arith);
    lemma_sub_mod_noop_right(0, n * e, m);
    lemma_small_mod(0, m as nat);
    lemma_mod_add_multiples_vanish(-1, m);
    lemma_mod_multiples_vanish(1, -1, m);
    lemma_small_mod((m - 1) as nat, m as nat);
}

/// Negating a negated inverse modulo `m` gives the inverse.
pub proof fn lemma_negate_neg_inverse(n: int, v: int, m: int)
    requires
        m > 1,
        (n * v) % m == m - 1,
    ensures
        (n * (m - v)) % m == 1,
{
    assert(n * (m - v) == m * n + (-(n * v))) by (nonlinear_arith);
    lemma_mod_multiples_vanish(n, -(n * v), m);
    lemma_sub_mod_noop_right(0, n * v, m);
    lemma_small_mod(0, m as nat);
    lemma_mod_add_multiples_vanish(-(m - 1), m);
    lemma_small_mod(1, m as nat);
}

/// The square of an odd number is one modulo eight.
pub proof fn lemma_odd_square(n: int)
    requires
        n % 2 == 1,
    ensures
        (n * n) % (pow2(3) as int) == 1,
{
    lemma2_to64();
    lemma_mul_mod_noop_general(n, n, 8);
    let a = n % 8;
    assert(a == 1 || a == 3 || a == 5 || a == 7);
    assert((a * a) % 8 == 1);
}

/// Values that agree modulo `n` have the same Montgomery form.
pub proof fn lemma_mont_of_congruent(a: int, b: int, r: int, n: int)
    requires
        n > 0,
        a % n == b % n,
    ensures
        mont_of(a, r, n) == mont_of(b, r, n),
{
    lemma_mul_mod_noop_left(a, r, n);
    lemma_mul_mod_noop_left(b, r, n);
}

/// A residue below `n` is the Montgomery form of `w < n` exactly when it
/// stands for `w`.
pub proof fn lemma_residue_is(x: int, w: int, r: int, n: int)
    requires
        n > 1,
        n % 2 == 1,
        r == radix64() || r == radix128(),
        0 <= x < n,
        0 <= w < n,
    ensures
        (x == mont_of(w, r, n)) == (unmont(x, r, n) == w),
{
    lemma_unmont(x, w, r, n);
    lemma_small_mod(w as nat, n as nat);
}

/// One halving step of square-and-multiply exponentiation keeps the product
/// `a * b^p` modulo `n`.
pub proof fn lemma_square_and_multiply(a: int, b: int, p: nat, n: int)
    requires
        n > 0,
        p >= 2,
    ensures
        p % 2 == 0 ==> (a * pow((b * b) % n, p / 2)) % n == (a * pow(b, p)) % n,
        p % 2 == 1 ==> (((a * b) % n) * pow((b * b) % n, p / 2)) % n == (a * pow(b, p)) % n,
{
    let q = p / 2;
    lemma_pow_mod_noop(b * b, q, n);
    lemma_square_is_pow2(b);
    lemma_pow_multiplies(b, 2, q);
    lemma_mul_mod_noop_right(a, pow((b * b) % n, q), n);
    lemma_mul_mod_noop_right(a, pow(b * b, q), n);
    if p % 2 == 0 {
        assert(2 * q == p);
    } else {
        assert(2 * q + 1 == p);
        lemma_pow_adds(b, 1, 2 * q);
        lemma_pow1(b);
        lemma_mul_mod_noop_left(a * b, pow((b * b) % n, q), n);
        lemma_mul_mod_noop_right(a * b, pow((b * b) % n, q), n);
        lemma_mul_mod_noop_right(a * b, pow(b * b, q), n);
        assert(a * b * pow(b, 2 * q) == a * (b * pow(b, 2 * q))) by (nonlinear_arith);
    }
}

/// Whether one of the first `k` values of `x, x^2, x^4, ...` modulo `n`
/// is `n - 1`.
pub open spec fn reaches_minus_one(x: int, k: nat, n: int) -> bool
    decreases k,
{
    if k == 0 {
        false
    } else {
        x == n - 1 || reaches_minus_one((x * x) % n, (k - 1) as nat, n)
    }
}

/// `n` is a strong probable prime to base `b` for the split
/// `n - 1 = d * 2^s + (n - 1) mod 2^s`: with `x = b^d mod n`, either
/// `x == 1` or one of `x, x^2, ..., x^(2^(s-1))` is `-1` modulo `n`.
pub open spec fn strong_probable_prime(n: int, s: nat, b: int) -> bool {
    let x = pow(b, ((n - 1) / (pow2(s) as int)) as nat) % n;
    x == 1 || reaches_minus_one(x, s, n)
}

/// The Jacobi symbol `(a / n)` for `a >= 0` and odd `n > 0`, by its
/// reduction rules: `(0 / n)` is 1 for `n == 1` and 0 otherwise; a factor
/// two contributes `-1` when `n ≡ 3, 5 (mod 8)`; for odd `a`, reciprocity
/// gives `(a / n) = ±(n mod a / a)` with `-1` when `a ≡ n ≡ 3 (mod 4)`.
pub open spec fn jacobi(a: int, n: int) -> int
    decreases a,
{
    if a <= 0 {
        if n == 1 {
            1
        } else {
            0
        }
    } else if a % 2 == 0 {
        sign(n % 8 == 3 || n % 8 == 5) * jacobi(a / 2, n)
    } else {
        sign(a % 4 == 3 && n % 4 == 3) * jacobi(n % a, a)
    }
}

/// The sign `-1` or `1` that a flag stands for.
pub open spec fn sign(negative: bool) -> int {
    if negative {
        -1
    } else {
        1
    }
}

/// Signs compose as flags do.
pub proof fn lemma_sign_mul(t: bool, f: bool, x: int)
    ensures
        sign(t) * (sign(f) * x) == sign(t != f) * x,
{
    if t {
        if f {
            assert(-1 * (-1 * x) == x);
        } else {
            assert(-1 * (1 * x) == -1 * x);
        }
    } else {
        assert(1 * (sign(f) * x) == sign(f) * x);
    }
}

/// The Lucas sequence `V_k(p, 1)`: `V_0 = 2`, `V_1 = p`,
/// `V_k = p * V_(k-1) - V_(k-2)`.
pub open spec fn lucas_v(p: int, k: nat) -> int
    decreases k,
{
    if k == 0 {
        2
    } else if k == 1 {
        p
    } else {
        p * lucas_v(p, (k - 1) as nat) - lucas_v(p, (k - 2) as nat)
    }
}

/// `V_(a+b) + V_(a-b) = V_a * V_b` for `a >= b`.
pub proof fn lemma_lucas_add(p: int, a: nat, b: nat)
    requires
        b <= a,
    ensures
        lucas_v(p, a + b) + lucas_v(p, (a - b) as nat) == lucas_v(p, a) * lucas_v(p, b),
    decreases b,
{
    if b == 0 {
        assert(lucas_v(p, 0) == 2);
        assert(lucas_v(p, a) * 2 == lucas_v(p, a) + lucas_v(p, a));
    } else if b == 1 {
        assert(lucas_v(p, 1) == p);
        assert(lucas_v(p, a + 1) == p * lucas_v(p, a) - lucas_v(p, (a - 1) as nat));
        lemma_mul_is_commutative(p, lucas_v(p, a));
    } else {
        lemma_lucas_add(p, a, (b - 1) as nat);
        lemma_lucas_add(p, a, (b - 2) as nat);
        let va = lucas_v(p, a);
        let vb1 = lucas_v(p, (b - 1) as nat);
        let vb2 = lucas_v(p, (b - 2) as nat);
        assert(lucas_v(p, a + b) == p * lucas_v(p, (a + b - 1) as nat) - lucas_v(p, (a + b - 2) as nat));
        assert(lucas_v(p, (a - b + 2) as nat) == p * lucas_v(p, (a - b + 1) as nat) - lucas_v(p, (a - b) as nat));
        assert(lucas_v(p, b) == p * vb1 - vb2);
        assert(p * (va * vb1) - va * vb2 == va * (p * vb1 - vb2)) by (nonlinear_arith);
        assert(p * lucas_v(p, (a + b - 1) as nat) + p * lucas_v(p, (a - b + 1) as nat)
            == p * (lucas_v(p, (a + b - 1) as nat) + lucas_v(p, (a - b + 1) as nat))) by (nonlinear_arith);
    }
}

/// The doubling rules of the Lucas ladder:
/// `V_2k = V_k^2 - 2` and `V_(2k+1) = V_k * V_(k+1) - p`.
pub proof fn lemma_lucas_double(p: int, k: nat)
    ensures
        lucas_v(p, 2 * k) == lucas_v(p, k) * lucas_v(p, k) - 2,
        lucas_v(p, 2 * k + 1) == lucas_v(p, k) * lucas_v(p, k + 1) - p,
{
    lemma_lucas_add(p, k, k);
    lemma_lucas_add(p, k + 1, k);
    assert((k + 1 + k) as nat == 2 * k + 1);
    lemma_mul_is_commutative(lucas_v(p, k), lucas_v(p, k + 1));
}

/// The number of times two divides `m > 0`.
pub open spec fn two_adic(m: int) -> nat
    decreases m,
{
    if m > 0 && m % 2 == 0 {
        1 + two_adic(m / 2)
    } else {
        0
    }
}

/// `m > 0` with all factors two removed.
pub open spec fn odd_part(m: int) -> int {
    m / (pow2(two_adic(m)) as int)
}

/// The squaring phase of the strong Lucas test: within `k` steps of
/// `v -> v^2 - 2 (mod n)`, the value 0 turns up before the value 2.
pub open spec fn lucas_chain(v: int, k: nat, n: int) -> bool
    decreases k,
{
    if k == 0 {
        false
    } else if v == 0 {
        true
    } else {
        let w = (v * v - 2) % n;
        w != 2 && lucas_chain(w, (k - 1) as nat, n)
    }
}

/// `n` is a strong Lucas probable prime for the parameters `(p, 1)`: with
/// `n + 1 = d * 2^s`, `d` odd, and `v = V_d mod n`, either `v ≡ ±2` or
/// the squaring chain from `v` reaches 0.
pub open spec fn lucas_probable_prime(n: int, p: int) -> bool {
    let s = two_adic(n + 1);
    let v = lucas_v(p, odd_part(n + 1) as nat) % n;
    v == 2 || v == n - 2 || lucas_chain(v, (s - 1) as nat, n)
}

/// The bound below which Lucas parameters are searched.
pub open spec fn param_limit() -> int {
    0x1_0000_0000
}

/// The least `q >= p` below `param_limit()` with `Jacobi(q^2 - 4, n) = -1`,
/// or 0 when there is none.
pub open spec fn lucas_param_from(n: int, p: int) -> int
    decreases param_limit() - p,
{
    if p >= param_limit() {
        0
    } else if jacobi(p * p - 4, n) == -1 {
        p
    } else {
        lucas_param_from(n, p + 1)
    }
}

/// Selfridge's parameter for `n`: the least `p >= 3` with
/// `Jacobi(p^2 - 4, n) = -1` (0 when none lies below `param_limit()`).
pub open spec fn lucas_param(n: int) -> int {
    lucas_param_from(n, 3)
}

/// Subtraction of residues, read as values.
pub proof fn lemma_mont_sub_values(x: int, y: int, res: int, r: int, n: int)
    requires
        n > 1,
        n % 2 == 1,
        r == radix64() || r == radix128(),
        0 <= x < n,
        0 <= y < n,
        res == (x - y) % n,
    ensures
        unmont(res, r, n) == (unmont(x, r, n) - unmont(y, r, n)) % n,
{
    let ri = radix_inv(r, n);
    lemma_mul_mod_noop_left(x - y, ri, n);
    assert((x - y) * ri == x * ri - y * ri) by (nonlinear_arith);
    lemma_sub_mod_noop(x * ri, y * ri, n);
}

/// Congruences carry through `a * b - c`.
pub proof fn lemma_mod_mul_sub(a: int, b: int, c: int, a2: int, b2: int, c2: int, n: int)
    requires
        n > 0,
        a % n == a2 % n,
        b % n == b2 % n,
        c % n == c2 % n,
    ensures
        (((a * b) % n) - c) % n == (a2 * b2 - c2) % n,
{
    lemma_mul_mod_noop_general(a, b, n);
    lemma_mul_mod_noop_general(a2, b2, n);
    lemma_sub_mod_noop(a * b, c, n);
    lemma_sub_mod_noop(a2 * b2, c2, n);
    lemma_mod_twice(a * b, n);
    lemma_sub_mod_noop((a * b) % n, c, n);
}

/// Doubling adds one factor two and keeps the odd part.
pub proof fn lemma_two_adic_double(m: int)
    requires
        m > 0,
    ensures
        two_adic(2 * m) == 1 + two_adic(m),
        odd_part(2 * m) == odd_part(m),
{
    assert((2 * m) / 2 == m);
    let t = two_adic(m);
    lemma_pow2_unfold(t + 1);
    lemma_pow2_pos(t);
    lemma_div_denominator(2 * m, 2, pow2(t) as int);
    lemma_mul_is_commutative(2, pow2(t) as int);
}

/// One step down the bits of `d`: halving the power of two `2 * m` appends
/// the next bit to the quotient.
pub proof fn lemma_next_bit(d: int, m: int)
    requires
        d >= 0,
        m > 0,
    ensures
        d / m == 2 * (d / (2 * m)) + (d / m) % 2,
{
    lemma_div_denominator(d, m, 2);
    lemma_mul_is_commutative(m, 2);
    lemma_fundamental_div_mod(d / m, 2);
}

/// `x` is the square of an integer.
pub open spec fn is_square(x: int) -> bool {
    exists|q: int| 0 <= q && #[trigger] (q * q) == x
}

/// With `r` the integer square root of `x`, `x` is a square exactly when
/// `r * r == x`.
pub proof fn lemma_square_by_root(x: int, r: int)
    requires
        0 <= r,
        r * r <= x < (r + 1) * (r + 1),
    ensures
        is_square(x) == (r * r == x),
{
    if is_square(x) {
        let q = choose|q: int| 0 <= q && #[trigger] (q * q) == x;
        if q < r {
            assert(q * q < r * r) by (nonlinear_arith)
                requires
                    0 <= q < r,
            ;
        } else if q > r {
            assert(q * q >= (r + 1) * (r + 1)) by (nonlinear_arith)
                requires
                    q >= r + 1,
                    r >= 0,
            ;
        }
    }
    if r * r == x {
        assert(0 <= r && r * r == x);
    }
}

/// The Baillie-PSW decision for an odd `x > 1`: `x` is a base-2 strong
/// probable prime, and, from 2047 on (the least base-2 strong pseudoprime),
/// not a square and a strong Lucas probable prime for Selfridge's parameter.
pub open spec fn bpsw(x: int) -> bool {
    strong_probable_prime(x, two_adic(x - 1), 2) && (x < 2047 || (!is_square(x) && lucas_param(x)
        != 0 && lucas_probable_prime(x, lucas_param(x))))
}

/// The odd primes of the trial filter: 3, 5, 7, ..., 53.
pub open spec fn small_prime(i: int) -> int {
    if i == 0 {
        3
    } else if i == 1 {
        5
    } else if i == 2 {
        7
    } else if i == 3 {
        11
    } else if i == 4 {
        13
    } else if i == 5 {
        17
    } else if i == 6 {
        19
    } else if i == 7 {
        23
    } else if i == 8 {
        29
    } else if i == 9 {
        31
    } else if i == 10 {
        37
    } else if i == 11 {
        41
    } else if i == 12 {
        43
    } else if i == 13 {
        47
    } else {
        53
    }
}

/// The trial filter from the `i`-th small prime on: for the first small
/// prime `p` that divides `x`, whether `x == p`; `None` when none does.
pub open spec fn trial_result(x: int, i: int) -> Option<bool>
    decreases 15 - i,
{
    if i < 0 || i >= 15 {
        None
    } else if x % small_prime(i) == 0 {
        Some(x == small_prime(i))
    } else {
        trial_result(x, i + 1)
    }
}

/// What the primality oracle answers for `x`: 2 is prime, 0, 1 and other
/// even numbers are not; an odd `x > 1` with a small prime factor is prime
/// exactly when it is that prime, and any other odd `x > 1` is decided by
/// `bpsw`.
pub open spec fn prime_decision(x: int) -> bool {
    x == 2 || (x > 1 && x % 2 == 1 && match trial_result(x, 0) {
        Some(b) => b,
        None => bpsw(x),
    })
}


} // verus!
