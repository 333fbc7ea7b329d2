//! The quadratic extension rings `Z_n[√c]` in which the Frobenius test
//! computes: elements are pairs `(real, coefficient)`, and the laws that
//! square-and-multiply exponentiation needs. Also the reading of Montgomery
//! sums and products as values.

use vstd::prelude::*;
use vstd::arithmetic::div_mod::*;
use vstd::arithmetic::mul::*;
use crate::math::{lemma_mont_mul_values, lemma_unmont, radix128, radix64, radix_inv, unmont};

verus! {

/// The product of `x.0 + x.1 * √c` and `y.0 + y.1 * √c` over the integers.
pub open spec fn qprod(x: (int, int), y: (int, int), c: int) -> (int, int) {
    (x.0 * y.0 + c * (x.1 * y.1), x.0 * y.1 + x.1 * y.0)
}

/// Both coordinates reduced modulo `n`.
pub open spec fn qred(x: (int, int), n: int) -> (int, int) {
    (x.0 % n, x.1 % n)
}

/// Multiplication in the ring `Z_n[√c]`, on reduced coordinates.
pub open spec fn qmul(x: (int, int), y: (int, int), c: int, n: int) -> (int, int) {
    qred(qprod(x, y, c), n)
}

/// The power `x^e` in the ring `Z_n[√c]`.
pub open spec fn qpow(x: (int, int), e: nat, c: int, n: int) -> (int, int)
    decreases e,
{
    if e == 0 {
        (1int % n, 0int)
    } else {
        qmul(qpow(x, (e - 1) as nat, c, n), x, c, n)
    }
}

/// Multiplication of integers commutes.
pub proof fn lemma_mul_commutes(a: int, b: int)
    ensures
        a * b == b * a,
{
    lemma_mul_is_commutative(a, b);
}

/// Congruences carry through products.
pub proof fn lemma_congr_mul(a: int, b: int, a2: int, b2: int, n: int)
    requires
        n > 0,
        a % n == a2 % n,
        b % n == b2 % n,
    ensures
        (a * b) % n == (a2 * b2) % n,
{
    lemma_mul_mod_noop_general(a, b, n);
    lemma_mul_mod_noop_general(a2, b2, n);
}

/// Congruences carry through sums.
pub proof fn lemma_congr_add(a: int, b: int, a2: int, b2: int, n: int)
    requires
        n > 0,
        a % n == a2 % n,
        b % n == b2 % n,
    ensures
        (a + b) % n == (a2 + b2) % n,
{
    lemma_add_mod_noop(a, b, n);
    lemma_add_mod_noop(a2, b2, n);
}

/// A linear combination of residues reads as the same combination of values.
pub proof fn lemma_congr_lin(a: int, a2: int, b: int, b2: int, k: int, n: int)
    requires
        n > 0,
        a % n == a2 % n,
        b % n == b2 % n,
    ensures
        (a + k * b) % n == (a2 + k * b2) % n,
{
    lemma_congr_mul(k, b, k, b2, n);
    lemma_congr_add(a, k * b, a2, k * b2, n);
}

/// The ring product respects congruence of coordinates.
pub proof fn lemma_qprod_congr(x: (int, int), y: (int, int), x2: (int, int), y2: (int, int), c: int, n: int)
    requires
        n > 0,
        qred(x, n) == qred(x2, n),
        qred(y, n) == qred(y2, n),
    ensures
        qred(qprod(x, y, c), n) == qred(qprod(x2, y2, c), n),
{
    lemma_congr_mul(x.0, y.0, x2.0, y2.0, n);
    lemma_congr_mul(x.1, y.1, x2.1, y2.1, n);
    lemma_congr_mul(c, x.1 * y.1, c, x2.1 * y2.1, n);
    lemma_congr_add(x.0 * y.0, c * (x.1 * y.1), x2.0 * y2.0, c * (x2.1 * y2.1), n);
    lemma_congr_mul(x.0, y.1, x2.0, y2.1, n);
    lemma_congr_mul(x.1, y.0, x2.1, y2.0, n);
    lemma_congr_add(x.0 * y.1, x.1 * y.0, x2.0 * y2.1, x2.1 * y2.0, n);
}

/// Reducing coordinates twice changes nothing.
pub proof fn lemma_qred_twice(x: (int, int), n: int)
    requires
        n > 0,
    ensures
        qred(qred(x, n), n) == qred(x, n),
{
    lemma_mod_twice(x.0, n);
    lemma_mod_twice(x.1, n);
}

/// Associativity of the product in `Z[√c]`, coordinate by coordinate.
proof fn lemma_qprod_assoc(x0: int, x1: int, y0: int, y1: int, z0: int, z1: int, c: int)
    ensures
        (x0 * y0 + c * (x1 * y1)) * z0 + c * ((x0 * y1 + x1 * y0) * z1) == x0 * (y0 * z0 + c * (y1
            * z1)) + c * (x1 * (y0 * z1 + y1 * z0)),
        (x0 * y0 + c * (x1 * y1)) * z1 + (x0 * y1 + x1 * y0) * z0 == x0 * (y0 * z1 + y1 * z0) + x1
            * (y0 * z0 + c * (y1 * z1)),
{
    let a = x0 * y0;
    let b = x1 * y1;
    let e = x0 * y1;
    let d = x1 * y0;
    assert((a + c * b) * z0 == a * z0 + (c * b) * z0) by (nonlinear_arith);
    assert((a + c * b) * z1 == a * z1 + (c * b) * z1) by (nonlinear_arith);
    assert((e + d) * z1 == e * z1 + d * z1) by (nonlinear_arith);
    assert((e + d) * z0 == e * z0 + d * z0) by (nonlinear_arith);
    assert(c * (e * z1 + d * z1) == c * (e * z1) + c * (d * z1)) by (nonlinear_arith);
    assert(x0 * (y0 * z0 + c * (y1 * z1)) == x0 * (y0 * z0) + x0 * (c * (y1 * z1))) by (nonlinear_arith);
    assert(x1 * (y0 * z1 + y1 * z0) == x1 * (y0 * z1) + x1 * (y1 * z0)) by (nonlinear_arith);
    assert(c * (x1 * (y0 * z1) + x1 * (y1 * z0)) == c * (x1 * (y0 * z1)) + c * (x1 * (y1 * z0))) by (nonlinear_arith);
    assert(x0 * (y0 * z1 + y1 * z0) == x0 * (y0 * z1) + x0 * (y1 * z0)) by (nonlinear_arith);
    assert(x1 * (y0 * z0 + c * (y1 * z1)) == x1 * (y0 * z0) + x1 * (c * (y1 * z1))) by (nonlinear_arith);
    assert(a * z0 == x0 * (y0 * z0)) by (nonlinear_arith)
        requires
            a == x0 * y0,
    ;
    assert((c * b) * z0 == c * (x1 * (y1 * z0))) by (nonlinear_arith)
        requires
            b == x1 * y1,
    ;
    assert(c * (e * z1) == x0 * (c * (y1 * z1))) by (nonlinear_arith)
        requires
            e == x0 * y1,
    ;
    assert(c * (d * z1) == c * (x1 * (y0 * z1))) by (nonlinear_arith)
        requires
            d == x1 * y0,
    ;
    assert(a * z1 == x0 * (y0 * z1)) by (nonlinear_arith)
        requires
            a == x0 * y0,
    ;
    assert(e * z0 == x0 * (y1 * z0)) by (nonlinear_arith)
        requires
            e == x0 * y1,
    ;
    assert(d * z0 == x1 * (y0 * z0)) by (nonlinear_arith)
        requires
            d == x1 * y0,
    ;
    assert((c * b) * z1 == x1 * (c * (y1 * z1))) by (nonlinear_arith)
        requires
            b == x1 * y1,
    ;
}

/// Multiplication in `Z_n[√c]` is associative and commutative.
pub proof fn lemma_qmul_laws(x: (int, int), y: (int, int), z: (int, int), c: int, n: int)
    requires
        n > 0,
    ensures
        qmul(qmul(x, y, c, n), z, c, n) == qmul(x, qmul(y, z, c, n), c, n),
        qmul(x, y, c, n) == qmul(y, x, c, n),
{
    let xy = qprod(x, y, c);
    let yz = qprod(y, z, c);
    assert(qprod(xy, z, c) == qprod(x, yz, c)) by {
        lemma_qprod_assoc(x.0, x.1, y.0, y.1, z.0, z.1, c);
    }
    lemma_qred_twice(xy, n);
    lemma_qred_twice(yz, n);
    lemma_qred_twice(z, n);
    lemma_qred_twice(x, n);
    lemma_qprod_congr(qred(xy, n), z, xy, z, c, n);
    lemma_qprod_congr(x, qred(yz, n), x, yz, c, n);
    assert(qprod(x, y, c) == qprod(y, x, c)) by {
        lemma_mul_is_commutative(x.0, y.0);
        lemma_mul_is_commutative(x.1, y.1);
        lemma_mul_is_commutative(x.0, y.1);
        lemma_mul_is_commutative(x.1, y.0);
    }
}

/// The first power is the reduced element; multiplying by a reduced
/// element is multiplying by the element.
pub proof fn lemma_qpow_one(a: (int, int), b: (int, int), c: int, n: int)
    requires
        n > 1,
    ensures
        qpow(b, 1, c, n) == qred(b, n),
        qmul(a, qred(b, n), c, n) == qmul(a, b, c, n),
{
    lemma_small_mod(1, n as nat);
    lemma_small_mod(0, n as nat);
    assert(qprod((1, 0), b, c) == (b.0 + c * 0, b.1)) by {
        assert(1 * b.0 == b.0);
        assert(1 * b.1 == b.1);
        assert(0 * b.0 == 0);
        assert(0 * b.1 == 0) by (nonlinear_arith);
    }
    assert(qpow(b, 0, c, n) == (1int, 0int));
    assert(c * 0 == 0) by (nonlinear_arith);
    lemma_qred_twice(b, n);
    lemma_qred_twice(a, n);
    lemma_qprod_congr(a, qred(b, n), a, b, c, n);
}

/// The unit `(1, 0)` of `Z_n[√c]`, and powers with a positive exponent are
/// reduced.
pub proof fn lemma_qunit(b: (int, int), e: nat, c: int, n: int)
    requires
        n > 1,
        e >= 1,
    ensures
        qmul((1, 0), b, c, n) == qred(b, n),
        qred(qpow(b, e, c, n), n) == qpow(b, e, c, n),
{
    assert(qprod((1, 0), b, c) == (b.0 + c * 0, b.1)) by {
        assert(1 * b.0 == b.0);
        assert(1 * b.1 == b.1);
        assert(0 * b.0 == 0);
        assert(0 * b.1 == 0) by (nonlinear_arith);
    }
    assert(c * 0 == 0) by (nonlinear_arith);
    lemma_qred_twice(qprod(qpow(b, (e - 1) as nat, c, n), b, c), n);
}

/// Powers of the square are even powers.
pub proof fn lemma_qpow_square(b: (int, int), k: nat, c: int, n: int)
    requires
        n > 1,
    ensures
        qpow(qmul(b, b, c, n), k, c, n) == qpow(b, 2 * k, c, n),
    decreases k,
{
    if k > 0 {
        lemma_qpow_square(b, (k - 1) as nat, c, n);
        let q = qpow(b, (2 * k - 2) as nat, c, n);
        assert(qpow(b, (2 * k - 1) as nat, c, n) == qmul(q, b, c, n));
        lemma_qmul_laws(q, b, b, c, n);
    }
}

/// One halving step of square-and-multiply in `Z_n[√c]` keeps `a * b^p`.
pub proof fn lemma_qpow_step(a: (int, int), b: (int, int), p: nat, c: int, n: int)
    requires
        n > 1,
        p >= 2,
    ensures
        p % 2 == 0 ==> qmul(a, qpow(qmul(b, b, c, n), p / 2, c, n), c, n) == qmul(
            a,
            qpow(b, p, c, n),
            c,
            n,
        ),
        p % 2 == 1 ==> qmul(qmul(a, b, c, n), qpow(qmul(b, b, c, n), p / 2, c, n), c, n) == qmul(
            a,
            qpow(b, p, c, n),
            c,
            n,
        ),
{
    let k = p / 2;
    lemma_qpow_square(b, k, c, n);
    let q = qpow(b, 2 * k, c, n);
    if p % 2 == 1 {
        assert(p == 2 * k + 1);
        assert(qpow(b, p, c, n) == qmul(q, b, c, n));
        lemma_qmul_laws(a, b, q, c, n);
        lemma_qmul_laws(b, q, q, c, n);
    } else {
        assert(p == 2 * k);
    }
}

/// The sum of two residues modulo `n`, read as values.
pub proof fn lemma_unmont_add(x: int, y: int, res: int, r: int, n: int)
    requires
        n > 1,
        n % 2 == 1,
        r == radix64() || r == radix128(),
        res == (x + y) % n,
    ensures
        unmont(res, r, n) == (unmont(x, r, n) + unmont(y, r, n)) % n,
{
    let ri = radix_inv(r, n);
    lemma_mul_mod_noop_left(x + y, ri, n);
    assert((x + y) * ri == x * ri + y * ri) by (nonlinear_arith);
    lemma_add_mod_noop(x * ri, y * ri, n);
}

/// The Montgomery product of two residues, read as the product of values.
pub proof fn lemma_prod_value(x: int, y: int, res: int, r: int, n: int)
    requires
        n > 1,
        n % 2 == 1,
        r == radix64() || r == radix128(),
        0 <= x < n,
        0 <= y < n,
        0 <= res < n,
        (res * r) % n == (x * y) % n,
    ensures
        unmont(res, r, n) == (unmont(x, r, n) * unmont(y, r, n)) % n,
{
    lemma_mont_mul_values(x, y, res, r, n);
    lemma_unmont(0, unmont(x, r, n) * unmont(y, r, n), r, n);
}

} // verus!
