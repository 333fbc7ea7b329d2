//! The small-prime trial filter: divisibility by the odd primes 3 to 53
//! without division, by multiplying with precomputed inverses modulo 2^64.

use vstd::prelude::*;
use vstd::arithmetic::div_mod::*;
use vstd::arithmetic::mul::*;
use crate::math::{radix64, small_prime, trial_result};

verus! {

/// The number of primes in the trial filter.
pub const SMALL_PRIMES: u64 = 15;

/// The product of the small primes, which fits in 64 bits.
pub const SMALL_PRIMORIAL: u64 = 16294579238595022365;

/// The inverse of the `i`-th small prime modulo 2^64, and the largest
/// quotient `(2^64 - 1) / p` of a 64-bit multiple of it.
fn small_prime_entry(i: u64) -> (r: (u64, u64))
    requires
        i < SMALL_PRIMES,
    ensures
        (small_prime(i as int) * r.0) % radix64() == 1,
        r.1 == (radix64() - 1) / small_prime(i as int),
{
    match i {
        0 => {
            proof {
                assert((3int * 0xaaaa_aaaa_aaaa_aaab) % 0x1_0000_0000_0000_0000int == 1) by (nonlinear_arith);
            }
            (0xaaaa_aaaa_aaaa_aaab, 0x5555_5555_5555_5555)
        },
        1 => {
            proof {
                assert((5int * 0xcccc_cccc_cccc_cccd) % 0x1_0000_0000_0000_0000int == 1) by (nonlinear_arith);
            }
            (0xcccc_cccc_cccc_cccd, 0x3333_3333_3333_3333)
        },
        2 => {
            proof {
                assert((7int * 0x6db6_db6d_b6db_6db7) % 0x1_0000_0000_0000_0000int == 1) by (nonlinear_arith);
            }
            (0x6db6_db6d_b6db_6db7, 0x2492_4924_9249_2492)
        },
        3 => {
            proof {
                assert((11int * 0x2e8b_a2e8_ba2e_8ba3) % 0x1_0000_0000_0000_0000int == 1) by (nonlinear_arith);
            }
            (0x2e8b_a2e8_ba2e_8ba3, 0x1745_d174_5d17_45d1)
        },
        4 => {
            proof {
                assert((13int * 0x4ec4_ec4e_c4ec_4ec5) % 0x1_0000_0000_0000_0000int == 1) by (nonlinear_arith);
            }
            (0x4ec4_ec4e_c4ec_4ec5, 0x13b1_3b13_b13b_13b1)
        },
        5 => {
            proof {
                assert((17int * 0xf0f0_f0f0_f0f0_f0f1) % 0x1_0000_0000_0000_0000int == 1) by (nonlinear_arith);
            }
            (0xf0f0_f0f0_f0f0_f0f1, 0x0f0f_0f0f_0f0f_0f0f)
        },
        6 => {
            proof {
                assert((19int * 0x86bc_a1af_286b_ca1b) % 0x1_0000_0000_0000_0000int == 1) by (nonlinear_arith);
            }
            (0x86bc_a1af_286b_ca1b, 0x0d79_435e_50d7_9435)
        },
        7 => {
            proof {
                assert((23int * 0xd37a_6f4d_e9bd_37a7) % 0x1_0000_0000_0000_0000int == 1) by (nonlinear_arith);
            }
            (0xd37a_6f4d_e9bd_37a7, 0x0b21_642c_8590_b216)
        },
        8 => {
            proof {
                assert((29int * 0x34f7_2c23_4f72_c235) % 0x1_0000_0000_0000_0000int == 1) by (nonlinear_arith);
            }
            (0x34f7_2c23_4f72_c235, 0x08d3_dcb0_8d3d_cb08)
        },
        9 => {
            proof {
                assert((31int * 0xef7b_def7_bdef_7bdf) % 0x1_0000_0000_0000_0000int == 1) by (nonlinear_arith);
            }
            (0xef7b_def7_bdef_7bdf, 0x0842_1084_2108_4210)
        },
        10 => {
            proof {
                assert((37int * 0x14c1_bacf_914c_1bad) % 0x1_0000_0000_0000_0000int == 1) by (nonlinear_arith);
            }
            (0x14c1_bacf_914c_1bad, 0x06eb_3e45_306e_b3e4)
        },
        11 => {
            proof {
                assert((41int * 0x8f9c_18f9_c18f_9c19) % 0x1_0000_0000_0000_0000int == 1) by (nonlinear_arith);
            }
            (0x8f9c_18f9_c18f_9c19, 0x063e_7063_e706_3e70)
        },
        12 => {
            proof {
                assert((43int * 0x82fa_0be8_2fa0_be83) % 0x1_0000_0000_0000_0000int == 1) by (nonlinear_arith);
            }
            (0x82fa_0be8_2fa0_be83, 0x05f4_17d0_5f41_7d05)
        },
        13 => {
            proof {
                assert((47int * 0x51b3_bea3_677d_46cf) % 0x1_0000_0000_0000_0000int == 1) by (nonlinear_arith);
            }
            (0x51b3_bea3_677d_46cf, 0x0572_620a_e4c4_15c9)
        },
        _ => {
            proof {
                assert((53int * 0x21cf_b2b7_8c13_521d) % 0x1_0000_0000_0000_0000int == 1) by (nonlinear_arith);
            }
            (0x21cf_b2b7_8c13_521d, 0x04d4_873e_cade_304d)
        },
    }
}

/// Divisibility by `p` through its inverse `inv` modulo 2^64: with
/// `prod = x * inv mod 2^64`, `p` divides `x` exactly when `prod` is at
/// most `(2^64 - 1) / p`, and then `prod` is the quotient `x / p`.
pub proof fn lemma_inverse_divides(x: int, p: int, inv: int, lim: int, prod: int)
    requires
        p > 0,
        0 <= x < radix64(),
        0 <= inv,
        (p * inv) % radix64() == 1,
        lim == (radix64() - 1) / p,
        prod == (x * inv) % radix64(),
    ensures
        (prod <= lim) == (x % p == 0),
        x % p == 0 ==> prod == x / p,
        x % p == 0 ==> ((prod == 1) == (x == p)),
{
    let rr = radix64();
    lemma_mod_bound(x * inv, rr);
    // p * prod ≡ x (mod 2^64)
    lemma_mul_mod_noop_right(p, x * inv, rr);
    assert(p * (x * inv) == x * (p * inv)) by (nonlinear_arith);
    lemma_mul_mod_noop_right(x, p * inv, rr);
    lemma_small_mod(x as nat, rr as nat);
    assert((p * prod) % rr == x);
    lemma_fundamental_div_mod(rr - 1, p);
    lemma_mod_bound(rr - 1, p);
    if x % p == 0 {
        let m = x / p;
        lemma_fundamental_div_mod(x, p);
        assert(x == p * m);
        lemma_div_pos_is_pos(x, p);
        assert(m <= x) by (nonlinear_arith)
            requires
                x == p * m,
                p > 0,
                m >= 0,
        ;
        // prod ≡ m, and both lie below 2^64
        assert(x * inv == m * (p * inv)) by (nonlinear_arith)
            requires
                x == p * m,
        ;
        lemma_mul_mod_noop_right(m, p * inv, rr);
        lemma_small_mod(m as nat, rr as nat);
        assert(prod == m);
        lemma_div_is_ordered(x, rr - 1, p);
        if x == p {
            lemma_div_by_self(p);
        }
        if m == 1 {
            assert(p * 1 == p);
            assert(x == p);
        }
    } else {
        if prod <= lim {
            assert(p * prod <= p * lim) by (nonlinear_arith)
                requires
                    prod <= lim,
                    p > 0,
            ;
            assert(0 <= p * prod) by (nonlinear_arith)
                requires
                    p > 0,
                    prod >= 0,
            ;
            lemma_small_mod((p * prod) as nat, rr as nat);
            assert(x == p * prod);
            lemma_mod_multiples_basic(prod, p);
            lemma_mul_is_commutative(prod, p);
        }
    }
}

/// Trial filter on a 64-bit `x`: for the first small prime `p` dividing
/// `x`, whether `x` is `p` itself; `None` when no small prime divides `x`.
pub fn trial_filter(x: u64) -> (r: Option<bool>)
    ensures
        r == trial_result(x as int, 0),
{
    let mut i: u64 = 0;
    while i < SMALL_PRIMES
        invariant
            i <= SMALL_PRIMES,
            trial_result(x as int, i as int) == trial_result(x as int, 0),
        decreases SMALL_PRIMES - i,
    {
        let (inv, lim) = small_prime_entry(i);
        let prod = x.wrapping_mul(inv);
        proof {
            lemma_inverse_divides(x as int, small_prime(i as int), inv as int, lim as int, prod as int);
        }
        if prod <= lim {
            return Some(prod == 1);
        }
        i = i + 1;
    }
    None
}

/// Trial filter on a 128-bit `x >= 2^64`, through its residue modulo the
/// product of the small primes: `Some(false)` when a small prime divides
/// `x`, `None` when none does.
pub fn trial_filter_128(x: u128) -> (r: Option<bool>)
    requires
        x >= radix64(),
    ensures
        r == trial_result(x as int, 0),
{
    let residue = (x % (SMALL_PRIMORIAL as u128)) as u64;
    let mut i: u64 = 0;
    while i < SMALL_PRIMES
        invariant
            i <= SMALL_PRIMES,
            x >= radix64(),
            residue as int == (x as int) % (SMALL_PRIMORIAL as int),
            trial_result(x as int, i as int) == trial_result(x as int, 0),
        decreases SMALL_PRIMES - i,
    {
        let (inv, lim) = small_prime_entry(i);
        let prod = residue.wrapping_mul(inv);
        let ghost p = small_prime(i as int);
        proof {
            lemma_inverse_divides(residue as int, p, inv as int, lim as int, prod as int);
            assert(SMALL_PRIMORIAL as int == p * ((SMALL_PRIMORIAL as int) / p));
            lemma_mod_mod(x as int, p, (SMALL_PRIMORIAL as int) / p);
        }
        if prod <= lim {
            return Some(false);
        }
        i = i + 1;
    }
    None
}

} // verus!
