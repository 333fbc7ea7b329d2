use machine_prime::check::{
    is_prime, is_prime_wc, lucas, mont_pow, mont_prod, mont_sub, mul_inv2, nqr, one_mont,
    param_search, strong_fermat, to_mont, two_mont,
};

fn trial_division(n: u64) -> bool {
    if n < 2 {
        return false;
    }
    let mut d: u64 = 2;
    while d * d <= n {
        if n % d == 0 {
            return false;
        }
        d += 1;
    }
    true
}

#[test]
fn small_inputs_and_even_numbers() {
    assert!(!is_prime(0));
    assert!(!is_prime(1));
    assert!(is_prime(2));
    assert!(is_prime(3));
    assert!(!is_prime(4));
    for x in (4u64..2000).step_by(2) {
        assert!(!is_prime(x));
    }
    assert!(!is_prime(u64::MAX - 1));
    assert!(!is_prime(1u64 << 63));
}

#[test]
fn agrees_with_trial_division_below_one_hundred_thousand() {
    for n in 0u64..100_000 {
        assert_eq!(is_prime(n), trial_division(n), "n = {}", n);
    }
}

#[test]
fn agrees_with_trial_division_on_odd_numbers_near_a_billion() {
    for n in (1_000_000_001u64..1_000_020_001).step_by(2) {
        assert_eq!(is_prime(n), trial_division(n), "n = {}", n);
        assert_eq!(is_prime_wc(n), trial_division(n), "n = {}", n);
    }
}

#[test]
fn base_two_strong_pseudoprimes_are_composite() {
    let pseudoprimes: [u64; 10] = [
        2047, 3277, 4033, 4681, 8321, 15841, 29341, 42799, 49141, 52633,
    ];
    for &n in pseudoprimes.iter() {
        assert!(!is_prime(n), "n = {}", n);
        assert!(!is_prime_wc(n), "n = {}", n);
    }
    // Carmichael numbers
    for &n in [561u64, 1105, 1729, 2465, 2821, 6601, 8911, 41041, 825265].iter() {
        assert!(!is_prime(n), "n = {}", n);
    }
    // the largest base-2 strong pseudoprime below 2^64 listed by Feitsma
    assert!(!is_prime(18446744066047760377));
    assert!(!is_prime(3825123056546413051));
}

#[test]
fn perfect_squares_of_wieferich_primes_are_composite() {
    assert!(!is_prime(1194649));
    assert!(!is_prime(12327121));
    assert!(!is_prime_wc(1194649));
    assert!(!is_prime_wc(12327121));
    assert!(!is_prime(4294967291u64 * 4294967291u64));
}

#[test]
fn largest_primes_below_two_to_the_sixty_four() {
    assert!(is_prime_wc(u64::MAX - 58));
    assert!(is_prime(u64::MAX - 58));
    assert!(is_prime(18446744073709551557));
    assert!(!is_prime(u64::MAX));
    assert!(!is_prime_wc(u64::MAX));
    assert!(is_prime(4294967291));
    assert!(is_prime(9223372036854775783));
}

#[test]
fn count_of_primes_below_two_to_the_sixty_four() {
    let mut count = 0u32;
    let mut n = u64::MAX - 99_999;
    loop {
        if is_prime(n) {
            count += 1;
        }
        if n == u64::MAX {
            break;
        }
        n += 1;
    }
    assert_eq!(count, 2139);
}

#[test]
fn modular_inverse_is_negated() {
    for &n in [1u64, 3, 5, 7, 255, 65537, 1_000_000_007, u64::MAX, u64::MAX - 58].iter() {
        let v = mul_inv2(n);
        assert_eq!(n.wrapping_mul(v), u64::MAX, "n = {}", n);
    }
    assert_eq!(mul_inv2(3), 0x5555555555555555);
}

#[test]
fn montgomery_round_trip() {
    for &n in [3u64, 5, 101, 1_000_000_007, u64::MAX - 58, u64::MAX].iter() {
        let inv = mul_inv2(n);
        for &x in [0u64, 1, 2, n / 2, n - 1].iter() {
            let m = to_mont(x, n);
            assert_eq!(mont_prod(m, 1, n, inv), x);
        }
    }
}

#[test]
fn montgomery_product_of_forms() {
    let n = 1_000_000_007u64;
    let inv = mul_inv2(n);
    let (a, b) = (123_456_789u64, 987_654_321u64);
    let p = mont_prod(to_mont(a, n), to_mont(b, n), n, inv);
    assert_eq!(p, to_mont(((a as u128 * b as u128) % n as u128) as u64, n));
    let n = u64::MAX - 58;
    let inv = mul_inv2(n);
    let (a, b) = (n - 1, n - 2);
    let p = mont_prod(to_mont(a, n), to_mont(b, n), n, inv);
    assert_eq!(p, to_mont(2, n));
}

#[test]
fn montgomery_constants_and_subtraction() {
    let n = 1_000_000_007u64;
    assert_eq!(one_mont(n), to_mont(1, n));
    assert_eq!(two_mont(one_mont(n), n), to_mont(2, n));
    let n = u64::MAX;
    assert_eq!(two_mont(one_mont(n), n), to_mont(2, n));
    assert_eq!(mont_sub(3, 5, 7), 5);
    assert_eq!(mont_sub(5, 3, 7), 2);
    assert_eq!(mont_sub(0, 0, 7), 0);
}

#[test]
fn montgomery_power() {
    let n = 1_000_000_007u64;
    let inv = mul_inv2(n);
    let r = mont_pow(to_mont(3, n), one_mont(n), 1_000_000_006, n, inv);
    assert_eq!(r, one_mont(n));
    let r = mont_pow(to_mont(2, n), one_mont(n), 10, n, inv);
    assert_eq!(r, to_mont(1024, n));
}

#[test]
fn strong_fermat_base_two() {
    // 2047 = 23 * 89 is a base-2 strong pseudoprime, 2049 is not
    let n = 2047u64;
    let inv = mul_inv2(n);
    let one = one_mont(n);
    let two = two_mont(one, n);
    assert!(strong_fermat(n, 1, two, one, mont_sub(0, one, n), inv));
    let n = 2049u64;
    let inv = mul_inv2(n);
    let one = one_mont(n);
    let two = two_mont(one, n);
    assert!(!strong_fermat(n, 11, two, one, mont_sub(0, one, n), inv));
    let three = to_mont(3, 2047);
    let one = one_mont(2047);
    assert!(!strong_fermat(2047, 1, three, one, mont_sub(0, one, 2047), mul_inv2(2047)));
}

#[test]
fn jacobi_symbols() {
    // (2 / 7) = 1, (3 / 7) = -1, (5 / 21) = 1, (0 / 1) = 1
    assert!(!nqr(2, 7));
    assert!(nqr(3, 7));
    assert!(nqr(5, 3));
    assert!(!nqr(5, 21));
    assert!(!nqr(0, 1));
    assert!(!nqr(7, 21));
    assert!(nqr(2, 5));
}

#[test]
fn lucas_parameters() {
    // 3^2 - 4 = 5 is a non-residue of 7 and 13
    assert_eq!(param_search(7), 3);
    assert_eq!(param_search(13), 3);
    // 11: (5/11) = 1, (12/11) = (1/11) = 1, (21/11) = (10/11) = -1
    assert_eq!(param_search(11), 5);
    for &n in [1_000_000_007u64, u64::MAX - 58, 2047, 3277].iter() {
        let p = param_search(n);
        assert!(p >= 3);
        assert!(nqr(p * p - 4, n));
    }
}

#[test]
fn lucas_test_on_primes_and_pseudoprimes() {
    for &(n, expected) in [(1_000_000_007u64, true), (u64::MAX - 58, true), (2047, false), (5459, false)].iter() {
        let inv = mul_inv2(n);
        let one = one_mont(n);
        let two = two_mont(one, n);
        assert_eq!(lucas(n, one, two, inv), expected, "n = {}", n);
    }
}

#[test]
fn count_of_primes_in_the_last_million_below_two_to_the_sixty_four() {
    let mut count = 0u32;
    let mut n = u64::MAX - 999_999;
    loop {
        if is_prime(n) {
            count += 1;
        }
        if n == u64::MAX {
            break;
        }
        n += 1;
    }
    assert_eq!(count, 22475);
}
