use machine_prime::check::is_prime;
use machine_prime::wide::{
    is_prime_128, is_prime_wc_128, lucas_128, mont_pow_128, mont_prod_128, mont_sqr_128,
    mont_sub_128, mul_inv2_128, nqr_128, one_mont_128, param_search_128, strong_fermat_128,
    to_mont_128, two_mont_128, u256prod, u256prod_hi, u256sqr,
};

#[test]
fn double_width_products() {
    assert_eq!(u256prod(u128::MAX, u128::MAX), (u128::MAX - 1, 1));
    assert_eq!(u256sqr(u128::MAX), (u128::MAX - 1, 1));
    let a = 0x0123456789abcdef0123456789abcdefu128;
    let b = 0xfedcba9876543210fedcba9876543210u128;
    let expected = (
        1505644448203263502785702108440116084u128,
        92462701024482558069419968896098733296u128,
    );
    assert_eq!(u256prod(a, b), expected);
    assert_eq!(u256prod_hi(a, b), expected.0);
    assert_eq!(u256prod(a, a), u256sqr(a));
    assert_eq!(u256prod(1u128 << 64, 1u128 << 64), (1, 0));
    assert_eq!(u256prod(0, a), (0, 0));
}

#[test]
fn modular_inverse_128_is_negated() {
    for &n in [1u128, 3, 5, (1u128 << 127) - 1, u128::MAX, (1u128 << 64) + 13].iter() {
        let v = mul_inv2_128(n);
        assert_eq!(n.wrapping_mul(v), u128::MAX, "n = {}", n);
    }
}

#[test]
fn montgomery_128_round_trip_and_product() {
    let n = (1u128 << 127) - 1;
    let inv = mul_inv2_128(n);
    for &x in [0u128, 1, 2, 12345678901234567890123, n - 1].iter() {
        let m = to_mont_128(x, n);
        assert_eq!(mont_prod_128(m, 1, n, inv), x);
    }
    let (a, b) = (n - 1, n - 2);
    let p = mont_prod_128(to_mont_128(a, n), to_mont_128(b, n), n, inv);
    assert_eq!(p, to_mont_128(2, n));
    assert_eq!(mont_sqr_128(to_mont_128(n - 1, n), n, inv), one_mont_128(n));
    assert_eq!(one_mont_128(n), to_mont_128(1, n));
    assert_eq!(two_mont_128(one_mont_128(n), n), to_mont_128(2, n));
    let n = u128::MAX;
    assert_eq!(two_mont_128(one_mont_128(n), n), to_mont_128(2, n));
    assert_eq!(mont_sub_128(3, 5, 7), 5);
}

#[test]
fn montgomery_128_power() {
    // Fermat's little theorem for the Mersenne prime 2^127 - 1
    let n = (1u128 << 127) - 1;
    let inv = mul_inv2_128(n);
    let one = one_mont_128(n);
    assert_eq!(mont_pow_128(to_mont_128(3, n), one, n - 1, n, inv), one);
    assert_eq!(mont_pow_128(to_mont_128(2, n), one, 100, n, inv), to_mont_128(1u128 << 100, n));
}

#[test]
fn strong_fermat_and_lucas_128() {
    let n = (1u128 << 127) - 1;
    let inv = mul_inv2_128(n);
    let one = one_mont_128(n);
    let two = two_mont_128(one, n);
    assert!(strong_fermat_128(n, 1, two, one, mont_sub_128(0, one, n), inv));
    assert!(lucas_128(n, one, two, inv));
    let m = 3215031751u128;
    let inv = mul_inv2_128(m);
    let one = one_mont_128(m);
    let two = two_mont_128(one, m);
    assert!(strong_fermat_128(m, 1, two, one, mont_sub_128(0, one, m), inv));
    assert!(!lucas_128(m, one, two, inv));
}

#[test]
fn jacobi_and_parameters_128() {
    assert!(nqr_128(3, 7));
    assert!(!nqr_128(2, 7));
    assert_eq!(param_search_128(7), 3);
    assert_eq!(param_search_128(11), 5);
    let n = (1u128 << 127) - 1;
    let p = param_search_128(n);
    assert!(nqr_128(p * p - 4, n));
}

#[test]
fn is_prime_128_known_values() {
    assert!(is_prime_128((1u128 << 127) - 1));
    assert!(is_prime_128(u128::MAX - 158));
    assert!(is_prime_128((1u128 << 64) + 13));
    assert!(is_prime_128((1u128 << 89) - 1));
    assert!(!is_prime_128(u128::MAX));
    assert!(!is_prime_128(1u128 << 100));
    assert!(!is_prime_128(((1u128 << 64) + 13) * 3));
    assert!(!is_prime_128(318665857834031151167461));
    assert!(!is_prime_128(3317044064679887385961981));
    assert!(is_prime_wc_128((1u128 << 127) - 1));
    assert!(!is_prime_wc_128(((1u128 << 61) - 1) * ((1u128 << 61) - 1)));
}

#[test]
fn is_prime_128_agrees_below_two_to_the_sixty_four() {
    for x in 0u64..5000 {
        assert_eq!(is_prime_128(x as u128), is_prime(x));
    }
    assert!(is_prime_128((u64::MAX - 58) as u128));
    assert!(is_prime_wc_128((u64::MAX - 58) as u128));
}

#[test]
fn count_of_primes_below_two_to_the_one_hundred_twenty_eight() {
    let mut count = 0u32;
    let mut n = u128::MAX - 9_999;
    loop {
        if is_prime_128(n) {
            count += 1;
        }
        if n == u128::MAX {
            break;
        }
        n += 1;
    }
    assert_eq!(count, 114);
}

#[test]
fn count_of_primes_above_two_to_the_sixty_four() {
    let mut count = 0u32;
    for n in (1u128 << 64)..((1u128 << 64) + 10_000) {
        if is_prime_128(n) {
            count += 1;
        }
    }
    assert_eq!(count, 210);
}
