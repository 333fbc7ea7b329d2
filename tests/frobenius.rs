use machine_prime::qft::qft;
use machine_prime::wide::{mont_sub_128, mul_inv2_128, one_mont_128, two_mont_128};

fn run_qft(n: u128) -> bool {
    let inv = mul_inv2_128(n);
    let one = one_mont_128(n);
    let two = two_mont_128(one, n);
    let oneinv = mont_sub_128(0, one, n);
    qft(n, one, two, oneinv, inv)
}

#[test]
fn qft_accepts_primes_of_each_parameter_class() {
    // parameter -1, 2, 3, 5 and a searched one
    for &n in [7u128, 13, 17, 41, 73, 241].iter() {
        assert!(run_qft(n), "n = {}", n);
    }
    assert!(run_qft((1u128 << 127) - 1));
    assert!(run_qft(u128::MAX - 158));
    assert!(run_qft((1u128 << 64) + 13));
    assert!(run_qft(170141183460469231731687303715884105757));
    assert!(run_qft(170141183460469231731687303715884105793));
    assert!(run_qft(170141183460469231731687303715884105851));
    assert!(run_qft(170141183460469231731687303715884106001));
}

#[test]
fn qft_rejects_pseudoprimes() {
    for &n in [561u128, 1105, 2047, 3277, 3215031751].iter() {
        assert!(!run_qft(n), "n = {}", n);
    }
}
