use machine_prime::trial::{trial_filter, trial_filter_128};

#[test]
fn trial_filter_finds_small_factors() {
    assert_eq!(trial_filter(3), Some(true));
    assert_eq!(trial_filter(53), Some(true));
    assert_eq!(trial_filter(9), Some(false));
    assert_eq!(trial_filter(15), Some(false));
    assert_eq!(trial_filter(53 * 59), Some(false));
    assert_eq!(trial_filter(59), None);
    assert_eq!(trial_filter(59 * 61), None);
    assert_eq!(trial_filter(1), None);
    assert_eq!(trial_filter(u64::MAX), Some(false));
    assert_eq!(trial_filter(u64::MAX - 58), None);
}

#[test]
fn trial_filter_agrees_with_remainders() {
    let primes = [3u64, 5, 7, 11, 13, 17, 19, 23, 29, 31, 37, 41, 43, 47, 53];
    for x in (1u64..20_000).step_by(2) {
        let expected = primes.iter().find(|&&p| x % p == 0).map(|&p| x == p);
        assert_eq!(trial_filter(x), expected, "x = {}", x);
    }
}

#[test]
fn trial_filter_128_finds_small_factors() {
    let big = (1u128 << 64) + 13;
    assert_eq!(trial_filter_128(big), None);
    assert_eq!(trial_filter_128(big * 3), Some(false));
    assert_eq!(trial_filter_128(big * 53), Some(false));
    assert_eq!(trial_filter_128(big * 59), None);
    assert_eq!(trial_filter_128(u128::MAX), Some(false));
    assert_eq!(trial_filter_128(u128::MAX - 158), None);
}
