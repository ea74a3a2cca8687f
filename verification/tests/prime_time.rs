use protohackers::prime_time::{firstfac, is_prime, validate_method};

#[test]
fn primes_below_thirty() {
    let primes: Vec<i64> = (-5..30).filter(|n| is_prime(*n)).collect();
    assert_eq!(primes, vec![2, 3, 5, 7, 11, 13, 17, 19, 23, 29]);
}

#[test]
fn large_prime_and_composite() {
    assert!(is_prime(1_000_000_007));
    assert!(!is_prime(1_000_000_007 * 3));
    assert!(is_prime(2_147_483_647));
    assert!(!is_prime(9_223_372_036_854_775_807));
}

#[test]
fn negative_zero_and_one_are_not_prime() {
    assert!(!is_prime(-7));
    assert!(!is_prime(0));
    assert!(!is_prime(1));
}

#[test]
fn first_factor_values() {
    assert_eq!(firstfac(2), 2);
    assert_eq!(firstfac(15), 3);
    assert_eq!(firstfac(49), 7);
    assert_eq!(firstfac(97), 97);
    assert_eq!(firstfac(91), 7);
    assert_eq!(firstfac(1), 1);
    assert_eq!(firstfac(0), 2);
    assert_eq!(firstfac(-4), 2);
    assert_eq!(firstfac(-9), -9);
}

#[test]
fn method_must_be_is_prime() {
    assert!(validate_method("isPrime").is_ok());
    let err = validate_method("isprime").unwrap_err();
    assert_eq!(err.code, "Method must be isPrime");
    assert!(validate_method("").is_err());
}
