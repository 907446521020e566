use algorithms::number_theory::linear_sieve;

#[test]
fn front_100() {
    assert_eq!(
        linear_sieve(100),
        [
            2, 3, 5, 7, 11, 13, 17, 19, 23, 29, 31, 37, 41, 43, 47, 53, 59, 61, 67, 71, 73, 79,
            83, 89, 97,
        ]
    );
}

#[test]
fn illegal_usage() {
    assert_eq!(linear_sieve(0), []);
    assert_eq!(linear_sieve(1), []);
}

#[test]
fn once() {
    assert_eq!(linear_sieve(2), [2]);
}

#[test]
fn sieve_counts_primes_below_ten_thousand() {
    let primes = linear_sieve(10_000);
    assert_eq!(primes.len(), 1229);
    assert_eq!(primes.last(), Some(&9973));
    assert_eq!(linear_sieve(97).last(), Some(&97));
    assert_eq!(linear_sieve(96).last(), Some(&89));
}
