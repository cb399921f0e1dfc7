use primality::big_prime::{trial_division, BigPrime};
use primality::oracle::{Algorithm, PrimeSolver};
use primality::primes::Outcome;
use primality::sieve::SieveOfEratosthenes;

fn naive_is_prime(n: u128) -> bool {
    if n < 2 {
        return false;
    }
    let mut d: u128 = 2;
    while d * d <= n {
        if n % d == 0 {
            return false;
        }
        d += 1;
    }
    true
}

#[test]
fn small_numbers_are_not_prime() {
    for algorithm in [Algorithm::BigNum, Algorithm::Eratosthenes] {
        let mut solver = algorithm.get_prime_solver();
        assert_eq!(solver.is_prime(0), Outcome::NotPrime);
        assert_eq!(solver.is_prime(1), Outcome::NotPrime);
        assert_eq!(solver.is_prime(2), Outcome::Prime);
    }
}

#[test]
fn million_and_one_is_composite() {
    let big = BigPrime::new();
    assert_eq!(big.is_prime(1_000_001), Outcome::NotPrime);
    let mut sieve = SieveOfEratosthenes::new();
    assert_eq!(sieve.is_prime(1_000_001), Outcome::NotPrime);
}

#[test]
fn billion_and_seven_is_prime() {
    let big = BigPrime::new();
    assert_eq!(big.is_prime(1_000_000_007), Outcome::Prime);
    assert_eq!(big.is_prime(1_000_000_009), Outcome::Prime);
    assert_eq!(big.is_prime(1_000_000_011), Outcome::NotPrime);
}

#[test]
fn neighbours_of_ten() {
    for algorithm in [Algorithm::BigNum, Algorithm::Eratosthenes] {
        let mut solver = algorithm.get_prime_solver();
        assert_eq!(solver.next_prime(10), Some(11));
        assert_eq!(solver.previous_prime(10), Some(7));
    }
}

#[test]
fn nothing_before_two() {
    for algorithm in [Algorithm::BigNum, Algorithm::Eratosthenes] {
        let mut solver = algorithm.get_prime_solver();
        assert_eq!(solver.previous_prime(2), None);
        assert_eq!(solver.previous_prime(1), None);
        assert_eq!(solver.previous_prime(0), None);
        assert_eq!(solver.previous_prime(3), Some(2));
    }
}

#[test]
fn next_prime_of_small_numbers() {
    for algorithm in [Algorithm::BigNum, Algorithm::Eratosthenes] {
        let mut solver = algorithm.get_prime_solver();
        assert_eq!(solver.next_prime(0), Some(2));
        assert_eq!(solver.next_prime(1), Some(2));
        assert_eq!(solver.next_prime(2), Some(3));
        assert_eq!(solver.next_prime(3), Some(5));
        assert_eq!(solver.next_prime(113), Some(127));
        assert_eq!(solver.previous_prime(127), Some(113));
    }
}

#[test]
fn large_prime_near_64_bits() {
    let big = BigPrime::new();
    assert_eq!(big.is_prime(18_446_744_073_709_551_557), Outcome::Prime);
    let mut sieve = SieveOfEratosthenes::new();
    assert_eq!(sieve.is_prime(18_446_744_073_709_551_557), Outcome::Indeterminate);
}

#[test]
fn trial_division_beyond_64_bits_is_indeterminate() {
    let big = BigPrime::new();
    assert_eq!(big.is_prime(18_446_744_073_709_551_616), Outcome::Indeterminate);
    assert_eq!(big.is_prime(u128::MAX), Outcome::Indeterminate);
    assert_eq!(big.next_prime(u128::MAX), None);
    assert_eq!(big.next_prime(18_446_744_073_709_551_615), None);
    assert_eq!(big.previous_prime(18_446_744_073_709_551_617), None);
}

#[test]
fn sieve_beyond_its_cap_is_indeterminate() {
    let mut sieve = SieveOfEratosthenes::new();
    assert_eq!(sieve.is_prime(4_294_967_296), Outcome::Indeterminate);
    assert_eq!(sieve.next_prime(4_294_967_295), None);
    assert_eq!(sieve.previous_prime(4_294_967_297), None);
    assert_eq!(sieve.table_bound(), 0);
}

#[test]
fn engines_agree_on_small_numbers() {
    let big = BigPrime::new();
    let mut sieve = SieveOfEratosthenes::new();
    for n in 0..5000u128 {
        let expected = if naive_is_prime(n) { Outcome::Prime } else { Outcome::NotPrime };
        assert_eq!(big.is_prime(n), expected);
        assert_eq!(sieve.is_prime(n), expected);
    }
}

#[test]
fn neighbours_agree_with_naive_search() {
    let big = BigPrime::new();
    let mut sieve = SieveOfEratosthenes::new();
    for n in 0..600u128 {
        let mut above = n + 1;
        while !naive_is_prime(above) {
            above += 1;
        }
        assert_eq!(big.next_prime(n), Some(above));
        assert_eq!(sieve.next_prime(n), Some(above));
        let below = (0..n).rev().find(|&c| naive_is_prime(c));
        assert_eq!(big.previous_prime(n), below);
        assert_eq!(sieve.previous_prime(n), below);
    }
}

#[test]
fn repeated_queries_give_the_same_answers() {
    let mut sieve = SieveOfEratosthenes::new();
    let first: Vec<Outcome> = (0..200u128).map(|n| sieve.is_prime(n)).collect();
    assert_eq!(sieve.is_prime(100_000), Outcome::NotPrime);
    let second: Vec<Outcome> = (0..200u128).map(|n| sieve.is_prime(n)).collect();
    assert_eq!(first, second);
    assert_eq!(sieve.next_prime(97), Some(101));
    assert_eq!(sieve.next_prime(97), Some(101));
}

#[test]
fn sieve_bound_never_shrinks() {
    let mut sieve = SieveOfEratosthenes::new();
    let mut last = sieve.table_bound();
    for n in [10u128, 5, 1000, 3, 70_000, 2, 70_001, 1 << 40] {
        sieve.is_prime(n);
        sieve.next_prime(n);
        sieve.previous_prime(n);
        let bound = sieve.table_bound();
        assert!(bound >= last);
        last = bound;
    }
    assert!(last > 70_001);
}

#[test]
fn sieve_grows_to_cover_a_query() {
    let mut sieve = SieveOfEratosthenes::new();
    assert_eq!(sieve.is_prime(101), Outcome::Prime);
    let bound = sieve.table_bound();
    assert!(bound > 101);
    assert_eq!(sieve.is_prime(7), Outcome::Prime);
    assert_eq!(sieve.table_bound(), bound);
}

#[test]
fn trial_division_checks_divisors() {
    assert!(!trial_division(0));
    assert!(!trial_division(1));
    assert!(trial_division(2));
    assert!(trial_division(3));
    assert!(!trial_division(4));
    assert!(!trial_division(9));
    assert!(!trial_division(25));
    assert!(!trial_division(4_294_967_297));
    assert!(trial_division(4_294_967_291));
}

#[test]
fn solver_keeps_its_algorithm() {
    let solver = Algorithm::Eratosthenes.get_prime_solver();
    assert!(matches!(solver, PrimeSolver::Eratosthenes(_)));
    let solver = Algorithm::BigNum.get_prime_solver();
    assert!(matches!(solver, PrimeSolver::BigNum(_)));
}
