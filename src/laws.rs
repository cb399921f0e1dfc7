//! Facts that hold across the engines and their queries.
use crate::oracle::{cap_of, Algorithm};
use crate::primes::{is_prime, is_previous_prime_within, outcome_within, Outcome};
use vstd::prelude::*;

verus! {

/// Whatever the engine, 0 and 1 are answered as not prime, never as
/// indeterminate.
pub proof fn lemma_below_two_not_prime(a: Algorithm, n: int)
    requires
        n < 2,
    ensures
        outcome_within(n, cap_of(a)) == Outcome::NotPrime,
{
}

/// On every number from 2 up that both engines can certify, they give the
/// same answer, and that answer is never indeterminate.
pub proof fn lemma_engines_agree(n: int)
    requires
        2 <= n < cap_of(Algorithm::BigNum),
        n < cap_of(Algorithm::Eratosthenes),
    ensures
        outcome_within(n, cap_of(Algorithm::BigNum)) == outcome_within(
            n,
            cap_of(Algorithm::Eratosthenes),
        ),
        outcome_within(n, cap_of(Algorithm::BigNum)) != Outcome::Indeterminate,
{
}

/// No engine finds a prime below 0, 1 or 2.
pub proof fn lemma_no_prime_before_two(a: Algorithm, n: int, r: Option<u128>)
    requires
        n <= 2,
        is_previous_prime_within(n, cap_of(a), r),
    ensures
        r is None,
{
    if let Some(p) = r {
        assert(is_prime(p as int));
    }
}

} // verus!
