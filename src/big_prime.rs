//! The trial-division engine: certifies any number below 2^64 by dividing it
//! by 2 and by the odd numbers up to its square root.
use crate::primes::{
    is_next_prime_within, is_prime, is_previous_prime_within, lemma_even_not_divides_odd,
    lemma_no_factor_below_square, no_factor_below, no_prime_between, outcome_within, Outcome,
};
use vstd::prelude::*;

verus! {

/// Every number below this bound can be certified by trial division.
pub open spec fn big_prime_cap() -> int {
    0x1_0000_0000_0000_0000
}

/// Whether `n` is prime, by trial division up to the square root of `n`.
pub fn trial_division(n: u64) -> (r: bool)
    ensures
        r == is_prime(n as int),
{
    if n < 2 {
        return false;
    }
    if n % 2 == 0 {
        if n != 2 {
            assert(!is_prime(n as int)) by {
                assert((n as int) % 2 == 0);
            }
        }
        return n == 2;
    }
    let mut d: u64 = 3;
    let mut square: u128 = 9;
    while square <= n as u128
        invariant
            3 <= d <= n,
            square == d * d,
            d % 2 == 1,
            n % 2 == 1,
            no_factor_below(n as int, d as int),
        decreases n - d,
    {
        let dd: u64 = d;
        assert(dd < 0x1_0000_0000 && dd + 2 <= n) by (nonlinear_arith)
            requires
                dd * dd <= n,
                n <= 0xffff_ffff_ffff_ffff,
                dd >= 3,
        ;
        if n % d == 0 {
            assert(!is_prime(n as int)) by {
                assert((n as int) % (d as int) == 0);
            }
            return false;
        }
        proof {
            lemma_even_not_divides_odd(n as int, d + 1);
        }
        assert((d + 2) * (d + 2) == d * d + 4 * d + 4) by (nonlinear_arith);
        square = square + 4 * (d as u128) + 4;
        d = d + 2;
    }
    proof {
        lemma_no_factor_below_square(n as int, d as int);
    }
    true
}

/// The trial-division engine. It keeps no state.
pub struct BigPrime {}

impl BigPrime {
    pub fn new() -> (r: BigPrime) {
        BigPrime {  }
    }

    /// Whether `n` is prime; `Indeterminate` from 2^64 on.
    pub fn is_prime(&self, n: u128) -> (r: Outcome)
        ensures
            r == outcome_within(n as int, big_prime_cap()),
    {
        if n < 2 {
            Outcome::NotPrime
        } else if n > 0xffff_ffff_ffff_ffff {
            Outcome::Indeterminate
        } else if trial_division(n as u64) {
            Outcome::Prime
        } else {
            Outcome::NotPrime
        }
    }

    /// The smallest prime above `n`, if it lies below 2^64.
    pub fn next_prime(&self, n: u128) -> (r: Option<u128>)
        ensures
            is_next_prime_within(n as int, big_prime_cap(), r),
    {
        if n >= 0xffff_ffff_ffff_ffff {
            return None;
        }
        let mut c: u128 = n + 1;
        while c <= 0xffff_ffff_ffff_ffff
            invariant
                n < c <= big_prime_cap(),
                no_prime_between(n as int, c as int),
            decreases big_prime_cap() - c,
        {
            if trial_division(c as u64) {
                return Some(c);
            }
            if c % 2 == 1 && c >= 3 && c < 0xffff_ffff_ffff_ffff {
                assert(!is_prime(c + 1)) by {
                    assert((c + 1) % 2 == 0);
                }
                c = c + 2;
            } else {
                c = c + 1;
            }
        }
        None
    }

    /// The largest prime below `n`; none when `n <= 2` or `n > 2^64`.
    pub fn previous_prime(&self, n: u128) -> (r: Option<u128>)
        ensures
            is_previous_prime_within(n as int, big_prime_cap(), r),
    {
        if n <= 2 || n > 0x1_0000_0000_0000_0000 {
            return None;
        }
        let mut c: u128 = n - 1;
        while c >= 2
            invariant
                1 <= c < n <= big_prime_cap(),
                no_prime_between(c as int, n as int),
            decreases c,
        {
            if trial_division(c as u64) {
                return Some(c);
            }
            if c % 2 == 1 && c >= 5 {
                assert(!is_prime(c - 1)) by {
                    assert((c - 1) % 2 == 0);
                }
                c = c - 2;
            } else {
                c = c - 1;
            }
        }
        assert(is_prime(2));
        None
    }
}

} // verus!
