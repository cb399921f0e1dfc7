//! The two engines behind one interface, chosen once by an [`Algorithm`].
use crate::big_prime::{big_prime_cap, BigPrime};
use crate::primes::{is_next_prime_within, is_previous_prime_within, outcome_within, Outcome};
use crate::sieve::{sieve_cap, SieveOfEratosthenes};
use vstd::prelude::*;

verus! {

/// Which engine answers the queries.
#[derive(Debug, Clone, Copy, PartialEq, Eq, Structural)]
pub enum Algorithm {
    /// Trial division, for single large numbers.
    BigNum,
    /// The sieve of Eratosthenes over odd numbers, for many small ones.
    Eratosthenes,
}

impl Algorithm {
    /// A fresh engine of this kind; a sieve engine starts with an empty table.
    pub fn get_prime_solver(&self) -> (r: PrimeSolver)
        ensures
            r.wf(),
            r.algorithm() == *self,
            r.table_bound() == 0,
    {
        match *self {
            Algorithm::BigNum => PrimeSolver::BigNum(BigPrime::new()),
            Algorithm::Eratosthenes => PrimeSolver::Eratosthenes(SieveOfEratosthenes::new()),
        }
    }
}

/// The largest number each algorithm can certify, plus one.
pub open spec fn cap_of(a: Algorithm) -> int {
    match a {
        Algorithm::BigNum => big_prime_cap(),
        Algorithm::Eratosthenes => sieve_cap(),
    }
}

/// An engine of either kind, answering the same three queries.
pub enum PrimeSolver {
    BigNum(BigPrime),
    Eratosthenes(SieveOfEratosthenes),
}

impl PrimeSolver {
    /// The kind of engine.
    pub open spec fn algorithm(&self) -> Algorithm {
        match self {
            PrimeSolver::BigNum(_) => Algorithm::BigNum,
            PrimeSolver::Eratosthenes(_) => Algorithm::Eratosthenes,
        }
    }

    /// The bound of the sieve engine's table; trial division keeps no table.
    pub open spec fn table_bound(&self) -> int {
        match self {
            PrimeSolver::BigNum(_) => 0,
            PrimeSolver::Eratosthenes(s) => s.bound(),
        }
    }

    /// The engine's own invariant holds.
    pub open spec fn wf(&self) -> bool {
        match self {
            PrimeSolver::BigNum(_) => true,
            PrimeSolver::Eratosthenes(s) => s.wf(),
        }
    }

    /// Whether `n` is prime; `Indeterminate` beyond what the engine can certify.
    pub fn is_prime(&mut self, n: u128) -> (r: Outcome)
        requires
            old(self).wf(),
        ensures
            final(self).wf(),
            final(self).algorithm() == old(self).algorithm(),
            final(self).table_bound() >= old(self).table_bound(),
            r == outcome_within(n as int, cap_of(old(self).algorithm())),
            n < 2 ==> r == Outcome::NotPrime,
    {
        match self {
            PrimeSolver::BigNum(b) => b.is_prime(n),
            PrimeSolver::Eratosthenes(s) => s.is_prime(n),
        }
    }

    /// The smallest prime above `n`, if the engine can certify it.
    pub fn next_prime(&mut self, n: u128) -> (r: Option<u128>)
        requires
            old(self).wf(),
        ensures
            final(self).wf(),
            final(self).algorithm() == old(self).algorithm(),
            final(self).table_bound() >= old(self).table_bound(),
            is_next_prime_within(n as int, cap_of(old(self).algorithm()), r),
    {
        match self {
            PrimeSolver::BigNum(b) => b.next_prime(n),
            PrimeSolver::Eratosthenes(s) => s.next_prime(n),
        }
    }

    /// The largest prime below `n`, if there is one the engine can certify.
    pub fn previous_prime(&mut self, n: u128) -> (r: Option<u128>)
        requires
            old(self).wf(),
        ensures
            final(self).wf(),
            final(self).algorithm() == old(self).algorithm(),
            final(self).table_bound() >= old(self).table_bound(),
            is_previous_prime_within(n as int, cap_of(old(self).algorithm()), r),
    {
        match self {
            PrimeSolver::BigNum(b) => b.previous_prime(n),
            PrimeSolver::Eratosthenes(s) => s.previous_prime(n),
        }
    }
}

} // verus!
