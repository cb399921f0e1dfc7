//! The mathematical model: what it means to be prime, and the facts about
//! divisors that both engines rest on.
use vstd::arithmetic::div_mod::{lemma_fundamental_div_mod, lemma_mod_multiples_basic};
use vstd::arithmetic::mul::lemma_mul_inequality;
use vstd::prelude::*;

verus! {

/// `n` is prime: at least 2, and no integer in `[2, n)` divides it.
pub open spec fn is_prime(n: int) -> bool {
    n >= 2 && forall|d: int| 2 <= d < n ==> #[trigger] (n % d) != 0
}

/// `n` is at least 2 and has no divisor `d` with `2 <= d < bound` and `d < n`.
pub open spec fn no_factor_below(n: int, bound: int) -> bool {
    n >= 2 && forall|d: int| 2 <= d < bound && d < n ==> #[trigger] (n % d) != 0
}

/// No prime lies in the open interval `(lo, hi)`.
pub open spec fn no_prime_between(lo: int, hi: int) -> bool {
    forall|c: int| lo < c < hi ==> !#[trigger] is_prime(c)
}

/// The three answers a primality query can give.
#[derive(Debug, Clone, Copy, PartialEq, Eq, Structural)]
pub enum Outcome {
    Prime,
    NotPrime,
    Indeterminate,
}

/// The answer owed for `n` by an engine that can certify every number below `cap`.
pub open spec fn outcome_within(n: int, cap: int) -> Outcome {
    if n < 2 {
        Outcome::NotPrime
    } else if n >= cap {
        Outcome::Indeterminate
    } else if is_prime(n) {
        Outcome::Prime
    } else {
        Outcome::NotPrime
    }
}

/// `r` is the answer owed for a search of the smallest prime above `n` by an
/// engine that can certify every number below `cap`: that prime if it lies
/// below `cap`, and nothing if no prime lies between `n` and `cap`.
pub open spec fn is_next_prime_within(n: int, cap: int, r: Option<u128>) -> bool {
    match r {
        Some(p) => n < p < cap && is_prime(p as int) && no_prime_between(n, p as int),
        None => no_prime_between(n, cap),
    }
}

/// `r` is the answer owed for a search of the largest prime below `n` by an
/// engine that can certify every number below `cap`: that prime, or nothing
/// when `n <= 2` or when the numbers just below `n` are beyond `cap`.
pub open spec fn is_previous_prime_within(n: int, cap: int, r: Option<u128>) -> bool {
    match r {
        Some(p) => p < n <= cap && is_prime(p as int) && no_prime_between(p as int, n),
        None => n <= 2 || n > cap,
    }
}

/// A divisor of `n` yields the cofactor `n / d`.
pub proof fn lemma_cofactor(n: int, d: int)
    requires
        d > 0,
        n % d == 0,
    ensures
        n == d * (n / d),
{
    lemma_fundamental_div_mod(n, d);
}

/// `d * k` is divisible by both of its factors.
pub proof fn lemma_product_divisible(d: int, k: int)
    requires
        d > 0,
        k > 0,
    ensures
        (d * k) % d == 0,
        (d * k) % k == 0,
{
    lemma_mod_multiples_basic(k, d);
    assert(k * d == d * k) by (nonlinear_arith);
    lemma_mod_multiples_basic(d, k);
}

/// Divisibility is transitive.
pub proof fn lemma_divides_trans(a: int, b: int, c: int)
    requires
        a > 0,
        b > 0,
        b % a == 0,
        c % b == 0,
    ensures
        c % a == 0,
{
    lemma_cofactor(b, a);
    lemma_cofactor(c, b);
    let x = b / a;
    let y = c / b;
    assert(c == (x * y) * a) by (nonlinear_arith)
        requires
            c == b * y,
            b == a * x,
    ;
    lemma_mod_multiples_basic(x * y, a);
}

/// An even number never divides an odd one.
pub proof fn lemma_even_not_divides_odd(n: int, e: int)
    requires
        n % 2 == 1,
        e > 0,
        e % 2 == 0,
    ensures
        n % e != 0,
{
    if n % e == 0 {
        lemma_divides_trans(2, e, n);
    }
}

/// Below `bound * bound`, having no factor under `bound` is being prime.
pub proof fn lemma_no_factor_below_square(n: int, bound: int)
    requires
        bound >= 2,
        n < bound * bound,
        no_factor_below(n, bound),
    ensures
        is_prime(n),
{
    assert forall|d: int| 2 <= d < n implies #[trigger] (n % d) != 0 by {
        if n % d == 0 {
            lemma_cofactor(n, d);
            let e = n / d;
            assert(e >= 2 && e < n) by (nonlinear_arith)
                requires
                    n == d * e,
                    2 <= d < n,
            ;
            assert(d < bound || e < bound) by {
                if d >= bound && e >= bound {
                    lemma_mul_inequality(bound, d, bound);
                    lemma_mul_inequality(bound, e, d);
                    assert(d * e == e * d) by (nonlinear_arith);
                }
            }
            if d >= bound {
                lemma_product_divisible(d, e);
                assert(n % e == 0);
            }
        }
    }
}

} // verus!
