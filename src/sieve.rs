//! The sieve engine: a table of the primality of every odd number below a
//! bound, built by the Sieve of Eratosthenes and rebuilt larger on demand.
use crate::primes::{
    is_next_prime_within, is_prime, is_previous_prime_within, lemma_cofactor,
    lemma_divides_trans, lemma_even_not_divides_odd, lemma_no_factor_below_square,
    lemma_product_divisible, no_factor_below, no_prime_between, outcome_within, Outcome,
};
use vstd::prelude::*;

verus! {

/// Every number below this bound can be certified by the sieve engine; the
/// table never grows beyond it.
pub open spec fn sieve_cap() -> int {
    0x1_0000_0000
}

/// Two odd multiples of an odd `p` less than `2 * p` apart are equal.
proof fn lemma_odd_multiples_apart(k: int, m: int, p: int)
    requires
        p >= 1,
        p % 2 == 1,
        k % 2 == 1,
        m % 2 == 1,
        k % p == 0,
        m % p == 0,
        m <= k < m + 2 * p,
    ensures
        k == m,
{
    lemma_cofactor(k, p);
    lemma_cofactor(m, p);
    let a = k / p;
    let b = m / p;
    assert(a == b || a == b + 1) by (nonlinear_arith)
        requires
            k == p * a,
            m == p * b,
            m <= k < m + 2 * p,
            p > 0,
    ;
    if a == b + 1 {
        assert(k == m + p) by (nonlinear_arith)
            requires
                k == p * a,
                m == p * b,
                a == b + 1,
        ;
    }
}

/// Striking the multiples of `p` from `p * p` on, among odd numbers, turns
/// "no factor below `p`" into "no factor below `p + 2`".
proof fn lemma_strike_step(k: int, p: int)
    requires
        p >= 3,
        p % 2 == 1,
        k % 2 == 1,
        k >= 1,
    ensures
        no_factor_below(k, p + 2) == (no_factor_below(k, p) && !(p * p <= k && k % p == 0)),
{
    if k >= 2 && p + 1 < k {
        lemma_even_not_divides_odd(k, p + 1);
    }
    if no_factor_below(k, p) && k % p == 0 && p < k && k < p * p {
        lemma_cofactor(k, p);
        let a = k / p;
        assert(2 <= a < p && a < k) by (nonlinear_arith)
            requires
                k == p * a,
                p < k < p * p,
                p >= 3,
        ;
        lemma_product_divisible(p, a);
        assert(k % a == 0);
    }
    if p * p <= k && k % p == 0 {
        assert(p < k) by (nonlinear_arith)
            requires
                p * p <= k,
                p >= 3,
        ;
    }
}

/// When `p` has a smaller factor, so do its multiples: among odd numbers,
/// having no factor below `p` is then having none below `p + 2`.
proof fn lemma_composite_step(k: int, p: int)
    requires
        p >= 3,
        p % 2 == 1,
        k % 2 == 1,
        !no_factor_below(p, p),
    ensures
        no_factor_below(k, p + 2) == no_factor_below(k, p),
{
    if k >= 2 && p + 1 < k {
        lemma_even_not_divides_odd(k, p + 1);
    }
    if no_factor_below(k, p) && p < k && k % p == 0 {
        let d = choose|d: int| 2 <= d < p && d < p && #[trigger] (p % d) == 0;
        lemma_divides_trans(d, p, k);
        assert(k % d == 0);
    }
}

/// The table of odd numbers below `2 * half`: entry `i` tells whether
/// `2 * i + 1` is prime.
fn odd_sieve(half: usize) -> (t: Vec<bool>)
    requires
        half <= 0x8000_0000,
    ensures
        t@.len() == half,
        forall|i: int| 0 <= i < half ==> #[trigger] t@[i] == is_prime(2 * i + 1),
{
    let mut t: Vec<bool> = Vec::new();
    let mut i: usize = 0;
    while i < half
        invariant
            i <= half,
            t@.len() == i,
            forall|j: int| 0 <= j < i ==> #[trigger] t@[j] == (j != 0),
        decreases half - i,
    {
        t.push(i != 0);
        i = i + 1;
    }
    assert forall|j: int| 0 <= j < half implies #[trigger] t@[j] == no_factor_below(2 * j + 1, 3) by {
        assert((2 * j + 1) % 2 == 1);
    }
    let limit: u64 = 2 * (half as u64);
    let mut p: u64 = 3;
    let mut square: u64 = 9;
    while square < limit
        invariant
            t@.len() == half,
            limit == 2 * half,
            limit <= 0x1_0000_0000,
            3 <= p <= limit + 3,
            p % 2 == 1,
            square == p * p,
            forall|j: int| 0 <= j < half ==> #[trigger] t@[j] == no_factor_below(2 * j + 1, p as int),
        decreases limit + 3 - p,
    {
        let pp: u64 = p;
        assert(pp < limit && pp + 2 <= limit && pp < 0x1_0000) by (nonlinear_arith)
            requires
                pp * pp < limit,
                limit <= 0x1_0000_0000,
                pp >= 3,
        ;
        let is_candidate_prime: bool = t[(p / 2) as usize];
        assert(t@[(p / 2) as int] == no_factor_below(p as int, p as int));
        if is_candidate_prime {
            let mut m: u64 = square;
            assert((m as int) % (p as int) == 0) by {
                lemma_product_divisible(p as int, p as int);
            }
            assert(m % 2 == 1) by {
                let h = (p / 2) as int;
                assert(m == 2 * (2 * h * h + 2 * h) + 1) by (nonlinear_arith)
                    requires
                        m == p * p,
                        p == 2 * h + 1,
                ;
            }
            while m < limit
                invariant
                    t@.len() == half,
                    limit == 2 * half,
                    limit <= 0x1_0000_0000,
                    3 <= p < 0x1_0000,
                    p % 2 == 1,
                    square == p * p,
                    square <= m < limit + 2 * p,
                    m % 2 == 1,
                    m % p == 0,
                    forall|j: int|
                        0 <= j < half ==> #[trigger] t@[j] == (no_factor_below(2 * j + 1, p as int)
                            && !(square <= 2 * j + 1 < m && (2 * j + 1) % (p as int) == 0)),
                decreases limit + 2 * p - m,
            {
                let idx: usize = (m / 2) as usize;
                t.set(idx, false);
                assert forall|j: int| 0 <= j < half implies #[trigger] t@[j] == (no_factor_below(
                    2 * j + 1,
                    p as int,
                ) && !(square <= 2 * j + 1 < m + 2 * p && (2 * j + 1) % (p as int) == 0)) by {
                    if j != idx as int && m <= 2 * j + 1 < m + 2 * p && (2 * j + 1) % (p as int)
                        == 0 {
                        lemma_odd_multiples_apart(2 * j + 1, m as int, p as int);
                    }
                }
                assert(((m + 2 * p) as int) % (p as int) == 0) by {
                    lemma_cofactor(m as int, p as int);
                    let q = (m as int) / (p as int);
                    assert((m + 2 * p) as int == (p as int) * (q + 2)) by (nonlinear_arith)
                        requires
                            m == p * q,
                    ;
                    lemma_product_divisible(p as int, q + 2);
                }
                m = m + 2 * p;
            }
            assert forall|j: int| 0 <= j < half implies #[trigger] t@[j] == no_factor_below(
                2 * j + 1,
                p + 2,
            ) by {
                lemma_strike_step(2 * j + 1, p as int);
            }
        } else {
            assert forall|j: int| 0 <= j < half implies #[trigger] t@[j] == no_factor_below(
                2 * j + 1,
                p + 2,
            ) by {
                lemma_composite_step(2 * j + 1, p as int);
            }
        }
        assert((p + 2) * (p + 2) == p * p + 4 * p + 4) by (nonlinear_arith);
        square = square + 4 * p + 4;
        p = p + 2;
    }
    assert forall|i: int| 0 <= i < half implies #[trigger] t@[i] == is_prime(2 * i + 1) by {
        if t@[i] {
            lemma_no_factor_below_square(2 * i + 1, p as int);
        }
    }
    t
}

/// The sieve engine. It owns a table of the odd numbers below its bound,
/// which only ever grows.
pub struct SieveOfEratosthenes {
    /// Entry `i` tells whether `2 * i + 1` is prime.
    odd_table: Vec<bool>,
}

impl SieveOfEratosthenes {
    /// Every number below this bound has its answer in the table.
    pub closed spec fn bound(&self) -> int {
        2 * self.odd_table@.len() as int
    }

    /// The table's answer for `k`, below the bound: even numbers are read off
    /// directly, odd ones from the table.
    pub closed spec fn says_prime(&self, k: int) -> bool {
        if k % 2 == 0 {
            k == 2
        } else {
            self.odd_table@[k / 2]
        }
    }

    /// The bound stays within the cap, and every entry of the table is right.
    pub closed spec fn wf(&self) -> bool {
        &&& self.bound() <= sieve_cap()
        &&& forall|i: int|
            0 <= i < self.odd_table@.len() ==> #[trigger] self.odd_table@[i] == is_prime(2 * i + 1)
    }

    /// Every answer the table holds is right.
    pub proof fn lemma_says_prime(&self, k: int)
        requires
            self.wf(),
            0 <= k < self.bound(),
        ensures
            self.says_prime(k) == is_prime(k),
    {
        if k % 2 == 0 && k != 2 && k >= 2 {
            assert(k % 2 == 0);
        }
        if k % 2 == 1 {
            assert(self.odd_table@[k / 2] == is_prime(2 * (k / 2) + 1));
        }
    }

    /// Growing a table never changes an answer it already held: two
    /// well-formed tables agree on every number below the smaller bound.
    pub proof fn lemma_growth_keeps_answers(&self, grown: &SieveOfEratosthenes)
        requires
            self.wf(),
            grown.wf(),
            self.bound() <= grown.bound(),
        ensures
            forall|k: int| 0 <= k < self.bound() ==> #[trigger] self.says_prime(k) == grown.says_prime(k),
    {
        assert forall|k: int| 0 <= k < self.bound() implies #[trigger] self.says_prime(k) == grown.says_prime(k) by {
            self.lemma_says_prime(k);
            grown.lemma_says_prime(k);
        }
    }

    /// An engine with an empty table.
    pub fn new() -> (r: SieveOfEratosthenes)
        ensures
            r.wf(),
            r.bound() == 0,
    {
        SieveOfEratosthenes { odd_table: Vec::new() }
    }

    /// The current bound of the table.
    pub fn table_bound(&self) -> (r: u64)
        requires
            self.wf(),
        ensures
            r == self.bound(),
    {
        2 * (self.odd_table.len() as u64)
    }

    /// Grows the table, if need be, so that it covers `n`: to twice its bound,
    /// or further when `n` needs it, and never beyond the cap. Fails, leaving
    /// the table as it is, when `n` is not below the cap.
    fn cover(&mut self, n: u128) -> (ok: bool)
        requires
            old(self).wf(),
        ensures
            final(self).wf(),
            ok == (n < sieve_cap()),
            ok ==> n < final(self).bound(),
            final(self).bound() >= old(self).bound(),
    {
        if n >= 0x1_0000_0000 {
            return false;
        }
        let half: usize = self.odd_table.len();
        if n < 2 * (half as u128) {
            return true;
        }
        let wanted: usize = (n / 2 + 1) as usize;
        let doubled: usize = 2 * half;
        let mut new_half: usize = if doubled >= wanted {
            doubled
        } else {
            wanted
        };
        if new_half > 0x8000_0000 {
            new_half = 0x8000_0000;
        }
        self.odd_table = odd_sieve(new_half);
        true
    }

    /// The table's answer for `k`, which lies below the bound.
    fn lookup(&self, k: u128) -> (r: bool)
        requires
            self.wf(),
            2 <= k < self.bound(),
        ensures
            r == is_prime(k as int),
    {
        proof {
            self.lemma_says_prime(k as int);
        }
        if k % 2 == 0 {
            k == 2
        } else {
            self.odd_table[(k / 2) as usize]
        }
    }

    /// Whether `n` is prime; `Indeterminate` from the cap on.
    pub fn is_prime(&mut self, n: u128) -> (r: Outcome)
        requires
            old(self).wf(),
        ensures
            final(self).wf(),
            final(self).bound() >= old(self).bound(),
            r == outcome_within(n as int, sieve_cap()),
            n < 2 ==> r == Outcome::NotPrime,
    {
        if n < 2 {
            return Outcome::NotPrime;
        }
        if !self.cover(n) {
            return Outcome::Indeterminate;
        }
        if self.lookup(n) {
            Outcome::Prime
        } else {
            Outcome::NotPrime
        }
    }

    /// The smallest prime above `n`, if it lies below the cap.
    pub fn next_prime(&mut self, n: u128) -> (r: Option<u128>)
        requires
            old(self).wf(),
        ensures
            final(self).wf(),
            final(self).bound() >= old(self).bound(),
            is_next_prime_within(n as int, sieve_cap(), r),
    {
        if n >= 0xffff_ffff {
            return None;
        }
        let mut c: u128 = n + 1;
        while c < 0x1_0000_0000
            invariant
                self.wf(),
                self.bound() >= old(self).bound(),
                n < c <= sieve_cap(),
                no_prime_between(n as int, c as int),
            decreases sieve_cap() - c,
        {
            self.cover(c);
            if c >= 2 && self.lookup(c) {
                return Some(c);
            }
            c = c + 1;
        }
        None
    }

    /// The largest prime below `n`; none when `n <= 2` or `n > 2^32`.
    pub fn previous_prime(&mut self, n: u128) -> (r: Option<u128>)
        requires
            old(self).wf(),
        ensures
            final(self).wf(),
            final(self).bound() >= old(self).bound(),
            is_previous_prime_within(n as int, sieve_cap(), r),
    {
        if n <= 2 || n > 0x1_0000_0000 {
            return None;
        }
        self.cover(n - 1);
        let mut c: u128 = n - 1;
        while c >= 2
            invariant
                self.wf(),
                self.bound() >= old(self).bound(),
                1 <= c < n <= sieve_cap(),
                n - 1 < self.bound(),
                no_prime_between(c as int, n as int),
            decreases c,
        {
            if self.lookup(c) {
                return Some(c);
            }
            c = c - 1;
        }
        assert(is_prime(2));
        None
    }
}

} // verus!
