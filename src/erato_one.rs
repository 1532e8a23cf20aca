//! Trial division by the primes already found, remembering every prime between calls.
use vstd::prelude::*;

use crate::naive::Naive;
use crate::prime_generator::{top_of, PrimeGenerator};
use crate::primes::{
    is_prime, lemma_no_primes_below_two, lemma_prime_by_trial, lemma_primes_in_facts,
    lemma_primes_in_within, primes_in, square_sat, square_saturating, within,
};

verus! {

/// A generator that keeps every prime it has found, and the bound up to which every integer
/// has been classified, so that later calls only test integers above that bound.
#[derive(Debug)]
pub struct EratoOne {
    max_tested: u64,
    primes: Vec<u64>,
}

impl EratoOne {
    /// Every integer up to this bound has been classified as prime or not.
    pub closed spec fn max_tested(&self) -> u64 {
        self.max_tested
    }

    /// The primes found so far, in ascending order.
    pub closed spec fn known(&self) -> Seq<u64> {
        self.primes@
    }

    /// One call `generate(min, max)` may turn `pre` into `post` and return `r`: the primes of
    /// `[min, max)`, after classifying every integer up to `max`; a call that asks for nothing
    /// above what is classified changes nothing.
    pub open spec fn generates(pre: EratoOne, post: EratoOne, min: u64, max: u64, r: Seq<u64>) -> bool {
        &&& post.wf()
        &&& r == primes_in(min as int, max - 1)
        &&& post.max_tested() == if max > pre.max_tested() {
            max
        } else {
            pre.max_tested()
        }
        &&& max <= pre.max_tested() ==> post == pre
    }

    /// Tests every integer of `(max_tested, max]` and records the primes among them.
    fn test_up_to(&mut self, max: u64)
        requires
            old(self).wf(),
            old(self).max_tested() < max,
        ensures
            final(self).wf(),
            final(self).max_tested() == max,
    {
        let mut candidate: u64 = self.max_tested + 1;
        // `max_factor` is the least integer whose square reaches `candidate`, carried from one
        // candidate to the next; `max_factor_until` is that square, saturated.
        let mut max_factor: u64 = 1;
        let mut max_factor_until: u64 = 0;
        loop
            invariant
                2 <= candidate <= max,
                self.primes@ == primes_in(2, candidate - 1),
                max_factor >= 1,
                max_factor_until == square_sat(max_factor) || (max_factor == 1
                    && max_factor_until == 0),
            decreases max - candidate,
        {
            while candidate > max_factor_until
                invariant
                    candidate >= 2,
                    max_factor >= 1,
                    max_factor_until == square_sat(max_factor) || (max_factor == 1
                        && max_factor_until == 0),
                decreases candidate - max_factor,
            {
                assert(max_factor < 0x1_0000_0000);
                assert(max_factor < candidate) by (nonlinear_arith)
                    requires
                        candidate >= 2,
                        candidate > max_factor_until,
                        max_factor >= 1,
                        max_factor_until == max_factor * max_factor || max_factor == 1,
                ;
                max_factor += 1;
                max_factor_until = square_saturating(max_factor);
            }
            proof {
                if max_factor >= 0x1_0000_0000 {
                    assert(max_factor * max_factor >= 0x1_0000_0000 * 0x1_0000_0000)
                        by (nonlinear_arith)
                        requires
                            max_factor >= 0x1_0000_0000,
                    ;
                }
                lemma_primes_in_facts(2, candidate - 1);
            }
            let composite = divisible_by_any(candidate, &self.primes, max_factor);
            proof {
                if composite {
                    let k = choose|k: int|
                        0 <= k < self.primes@.len() && self.primes@[k] <= max_factor
                            && #[trigger] ((candidate as int) % (self.primes@[k] as int)) == 0;
                    assert(!is_prime(candidate as int));
                } else {
                    assert forall|p: int|
                        2 <= p <= max_factor && p < candidate && is_prime(
                            p,
                        ) implies #[trigger] ((candidate as int) % p) != 0 by {
                        let k = choose|k: int|
                            0 <= k < self.primes@.len() && self.primes@[k] == p as u64;
                    }
                    lemma_prime_by_trial(candidate as int, max_factor as int);
                }
            }
            if !composite {
                self.primes.push(candidate);
            }
            if candidate == max {
                self.max_tested = max;
                return;
            }
            candidate += 1;
        }
    }
}

/// Whether one of the values of `divisors` that do not exceed `m` divides `c`. The values are
/// at least 2 and ascending, so the scan stops at the first one above `m`.
fn divisible_by_any(c: u64, divisors: &Vec<u64>, m: u64) -> (r: bool)
    requires
        forall|i: int| 0 <= i < divisors@.len() ==> #[trigger] divisors@[i] >= 2,
        forall|i: int, j: int|
            0 <= i < j < divisors@.len() ==> #[trigger] divisors@[i] < #[trigger] divisors@[j],
    ensures
        r == exists|k: int|
            0 <= k < divisors@.len() && divisors@[k] <= m && #[trigger] ((c as int) % (
            divisors@[k] as int)) == 0,
{
    let mut k: usize = 0;
    while k < divisors.len()
        invariant
            k <= divisors@.len(),
            forall|i: int| 0 <= i < divisors@.len() ==> #[trigger] divisors@[i] >= 2,
            forall|i: int, j: int|
                0 <= i < j < divisors@.len() ==> #[trigger] divisors@[i] < #[trigger] divisors@[j],
            forall|j: int|
                0 <= j < k ==> divisors@[j] > m || #[trigger] ((c as int) % (divisors@[j] as int))
                    != 0,
        decreases divisors@.len() - k,
    {
        let d = divisors[k];
        if d > m {
            assert forall|j: int| k <= j < divisors@.len() implies divisors@[j] > m by {
                if j > k {
                    assert(divisors@[k as int] < divisors@[j]);
                }
            }
            return false;
        }
        if c % d == 0 {
            return true;
        }
        k += 1;
    }
    false
}

impl Default for EratoOne {
    /// A generator that knows no prime yet: every integer up to 1 is classified.
    fn default() -> (r: EratoOne)
        ensures
            r.wf(),
            r.max_tested() == 1,
    {
        EratoOne { max_tested: 1, primes: Vec::new() }
    }
}

impl PrimeGenerator for EratoOne {
    open spec fn wf(&self) -> bool {
        &&& self.max_tested() >= 1
        &&& self.known() == primes_in(2, self.max_tested() as int)
    }

    open spec fn inclusive_upper() -> bool {
        false
    }

    fn generate(&mut self, min: u64, max: u64) -> (r: Vec<u64>)
        ensures
            EratoOne::generates(*old(self), *final(self), min, max, r@),
    {
        if max > self.max_tested {
            self.test_up_to(max);
        }
        let ghost f = within(min as int, max - 1);
        let ghost s = self.primes@;
        proof {
            lemma_primes_in_within(2, self.max_tested as int, min as int, max - 1);
            lemma_no_primes_below_two(min as int, if min > 2 { min as int } else { 2 }, max - 1);
        }
        let mut found: Vec<u64> = Vec::new();
        let mut i: usize = 0;
        while i < self.primes.len()
            invariant
                s == self.primes@,
                s == primes_in(2, self.max_tested as int),
                self.wf(),
                self.max_tested >= max,
                self.max_tested == if max > old(self).max_tested {
                    max
                } else {
                    old(self).max_tested
                },
                max <= old(self).max_tested ==> *self == *old(self),
                s.filter(f) == primes_in(min as int, max - 1),
                f == within(min as int, max - 1),
                i <= s.len(),
                found@ == s.take(i as int).filter(f),
            decreases s.len() - i,
        {
            let p = self.primes[i];
            if p >= max {
                // The known primes ascend: none from here on lies below `max`.
                proof {
                    lemma_primes_in_facts(2, self.max_tested as int);
                    let rest = s.skip(i as int);
                    assert forall|j: int| 0 <= j < rest.len() implies !f(#[trigger] rest[j]) by {
                        if j > 0 {
                            assert(s[i as int] < s[i + j]);
                        }
                    }
                    rest.lemma_all_neg_filter_empty(f);
                    assert(s =~= s.take(i as int) + rest);
                    Seq::filter_distributes_over_add(s.take(i as int), rest, f);
                    assert(found@ =~= s.filter(f));
                }
                return found;
            }
            proof {
                assert(s.take(i + 1) =~= s.take(i as int).push(p));
                s.take(i as int).lemma_filter_push(p, f);
                assert(f(p) == (min <= p));
            }
            if min <= p {
                found.push(p);
            }
            i += 1;
        }
        proof {
            assert(s.take(s.len() as int) =~= s);
        }
        found
    }
}

/// Asking the same range twice gives the same primes, and the second call changes nothing.
pub proof fn lemma_generate_idempotent(
    g0: EratoOne,
    g1: EratoOne,
    g2: EratoOne,
    min: u64,
    max: u64,
    r1: Seq<u64>,
    r2: Seq<u64>,
)
    requires
        g0.wf(),
        EratoOne::generates(g0, g1, min, max, r1),
        EratoOne::generates(g1, g2, min, max, r2),
    ensures
        r2 == r1,
        g2 == g1,
{
}

/// After a query up to `max1` and then one up to a larger `max2` from the same lower end, the
/// values of the second answer below `max1` are exactly the first answer.
pub proof fn lemma_generate_extends(
    g0: EratoOne,
    g1: EratoOne,
    g2: EratoOne,
    min: u64,
    max1: u64,
    max2: u64,
    r1: Seq<u64>,
    r2: Seq<u64>,
)
    requires
        g0.wf(),
        max1 <= max2,
        EratoOne::generates(g0, g1, min, max1, r1),
        EratoOne::generates(g1, g2, min, max2, r2),
    ensures
        r2.filter(within(0, max1 - 1)) == r1,
{
    lemma_primes_in_within(min as int, max2 - 1, 0, max1 - 1);
}

/// Where the upper end of a range is not a prime, the incremental generator and the naive one
/// return the same primes.
pub proof fn lemma_agrees_with_naive(min: u64, max: u64)
    requires
        !is_prime(max as int),
    ensures
        primes_in(min as int, top_of(EratoOne::inclusive_upper(), max)) == primes_in(
            min as int,
            top_of(Naive::inclusive_upper(), max),
        ),
{
}

} // verus!
