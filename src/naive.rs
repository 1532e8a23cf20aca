//! Trial division by every integer up to the square root, with nothing kept between calls.
use vstd::prelude::*;

use crate::prime_generator::PrimeGenerator;
use crate::primes::{
    has_divisor_up_to, is_prime, lemma_no_primes_below_two, lemma_small_divisor, primes_in,
    square_sat, square_saturating,
};

verus! {

/// A generator that finds each prime anew by trial division.
#[derive(Debug, Default)]
pub struct Naive;

impl PrimeGenerator for Naive {
    open spec fn wf(&self) -> bool {
        true
    }

    open spec fn inclusive_upper() -> bool {
        true
    }

    fn generate(&mut self, min: u64, max: u64) -> (r: Vec<u64>) {
        let mut vec: Vec<u64> = Vec::new();
        let start: u64 = if min > 2 {
            min
        } else {
            2
        };
        proof {
            lemma_no_primes_below_two(min as int, start as int, max as int);
        }
        if start > max {
            return vec;
        }
        let mut candidate: u64 = start;
        // `max_factor` is the least integer whose square reaches `candidate`, tracked without
        // extracting a root; `max_factor_through` is that square, saturated.
        let mut max_factor: u64 = 0;
        let mut max_factor_through: u64 = 2;
        loop
            invariant
                2 <= start <= candidate <= max,
                primes_in(min as int, max as int) == primes_in(start as int, max as int),
                vec@ == primes_in(start as int, candidate - 1),
                max_factor_through == if max_factor == 0 {
                    2
                } else {
                    square_sat(max_factor)
                },
                max_factor == 0 || (candidate >= 3 && (max_factor - 1) * (max_factor - 1)
                    < candidate),
            decreases max - candidate,
        {
            while candidate > max_factor_through
                invariant
                    2 <= candidate,
                    max_factor_through == if max_factor == 0 {
                        2
                    } else {
                        square_sat(max_factor)
                    },
                    max_factor == 0 || (candidate >= 3 && (max_factor - 1) * (max_factor - 1)
                        < candidate),
                decreases candidate - max_factor,
            {
                assert(max_factor == 0 || max_factor_through == max_factor * max_factor);
                assert(max_factor < candidate) by (nonlinear_arith)
                    requires
                        candidate > max_factor_through,
                        max_factor == 0 || max_factor_through == max_factor * max_factor,
                ;
                assert((max_factor as int) * (max_factor as int) < candidate);
                max_factor += 1;
                max_factor_through = square_saturating(max_factor);
            }
            assert(max_factor < 0x1_0000_0001) by (nonlinear_arith)
                requires
                    max_factor == 0 || (max_factor - 1) * (max_factor - 1) < candidate,
                    candidate <= u64::MAX,
            ;
            let composite = has_divisor_up_to(candidate, max_factor);
            proof {
                lemma_trial_division(candidate as int, max_factor as int, composite);
            }
            if !composite {
                vec.push(candidate);
            }
            assert(vec@ == primes_in(start as int, candidate as int));
            if candidate == max {
                return vec;
            }
            candidate += 1;
        }
    }
}

/// What trial division by every integer in `[2, m]` decides about `c`, given how `m` was chosen.
proof fn lemma_trial_division(c: int, m: int, composite: bool)
    requires
        2 <= c <= u64::MAX,
        0 <= m,
        c <= if m == 0 {
            2
        } else if m < 0x1_0000_0000 {
            m * m
        } else {
            u64::MAX as int
        },
        m == 0 || (c >= 3 && (m - 1) * (m - 1) < c),
        composite == exists|d: int| 2 <= d <= m && #[trigger] (c % d) == 0,
    ensures
        is_prime(c) == !composite,
{
    if composite {
        let d = choose|d: int| 2 <= d <= m && #[trigger] (c % d) == 0;
        assert(m < c) by (nonlinear_arith)
            requires
                m >= 1,
                c >= 3,
                (m - 1) * (m - 1) < c,
        ;
    } else if m == 0 {
        assert(c == 2);
    } else {
        assert(c <= m * m) by (nonlinear_arith)
            requires
                m >= 0x1_0000_0000 ==> c <= u64::MAX,
                m < 0x1_0000_0000 ==> c <= m * m,
        ;
        if !is_prime(c) {
            let d = lemma_small_divisor(c, m);
        }
    }
}

} // verus!
