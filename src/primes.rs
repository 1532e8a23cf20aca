//! The mathematical model: primality, and the ascending run of primes in a closed range.
use vstd::prelude::*;

verus! {

/// `n` is a prime: at least 2 and divisible by no integer in `[2, n)`.
pub open spec fn is_prime(n: int) -> bool {
    &&& n >= 2
    &&& forall|d: int| 2 <= d < n ==> #[trigger] (n % d) != 0
}

/// The primes in the closed range `[lo, hi]`, in ascending order.
pub open spec fn primes_in(lo: int, hi: int) -> Seq<u64>
    decreases hi - lo + 1,
{
    if hi < lo {
        Seq::empty()
    } else if is_prime(hi) {
        primes_in(lo, hi - 1).push(hi as u64)
    } else {
        primes_in(lo, hi - 1)
    }
}

/// Every element of `primes_in(lo, hi)` is a prime in `[lo, hi]`, the sequence is strictly
/// increasing, and every prime of `[lo, hi]` (below 2^64) occurs in it.
pub proof fn lemma_primes_in_facts(lo: int, hi: int)
    requires
        hi <= u64::MAX,
    ensures
        forall|i: int|
            0 <= i < primes_in(lo, hi).len() ==> {
                &&& lo <= #[trigger] primes_in(lo, hi)[i] <= hi
                &&& is_prime(primes_in(lo, hi)[i] as int)
            },
        forall|i: int, j: int|
            0 <= i < j < primes_in(lo, hi).len() ==> #[trigger] primes_in(lo, hi)[i]
                < #[trigger] primes_in(lo, hi)[j],
        forall|p: int| lo <= p <= hi && is_prime(p) ==> primes_in(lo, hi).contains(p as u64),
    decreases hi - lo + 1,
{
    if hi >= lo {
        lemma_primes_in_facts(lo, hi - 1);
        let s = primes_in(lo, hi - 1);
        if is_prime(hi) {
            assert forall|p: int| lo <= p <= hi && is_prime(p) implies primes_in(lo, hi).contains(
                p as u64,
            ) by {
                if p == hi {
                    assert(primes_in(lo, hi)[s.len() as int] == p as u64);
                } else {
                    let k = choose|k: int| 0 <= k < s.len() && s[k] == p as u64;
                    assert(primes_in(lo, hi)[k] == p as u64);
                }
            }
        }
    }
}

/// No prime lies below 2, so clamping the lower end of a query to 2 changes nothing.
pub proof fn lemma_no_primes_below_two(min: int, start: int, max: int)
    requires
        start == if min > 2 {
            min
        } else {
            2
        },
    ensures
        primes_in(min, max) == primes_in(start, max),
    decreases max - min + 1,
{
    if max >= min && min < 2 {
        if max >= start {
            lemma_no_primes_below_two(min, start, max - 1);
        } else {
            lemma_no_primes_below_two(min, start, max - 1);
        }
    }
}

/// The primes of `[lo, hi]` are those of `[lo, m]` followed by those of `(m, hi]`.
pub proof fn lemma_primes_in_split(lo: int, m: int, hi: int)
    requires
        lo - 1 <= m <= hi,
    ensures
        primes_in(lo, hi) == primes_in(lo, m) + primes_in(m + 1, hi),
    decreases hi - m,
{
    if hi == m {
        assert(primes_in(lo, m) + primes_in(m + 1, hi) =~= primes_in(lo, m));
    } else {
        lemma_primes_in_split(lo, m, hi - 1);
        if is_prime(hi) {
            assert(primes_in(lo, hi) =~= primes_in(lo, m) + primes_in(m + 1, hi));
        }
    }
}

/// The first `k + 1` primes of `[lo, hi]` are the primes of `[lo, p]`, where `p` is the last of
/// them.
pub proof fn lemma_primes_in_prefix(lo: int, hi: int, k: int)
    requires
        hi <= u64::MAX,
        0 <= k < primes_in(lo, hi).len(),
    ensures
        primes_in(lo, hi).take(k + 1) == primes_in(lo, primes_in(lo, hi)[k] as int),
    decreases hi - lo + 1,
{
    let s = primes_in(lo, hi - 1);
    if is_prime(hi) && k == s.len() {
        assert(primes_in(lo, hi).take(k + 1) =~= primes_in(lo, hi));
    } else {
        lemma_primes_in_prefix(lo, hi - 1, k);
        assert(primes_in(lo, hi).take(k + 1) =~= s.take(k + 1));
    }
}

/// The values `p` with `a <= p <= b`.
pub open spec fn within(a: int, b: int) -> spec_fn(u64) -> bool {
    |p: u64| a <= p <= b
}

/// Keeping the values of `[a, b]` from the primes of `[lo, hi]` leaves the primes of the
/// intersection of the two ranges.
pub proof fn lemma_primes_in_within(lo: int, hi: int, a: int, b: int)
    requires
        hi <= u64::MAX,
    ensures
        primes_in(lo, hi).filter(within(a, b)) == primes_in(
            if lo > a {
                lo
            } else {
                a
            },
            if hi < b {
                hi
            } else {
                b
            },
        ),
    decreases hi - lo + 1,
{
    broadcast use Seq::lemma_filter_push;

    let f = within(a, b);
    if hi < lo {
        assert(Seq::<u64>::empty().filter(f) =~= Seq::empty()) by {
            reveal(Seq::filter);
        }
    } else {
        lemma_primes_in_within(lo, hi - 1, a, b);
        if is_prime(hi) {
            assert(primes_in(lo, hi - 1).push(hi as u64).filter(f) == if f(hi as u64) {
                primes_in(lo, hi - 1).filter(f).push(hi as u64)
            } else {
                primes_in(lo, hi - 1).filter(f)
            });
        }
    }
}

/// Dividing is transitive: `p` divides `d` and `d` divides `n`, so `p` divides `n`.
proof fn lemma_divides_trans(n: int, d: int, p: int)
    requires
        n >= 0,
        d > 0,
        p > 0,
        n % d == 0,
        d % p == 0,
    ensures
        n % p == 0,
{
    vstd::arithmetic::div_mod::lemma_fundamental_div_mod(n, d);
    vstd::arithmetic::div_mod::lemma_fundamental_div_mod(d, p);
    let k = n / d;
    let j = d / p;
    assert(n == p * (j * k)) by (nonlinear_arith)
        requires
            n == d * k,
            d == p * j,
    ;
    vstd::arithmetic::div_mod::lemma_mod_multiples_basic(j * k, p);
    assert((j * k) * p == p * (j * k)) by (nonlinear_arith);
}

/// Every integer from 2 on has a prime factor no larger than itself.
pub proof fn lemma_prime_factor(n: int) -> (p: int)
    requires
        n >= 2,
    ensures
        is_prime(p),
        p <= n,
        n % p == 0,
    decreases n,
{
    if is_prime(n) {
        vstd::arithmetic::div_mod::lemma_mod_self_0(n);
        n
    } else {
        let d = choose|d: int| 2 <= d < n && #[trigger] (n % d) == 0;
        let p = lemma_prime_factor(d);
        lemma_divides_trans(n, d, p);
        p
    }
}

/// A composite `c` with `c <= m * m` has a divisor in `[2, m]` that is below `c`.
pub proof fn lemma_small_divisor(c: int, m: int) -> (d: int)
    requires
        c >= 2,
        m >= 0,
        c <= m * m,
        !is_prime(c),
    ensures
        2 <= d <= m,
        d < c,
        c % d == 0,
{
    let d = choose|d: int| 2 <= d < c && #[trigger] (c % d) == 0;
    if d <= m {
        d
    } else {
        vstd::arithmetic::div_mod::lemma_fundamental_div_mod(c, d);
        let e = c / d;
        assert(c == e * d);
        assert(e >= 2 && e < c && e <= m) by (nonlinear_arith)
            requires
                c == e * d,
                d > m,
                m >= 0,
                c <= m * m,
                2 <= d < c,
        ;
        vstd::arithmetic::div_mod::lemma_mod_multiples_basic(d, e);
        assert(d * e == c) by (nonlinear_arith)
            requires
                c == e * d,
        ;
        e
    }
}

/// Trial division by primes: a `c` that no prime in `[2, m]` below `c` divides, with
/// `c <= m * m`, is prime.
pub proof fn lemma_prime_by_trial(c: int, m: int)
    requires
        c >= 2,
        m >= 0,
        c <= m * m,
        forall|p: int| 2 <= p <= m && p < c && is_prime(p) ==> #[trigger] (c % p) != 0,
    ensures
        is_prime(c),
{
    if !is_prime(c) {
        let d = lemma_small_divisor(c, m);
        let p = lemma_prime_factor(d);
        lemma_divides_trans(c, d, p);
        assert(c % p == 0);
    }
}

/// `m * m`, or `u64::MAX` where the square does not fit.
pub open spec fn square_sat(m: u64) -> int {
    if m < 0x1_0000_0000 {
        m * m
    } else {
        u64::MAX as int
    }
}

/// Squares `m`, saturating at `u64::MAX` instead of wrapping.
pub fn square_saturating(m: u64) -> (r: u64)
    ensures
        r == square_sat(m),
        m < 0x1_0000_0000 ==> r == m * m,
        r >= m * m || r == u64::MAX,
{
    if m < 0x1_0000_0000 {
        assert(m * m <= 0xffff_fffe_0000_0001) by (nonlinear_arith)
            requires
                m < 0x1_0000_0000,
        ;
        m * m
    } else {
        u64::MAX
    }
}

/// Whether some integer in `[2, m]` divides `c`.
pub fn has_divisor_up_to(c: u64, m: u64) -> (r: bool)
    requires
        m < u64::MAX,
    ensures
        r == exists|d: int| 2 <= d <= m && #[trigger] ((c as int) % d) == 0,
{
    let mut d: u64 = 2;
    while d <= m
        invariant
            2 <= d,
            m < u64::MAX,
            d <= m + 1 || d == 2,
            forall|e: int| 2 <= e < d ==> #[trigger] ((c as int) % e) != 0,
        decreases m + 1 - d,
    {
        if c % d == 0 {
            assert(2 <= d <= m && (c as int) % (d as int) == 0);
            return true;
        }
        d += 1;
    }
    false
}

} // verus!
