//! The capability shared by all generators, and the unbounded stream built on top of it.
use vstd::prelude::*;

use crate::primes::{
    is_prime, lemma_primes_in_facts, lemma_primes_in_prefix, lemma_primes_in_split, primes_in,
};

verus! {

/// The largest value that a query with upper bound `max` covers: `max` itself when the bound is
/// inclusive, `max - 1` when it is not.
pub open spec fn top_of(inclusive: bool, max: u64) -> int {
    if inclusive {
        max as int
    } else {
        max - 1
    }
}

/// One end of a range of integers.
#[derive(Debug, Clone, Copy, PartialEq, Eq, Structural)]
pub enum Bound {
    Included(u64),
    Excluded(u64),
    Unbounded,
}

/// Why a range query was refused.
#[derive(Debug, Clone, Copy, PartialEq, Eq, Structural)]
pub enum RangeError {
    /// The range has no upper end, so its primes cannot all be listed.
    InvalidRange,
}

/// The least value that a range starting at `start` holds.
pub open spec fn start_value(start: Bound) -> int {
    match start {
        Bound::Included(n) => n as int,
        Bound::Excluded(n) => n + 1,
        Bound::Unbounded => 0,
    }
}

/// The greatest value that a range ending at a bounded `end` holds.
pub open spec fn end_value(end: Bound) -> int {
    match end {
        Bound::Included(n) => n as int,
        Bound::Excluded(n) => n - 1,
        Bound::Unbounded => u64::MAX as int,
    }
}

/// A source of all the primes in a bounded range.
pub trait PrimeGenerator: Sized {
    /// The generator's internal state is consistent.
    spec fn wf(&self) -> bool;

    /// Whether `generate(min, max)` may return `max` itself.
    spec fn inclusive_upper() -> bool;

    /// The primes of `[min, max]` in ascending order (of `[min, max)` where the upper bound is
    /// exclusive).
    fn generate(&mut self, min: u64, max: u64) -> (r: Vec<u64>)
        requires
            old(self).wf(),
        ensures
            final(self).wf(),
            r@ == primes_in(min as int, top_of(Self::inclusive_upper(), max)),
    ;

    /// `generate` over the range from `start` to `end`. A range without an upper end is
    /// refused before any work is done; a range that holds no `u64` at all is empty.
    fn range(&mut self, start: Bound, end: Bound) -> (r: Result<Vec<u64>, RangeError>)
        requires
            old(self).wf(),
        ensures
            final(self).wf(),
            r is Err <==> end is Unbounded,
            r is Err ==> r == Err::<Vec<u64>, RangeError>(RangeError::InvalidRange),
            r is Err ==> *final(self) == *old(self),
            r is Ok ==> if start_value(start) <= u64::MAX && end_value(end) >= 0 {
                r->Ok_0@ == primes_in(
                    start_value(start),
                    top_of(Self::inclusive_upper(), end_value(end) as u64),
                )
            } else {
                r->Ok_0@.len() == 0
            },
    {
        let max: u64 = match end {
            Bound::Included(n) => n,
            Bound::Excluded(n) => {
                if n == 0 {
                    return Ok(Vec::new());
                }
                n - 1
            },
            Bound::Unbounded => {
                return Err(RangeError::InvalidRange);
            },
        };
        let min: u64 = match start {
            Bound::Included(n) => n,
            Bound::Excluded(n) => {
                if n == u64::MAX {
                    return Ok(Vec::new());
                }
                n + 1
            },
            Bound::Unbounded => 0,
        };
        Ok(self.generate(min, max))
    }
}

/// An ascending stream of values that never ends under normal use.
pub trait InfiniteIterator: Sized {
    /// The stream's internal state is consistent.
    spec fn wf(&self) -> bool;

    /// The values yielded so far, in order.
    spec fn produced(&self) -> Seq<u64>;

    /// Whether the next pull yields a value.
    spec fn has_next(&self) -> bool;

    /// The next value, or `None` where the stream has run out.
    fn next(&mut self) -> (r: Option<u64>)
        requires
            old(self).wf(),
        ensures
            final(self).wf(),
            r is Some <==> old(self).has_next(),
            final(self).produced() == match r {
                Some(v) => old(self).produced().push(v),
                None => old(self).produced(),
            },
    ;

    /// The next value, where the stream is known to go on.
    fn pop(&mut self) -> (r: u64)
        requires
            old(self).wf(),
            old(self).has_next(),
        ensures
            final(self).wf(),
            final(self).produced() == old(self).produced().push(r),
    {
        match self.next() {
            Some(v) => v,
            None => 0,
        }
    }
}

/// Size of the first window that a `PrimeIterator` asks its generator for.
pub const FIRST_WINDOW: u64 = 1024;

/// The largest window size that a `PrimeIterator` grows to.
pub const MAX_WINDOW: u64 = 1048576;

/// The size of the window that follows one of size `old_size`: `FIRST_WINDOW` at the start,
/// then twice the previous size, capped at `MAX_WINDOW`.
pub open spec fn next_window_size(old_size: int) -> int {
    if old_size == 0 {
        FIRST_WINDOW as int
    } else if old_size * 2 < MAX_WINDOW {
        old_size * 2
    } else {
        MAX_WINDOW as int
    }
}

/// Computes `next_window_size`.
fn window_size_after(old_size: u64) -> (r: u64)
    ensures
        r == next_window_size(old_size as int),
{
    if old_size == 0 {
        FIRST_WINDOW
    } else if old_size < MAX_WINDOW / 2 {
        old_size * 2
    } else {
        MAX_WINDOW
    }
}

/// An unbounded ascending stream of all primes, drawn from a generator in windows that grow
/// geometrically.
#[derive(Debug)]
pub struct PrimeIterator<G: PrimeGenerator> {
    generator: G,
    buffer: Vec<u64>,
    buffer_min: u64,
    buffer_max: u64,
    buffer_index: usize,
}

impl<G: PrimeGenerator> PrimeIterator<G> {
    /// A stream that has yielded nothing yet.
    pub fn new(generator: G) -> (r: PrimeIterator<G>)
        requires
            generator.wf(),
        ensures
            r.wf(),
            r.produced() == Seq::<u64>::empty(),
            r.has_next(),
    {
        let r = PrimeIterator {
            generator,
            buffer: Vec::new(),
            buffer_min: 0,
            buffer_max: 0,
            buffer_index: 0,
        };
        proof {
            assert(primes_in(0, -1) =~= Seq::<u64>::empty());
            assert(primes_in(0, 0) =~= Seq::<u64>::empty());
            assert(is_prime(2));
        }
        r
    }
}

impl<G: PrimeGenerator> InfiniteIterator for PrimeIterator<G> {
    /// The buffer holds every prime of the current window `[buffer_min, buffer_max]`, whose end
    /// is even or the top of the `u64` range, so never a prime.
    closed spec fn wf(&self) -> bool {
        &&& self.generator.wf()
        &&& self.buffer_min <= self.buffer_max
        &&& self.buffer_max == 0 ==> self.buffer_min == 0
        &&& self.buffer_max == 0 || self.buffer_max >= FIRST_WINDOW
        &&& self.buffer_max % 2 == 0 || self.buffer_max == u64::MAX
        &&& self.buffer@ == primes_in(self.buffer_min as int, self.buffer_max as int)
        &&& self.buffer_index <= self.buffer@.len()
    }

    closed spec fn produced(&self) -> Seq<u64> {
        primes_in(0, self.buffer_min - 1) + self.buffer@.take(self.buffer_index as int)
    }

    /// A value is left in the buffer, or some prime lies above the current window.
    closed spec fn has_next(&self) -> bool {
        ||| self.buffer_index < self.buffer@.len()
        ||| exists|p: int| self.buffer_max < p <= u64::MAX && is_prime(p)
    }

    fn next(&mut self) -> (r: Option<u64>)
        ensures
            r matches Some(v) ==> final(self).produced() == primes_in(0, v as int),
    {
        while self.buffer_index >= self.buffer.len() && self.buffer_max < u64::MAX
            invariant
                self.wf(),
                self.produced() == old(self).produced(),
                self.has_next() == old(self).has_next(),
            decreases u64::MAX - self.buffer_max,
        {
            let ghost before = *self;
            proof {
                lemma_window_end_not_prime(self.buffer_max);
                lemma_primes_in_split(0, self.buffer_min - 1, self.buffer_max as int);
                assert(self.buffer@.take(self.buffer_index as int) =~= self.buffer@);
            }
            let old_range_size = self.buffer_max - self.buffer_min;
            let new_range_size = window_size_after(old_range_size);
            // The next window is `[buffer_min, buffer_min + new_range_size - 1]`, cut at the top
            // of the `u64` range.
            self.buffer_min = self.buffer_max + 1;
            self.buffer_max = if self.buffer_max > u64::MAX - new_range_size {
                u64::MAX
            } else {
                self.buffer_max + new_range_size
            };
            self.buffer = self.generator.generate(self.buffer_min, self.buffer_max);
            self.buffer_index = 0;
            proof {
                lemma_window_end_not_prime(self.buffer_max);
                assert(self.buffer@ == primes_in(self.buffer_min as int, self.buffer_max as int));
                assert(self.buffer@.take(0) =~= Seq::<u64>::empty());
                assert(self.produced() =~= before.produced());
                lemma_primes_in_facts(self.buffer_min as int, self.buffer_max as int);
                if self.buffer@.len() > 0 {
                    assert(is_prime(self.buffer@[0] as int));
                }
                if self.buffer@.len() == 0 && before.has_next() {
                    let p = choose|p: int| before.buffer_max < p <= u64::MAX && is_prime(p);
                    if p <= self.buffer_max {
                        assert(self.buffer@.contains(p as u64));
                    }
                }
            }
        }
        if self.buffer_index < self.buffer.len() {
            let value = self.buffer[self.buffer_index];
            proof {
                lemma_primes_in_facts(self.buffer_min as int, self.buffer_max as int);
                lemma_primes_in_prefix(
                    self.buffer_min as int,
                    self.buffer_max as int,
                    self.buffer_index as int,
                );
                lemma_primes_in_split(0, self.buffer_min - 1, value as int);
                assert(self.buffer@.take(self.buffer_index + 1) =~= self.buffer@.take(
                    self.buffer_index as int,
                ).push(value));
            }
            self.buffer_index += 1;
            Some(value)
        } else {
            None
        }
    }
}

/// What a stream has yielded is every prime up to `top`, where `top` is the last value taken
/// from the buffer, or the end of the windows already used up.
proof fn lemma_produced_up_to<G: PrimeGenerator>(it: PrimeIterator<G>) -> (top: int)
    requires
        it.wf(),
    ensures
        it.produced() == primes_in(0, top),
        it.buffer_min - 1 <= top <= it.buffer_max,
        it.buffer_index > 0 ==> top == it.buffer@[it.buffer_index - 1],
        it.buffer_index == 0 ==> top == it.buffer_min - 1,
{
    let lo = it.buffer_min as int;
    let hi = it.buffer_max as int;
    let k = it.buffer_index as int;
    lemma_primes_in_facts(lo, hi);
    if k == 0 {
        assert(it.buffer@.take(0) =~= Seq::<u64>::empty());
        assert(it.produced() =~= primes_in(0, lo - 1));
        lo - 1
    } else {
        let top = primes_in(lo, hi)[k - 1] as int;
        lemma_primes_in_prefix(lo, hi, k - 1);
        lemma_primes_in_split(0, lo - 1, top);
        top
    }
}

/// What a stream of primes has yielded is every prime up to the last value yielded: strictly
/// ascending, without a repeat, and without a composite.
pub proof fn lemma_produced_all_primes<G: PrimeGenerator>(it: PrimeIterator<G>)
    requires
        it.wf(),
    ensures
        forall|i: int, j: int|
            0 <= i < j < it.produced().len() ==> #[trigger] it.produced()[i]
                < #[trigger] it.produced()[j],
        forall|i: int| 0 <= i < it.produced().len() ==> is_prime(#[trigger] it.produced()[i] as int),
        it.produced().len() > 0 ==> it.produced() == primes_in(0, it.produced().last() as int),
{
    let top = lemma_produced_up_to(it);
    let s = it.produced();
    lemma_primes_in_facts(0, top);
    if s.len() > 0 && s.last() < top {
        lemma_primes_in_split(0, s.last() as int, top);
        lemma_primes_in_facts(0, s.last() as int);
        lemma_primes_in_facts(s.last() + 1, top);
        assert(primes_in(s.last() + 1, top) =~= Seq::<u64>::empty());
        assert(primes_in(0, s.last() as int) + Seq::<u64>::empty() =~= primes_in(
            0,
            s.last() as int,
        ));
    }
}

/// A stream of primes can yield another value exactly when some prime below 2^64 lies above
/// every value that it has yielded so far.
pub proof fn lemma_has_next_iff_prime_remains<G: PrimeGenerator>(it: PrimeIterator<G>)
    requires
        it.wf(),
    ensures
        it.has_next() <==> exists|p: int|
            #[trigger] is_prime(p) && p <= u64::MAX && (it.produced().len() == 0 || p
                > it.produced().last()),
{
    let top = lemma_produced_up_to(it);
    let s = it.produced();
    let lo = it.buffer_min as int;
    let hi = it.buffer_max as int;
    lemma_primes_in_facts(0, top);
    lemma_primes_in_facts(lo, hi);
    if s.len() > 0 {
        assert(s.last() == s[s.len() - 1]);
    }
    if it.has_next() {
        if it.buffer_index < it.buffer@.len() {
            let p = it.buffer@[it.buffer_index as int] as int;
            assert(is_prime(p) && p <= u64::MAX && (s.len() == 0 || p > s.last()));
        } else {
            let p = choose|p: int| it.buffer_max < p <= u64::MAX && is_prime(p);
            assert(is_prime(p) && p <= u64::MAX && (s.len() == 0 || p > s.last()));
        }
    }
    if exists|p: int| #[trigger] is_prime(p) && p <= u64::MAX && (s.len() == 0 || p > s.last()) {
        let p = choose|p: int| #[trigger] is_prime(p) && p <= u64::MAX && (s.len() == 0 || p
            > s.last());
        if p <= top {
            let j = choose|j: int| 0 <= j < s.len() && s[j] == p as u64;
        }
        if it.buffer_index >= it.buffer@.len() && p <= hi {
            let j = choose|j: int| 0 <= j < it.buffer@.len() && it.buffer@[j] == p as u64;
            if j < it.buffer@.len() - 1 {
                assert(it.buffer@[j] < it.buffer@[it.buffer@.len() - 1]);
            }
        }
    }
}

/// The end of a window is never a prime: it is 0, an even number from 4 on, or `u64::MAX`,
/// which 3 divides.
proof fn lemma_window_end_not_prime(end: u64)
    requires
        end == 0 || end >= FIRST_WINDOW,
        end % 2 == 0 || end == u64::MAX,
    ensures
        !is_prime(end as int),
{
    if end == u64::MAX {
        assert((end as int) % 3 == 0);
    } else if end != 0 {
        assert((end as int) % 2 == 0);
    }
}

} // verus!
