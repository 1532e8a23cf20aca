use primes::{Bound, EratoOne, Naive, PrimeGenerator, RangeError};

fn is_prime_by_trial(n: u64) -> bool {
    if n < 2 {
        return false;
    }
    let mut d: u64 = 2;
    while d * d <= n {
        if n % d == 0 {
            return false;
        }
        d += 1;
    }
    true
}

fn reference_primes(min: u64, max: u64) -> Vec<u64> {
    (min..=max).filter(|&n| is_prime_by_trial(n)).collect()
}

#[test]
fn naive_clamps_min_to_two() {
    assert_eq!(Naive.generate(0, 10), vec![2, 3, 5, 7]);
}

#[test]
fn naive_includes_upper_end() {
    assert_eq!(Naive.generate(10, 23), vec![11, 13, 17, 19, 23]);
}

#[test]
fn naive_matches_reference() {
    assert_eq!(Naive.generate(0, 2000), reference_primes(0, 2000));
    assert_eq!(Naive.generate(7919, 7919), vec![7919]);
    assert_eq!(Naive.generate(1, 1), Vec::<u64>::new());
    assert_eq!(Naive.generate(2, 2), vec![2]);
    assert_eq!(Naive.generate(4, 4), Vec::<u64>::new());
}

#[test]
fn naive_empty_when_min_above_max() {
    assert_eq!(Naive.generate(20, 10), Vec::<u64>::new());
}

#[test]
fn incremental_excludes_upper_end() {
    let mut g = EratoOne::default();
    assert_eq!(g.generate(10, 23), vec![11, 13, 17, 19]);
}

#[test]
fn incremental_small_queries() {
    let mut g = EratoOne::default();
    assert_eq!(g.generate(1, 2), Vec::<u64>::new());
    assert_eq!(g.generate(1, 3), vec![2]);
}

#[test]
fn incremental_idempotent() {
    let mut g = EratoOne::default();
    let first = g.generate(2, 100);
    let second = g.generate(2, 100);
    assert_eq!(first, second);
    assert_eq!(first.len(), 25);
    assert_eq!(first.last(), Some(&97));
}

#[test]
fn incremental_extension_consistent() {
    let mut g = EratoOne::default();
    let first = g.generate(2, 100);
    let second = g.generate(2, 200);
    let below: Vec<u64> = second.iter().cloned().filter(|&p| p < 100).collect();
    assert_eq!(below, first);
    assert_eq!(second, reference_primes(2, 199));
}

#[test]
fn incremental_answers_lower_ranges_from_memory() {
    let mut g = EratoOne::default();
    g.generate(0, 1000);
    let before = format!("{:?}", g);
    assert_eq!(g.generate(100, 130), vec![101, 103, 107, 109, 113, 127]);
    assert_eq!(format!("{:?}", g), before);
}

#[test]
fn incremental_matches_reference() {
    let mut g = EratoOne::default();
    assert_eq!(g.generate(0, 5000), reference_primes(0, 4999));
    assert_eq!(g.generate(4000, 9000), reference_primes(4000, 8999));
}

#[test]
fn generators_agree_when_upper_end_is_composite() {
    for &(min, max) in &[(2u64, 100u64), (2, 1000), (500, 10000), (97, 98), (2, 4), (30, 30)] {
        let mut g = EratoOne::default();
        assert_eq!(g.generate(min, max), Naive.generate(min, max), "{}..={}", min, max);
    }
}

#[test]
fn generators_differ_when_upper_end_is_prime() {
    let mut g = EratoOne::default();
    assert_eq!(g.generate(2, 23), vec![2, 3, 5, 7, 11, 13, 17, 19]);
    assert_eq!(Naive.generate(2, 23), vec![2, 3, 5, 7, 11, 13, 17, 19, 23]);
}

#[test]
fn range_inclusive() {
    assert_eq!(
        Naive.range(Bound::Included(10), Bound::Included(23)),
        Ok(vec![11, 13, 17, 19, 23])
    );
}

#[test]
fn range_exclusive_ends() {
    assert_eq!(
        Naive.range(Bound::Excluded(11), Bound::Excluded(23)),
        Ok(vec![13, 17, 19])
    );
}

#[test]
fn range_unbounded_start() {
    assert_eq!(Naive.range(Bound::Unbounded, Bound::Included(12)), Ok(vec![2, 3, 5, 7, 11]));
}

#[test]
fn range_unbounded_end_is_invalid() {
    assert_eq!(
        Naive.range(Bound::Included(5), Bound::Unbounded),
        Err(RangeError::InvalidRange)
    );
}

#[test]
fn range_unbounded_end_does_no_work() {
    let mut g = EratoOne::default();
    let before = format!("{:?}", g);
    assert_eq!(g.range(Bound::Unbounded, Bound::Unbounded), Err(RangeError::InvalidRange));
    assert_eq!(format!("{:?}", g), before);
}

#[test]
fn range_empty_at_the_edges() {
    assert_eq!(Naive.range(Bound::Included(0), Bound::Excluded(0)), Ok(Vec::new()));
    assert_eq!(
        Naive.range(Bound::Excluded(u64::MAX), Bound::Included(u64::MAX)),
        Ok(Vec::new())
    );
}

#[test]
fn range_through_incremental() {
    let mut g = EratoOne::default();
    assert_eq!(g.range(Bound::Included(1), Bound::Included(3)), Ok(vec![2]));
}
