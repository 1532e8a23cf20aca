use primes::{EratoOne, InfiniteIterator, Naive, PrimeIterator};

fn is_prime_by_trial(n: u64) -> bool {
    if n < 2 {
        return false;
    }
    let mut d: u64 = 2;
    while d * d <= n {
        if n % d == 0 {
            return false;
        }
        d += 1;
    }
    true
}

#[test]
fn first_ten_primes() {
    let mut it = PrimeIterator::new(Naive);
    let first: Vec<u64> = (0..10).map(|_| it.pop()).collect();
    assert_eq!(first, vec![2, 3, 5, 7, 11, 13, 17, 19, 23, 29]);
}

#[test]
fn first_ten_primes_incremental() {
    let mut it = PrimeIterator::new(EratoOne::default());
    let first: Vec<u64> = (0..10).map(|_| it.next().unwrap()).collect();
    assert_eq!(first, vec![2, 3, 5, 7, 11, 13, 17, 19, 23, 29]);
}

#[test]
fn two_thousand_primes_ascending_without_gaps() {
    let mut it = PrimeIterator::new(EratoOne::default());
    let values: Vec<u64> = (0..2000).map(|_| it.pop()).collect();
    for w in values.windows(2) {
        assert!(w[0] < w[1]);
        for n in (w[0] + 1)..w[1] {
            assert!(!is_prime_by_trial(n), "{} was skipped", n);
        }
    }
    for &v in &values {
        assert!(is_prime_by_trial(v), "{} is not prime", v);
    }
    assert_eq!(values[1999], 17389);
}

#[test]
fn stream_crosses_window_boundaries() {
    let mut naive = PrimeIterator::new(Naive);
    let mut incremental = PrimeIterator::new(EratoOne::default());
    for _ in 0..600 {
        assert_eq!(naive.pop(), incremental.pop());
    }
    // 1021 is the last prime of the first window [1, 1024], 1031 the first of the next.
    let mut it = PrimeIterator::new(Naive);
    let values: Vec<u64> = (0..174).map(|_| it.pop()).collect();
    assert_eq!(values[171], 1021);
    assert_eq!(values[172], 1031);
    assert_eq!(values[173], 1033);
}
