use std::sync::atomic::{AtomicBool, Ordering};
use std::sync::Arc;

use sosu_seisei_sieve::delivery::OrderedDelivery;
use sosu_seisei_sieve::generator::{generate_primes, plan_segments, PrimeGenerator, StepOutcome};
use sosu_seisei_sieve::isqrt::integer_sqrt;
use sosu_seisei_sieve::sieve::{
    generate_small_primes, segmented_sieve, sieve_segment, sieve_window, simple_sieve, split_at_cache,
};

const PRIMES_TO_100: [u64; 25] = [
    2, 3, 5, 7, 11, 13, 17, 19, 23, 29, 31, 37, 41, 43, 47, 53, 59, 61, 67, 71, 73, 79, 83, 89, 97,
];

fn naive_primes(lo: u64, hi: u64) -> Vec<u64> {
    (lo..=hi)
        .filter(|&n| n >= 2 && (2..n).take_while(|d| d * d <= n).all(|d| n % d != 0))
        .collect()
}

#[test]
fn integer_sqrt_small_values() {
    assert_eq!(integer_sqrt(0), 0);
    assert_eq!(integer_sqrt(1), 1);
    assert_eq!(integer_sqrt(2), 1);
    assert_eq!(integer_sqrt(3), 1);
    assert_eq!(integer_sqrt(4), 2);
    assert_eq!(integer_sqrt(15), 3);
    assert_eq!(integer_sqrt(16), 4);
    assert_eq!(integer_sqrt(17), 4);
}

#[test]
fn integer_sqrt_brackets_n_up_to_the_maximum() {
    assert_eq!(integer_sqrt(u64::MAX), 4_294_967_295);
    assert_eq!(integer_sqrt(u64::MAX - 1), 4_294_967_295);
    assert_eq!(integer_sqrt(1_000_000_000_000_000_000), 1_000_000_000);
    let mut samples: Vec<u64> = (0..2000).collect();
    samples.extend([u64::MAX, u64::MAX - 1, 4_294_967_296 * 4_294_967_295, 999_999_999_999_999_999]);
    for n in samples {
        let r = integer_sqrt(n) as u128;
        assert!(r * r <= n as u128, "n = {}", n);
        assert!((n as u128) < (r + 1) * (r + 1), "n = {}", n);
    }
}

#[test]
fn simple_sieve_to_100() {
    assert_eq!(simple_sieve(100), PRIMES_TO_100.to_vec());
    assert_eq!(simple_sieve(0), Vec::<u64>::new());
    assert_eq!(simple_sieve(1), Vec::<u64>::new());
    assert_eq!(simple_sieve(2), vec![2]);
    assert_eq!(simple_sieve(1000), naive_primes(0, 1000));
}

#[test]
fn segmented_sieve_matches_naive_windows() {
    let base = simple_sieve(integer_sqrt(100_000) + 1);
    let stop = Arc::new(AtomicBool::new(false));
    assert_eq!(segmented_sieve(&base, 0, 100, &stop), PRIMES_TO_100.to_vec());
    assert_eq!(segmented_sieve(&base, 1, 1, &stop), Vec::<u64>::new());
    assert_eq!(segmented_sieve(&base, 2, 2, &stop), vec![2]);
    assert_eq!(segmented_sieve(&base, 90_000, 100_000, &stop), naive_primes(90_000, 100_000));
    assert_eq!(sieve_segment(&base, 99_000, 99_999), naive_primes(99_000, 99_999));
}

#[test]
fn segmented_sieve_near_the_top_of_the_range() {
    let hi: u64 = 1_000_000_000_000;
    let base = simple_sieve(integer_sqrt(hi) + 1);
    let got = sieve_segment(&base, hi - 200, hi);
    let expect: Vec<u64> = (hi - 200..=hi)
        .filter(|&n| sosu_seisei_sieve::lucas::is_bpsw_prime_check(n))
        .collect();
    assert_eq!(got, expect);
    assert!(!got.is_empty());
}

#[test]
fn segmented_sieve_with_stop_set_returns_nothing() {
    let base = simple_sieve(1001);
    let stop = Arc::new(AtomicBool::new(true));
    assert_eq!(segmented_sieve(&base, 2, 1_000_000, &stop), Vec::<u64>::new());
}

#[test]
fn generation_to_100_for_every_window_size() {
    for size in [1u64, 7, 50, 1000] {
        assert_eq!(generate_primes(2, 100, size), PRIMES_TO_100.to_vec(), "size {}", size);
    }
    assert_eq!(generate_primes(0, 100, 3), PRIMES_TO_100.to_vec());
    assert_eq!(generate_primes(24, 28, 2), Vec::<u64>::new());
}

#[test]
fn one_window_equals_ten_windows() {
    let base = simple_sieve(integer_sqrt(1000) + 1);
    let whole = sieve_segment(&base, 2, 1000);
    let mut pieces = sieve_segment(&base, 2, 100);
    for k in 1..10u64 {
        pieces.extend(sieve_segment(&base, k * 100 + 1, k * 100 + 100));
    }
    assert_eq!(whole, pieces);
    assert_eq!(whole.len(), 168);

    let segs = plan_segments(2, 1000, 100);
    assert_eq!(segs.len(), 10);
    let mut queue = OrderedDelivery::new(segs.clone());
    let mut joined = Vec::new();
    for (i, &(lo, hi)) in segs.iter().enumerate().rev() {
        queue.deliver(i, sieve_segment(&base, lo, hi));
        joined.extend(queue.release());
    }
    assert!(queue.is_complete());
    assert_eq!(joined, whole);
}

#[test]
fn ordered_delivery_holds_windows_until_earlier_ones_arrive() {
    let base = simple_sieve(11);
    let segs = plan_segments(1, 40, 10);
    let mut queue = OrderedDelivery::new(segs.clone());
    queue.deliver(2, sieve_segment(&base, 21, 30));
    assert_eq!(queue.release(), Vec::<u64>::new());
    queue.deliver(1, sieve_segment(&base, 11, 20));
    assert_eq!(queue.release(), Vec::<u64>::new());
    queue.deliver(0, sieve_segment(&base, 1, 10));
    assert_eq!(queue.release(), vec![2, 3, 5, 7, 11, 13, 17, 19, 23, 29]);
    assert!(!queue.is_complete());
    queue.deliver(3, sieve_segment(&base, 31, 40));
    assert_eq!(queue.release(), vec![31, 37]);
    assert!(queue.is_complete());
    assert_eq!(queue.release(), Vec::<u64>::new());
}

#[test]
fn plan_segments_tiles_the_range() {
    assert_eq!(plan_segments(1, 10, 4), vec![(1, 4), (5, 8), (9, 10)]);
    assert_eq!(plan_segments(5, 5, 10), vec![(5, 5)]);
    assert_eq!(plan_segments(0, 9, 5), vec![(0, 4), (5, 9)]);
    assert_eq!(plan_segments(u64::MAX - 3, u64::MAX, 3), vec![(u64::MAX - 3, u64::MAX - 1), (u64::MAX, u64::MAX)]);
}

#[test]
fn generator_steps_and_reports_progress() {
    let stop = Arc::new(AtomicBool::new(false));
    let mut g = PrimeGenerator::new(1, 100, 30);
    assert_eq!(g.step(&stop), StepOutcome::Sieved { processed: 30, total: 100 });
    assert_eq!(g.primes(), &vec![2, 3, 5, 7, 11, 13, 17, 19, 23, 29]);
    assert_eq!(g.step(&stop), StepOutcome::Sieved { processed: 60, total: 100 });
    assert_eq!(g.step(&stop), StepOutcome::Sieved { processed: 90, total: 100 });
    assert_eq!(g.step(&stop), StepOutcome::Sieved { processed: 100, total: 100 });
    assert!(g.is_finished());
    assert_eq!(g.step(&stop), StepOutcome::Finished);
    assert_eq!(g.into_primes(), PRIMES_TO_100.to_vec());
}

#[test]
fn stop_during_a_run_keeps_only_whole_windows() {
    let stop = Arc::new(AtomicBool::new(false));
    let mut g = PrimeGenerator::new(2, 100_000, 1000);
    assert!(matches!(g.step(&stop), StepOutcome::Sieved { .. }));
    assert!(matches!(g.step(&stop), StepOutcome::Sieved { .. }));
    stop.store(true, Ordering::SeqCst);
    assert_eq!(g.step(&stop), StepOutcome::Stopped);
    assert_eq!(g.step(&stop), StepOutcome::Stopped);
    assert!(!g.is_finished());
    assert_eq!(g.primes(), &naive_primes(2, 2001));
}

#[test]
fn small_primes_first_n() {
    assert_eq!(generate_small_primes(5, 100), vec![2, 3, 5, 7, 11]);
    assert_eq!(generate_small_primes(100, 30), vec![2, 3, 5, 7, 11, 13, 17, 19, 23, 29]);
    assert_eq!(generate_small_primes(0, 30), Vec::<u64>::new());
    assert_eq!(generate_small_primes(1, 2), Vec::<u64>::new());
    assert_eq!(generate_small_primes(1, 3), vec![2]);
    assert_eq!(generate_small_primes(1000, 7920), simple_sieve(7919));
    assert_eq!(generate_small_primes(1000, 7920).len(), 1000);
    assert_eq!(generate_small_primes(999, 100_000), simple_sieve(7907));
}

#[test]
fn cache_split_keeps_range_and_resumes_past_it() {
    let cached = vec![2u64, 3, 5, 7, 11, 13];
    assert_eq!(split_at_cache(&cached, 4, 100), (vec![5, 7, 11, 13], Some(14)));
    assert_eq!(split_at_cache(&cached, 20, 100), (vec![], Some(20)));
    assert_eq!(split_at_cache(&cached, 1, 10), (vec![2, 3, 5, 7], None));
    assert_eq!(split_at_cache(&[], 0, 10), (vec![], Some(2)));
    assert_eq!(split_at_cache(&[], 0, 1), (vec![], None));
}

#[test]
fn window_sieve_without_flag_completes() {
    let base = simple_sieve(11);
    assert_eq!(sieve_window(&base, 90, 120, None), (vec![97, 101, 103, 107, 109, 113], true));
    let stop = AtomicBool::new(true);
    assert_eq!(sieve_window(&base, 90, 120, Some(&stop)), (vec![], false));
}

#[test]
fn equal_bounds_run() {
    assert_eq!(generate_primes(97, 97, 10), vec![97]);
    assert_eq!(generate_primes(98, 98, 10), Vec::<u64>::new());
}
