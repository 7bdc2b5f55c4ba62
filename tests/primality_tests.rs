use std::sync::atomic::{AtomicBool, Ordering};
use std::sync::Arc;

use sosu_seisei_sieve::scan::{RangeScanner, ScanEvent};
use sosu_seisei_sieve::lucas::{is_bpsw_prime, is_bpsw_prime_check, jacobi, lucas_pp_test};
use sosu_seisei_sieve::primality::{is_64bit_prime, is_probable_prime, miller_rabin_check, modexp};

fn naive_is_prime(n: u64) -> bool {
    n >= 2 && (2..n).take_while(|d| d * d <= n).all(|d| n % d != 0)
}

#[test]
fn modexp_known_values() {
    assert_eq!(modexp(2, 10, 1000), 24);
    assert_eq!(modexp(3, 0, 7), 1);
    assert_eq!(modexp(5, 3, 1), 0);
    assert_eq!(modexp(u64::MAX, 2, u64::MAX - 1), 1);
    assert_eq!(modexp(7, 560, 561), 1);
    assert_eq!(modexp(2, 64, 1_000_000_007), 582_344_008);
}

#[test]
fn miller_rabin_witness() {
    // 2047 = 23 * 89 is a strong pseudoprime to base 2; 2046 = 1023 * 2.
    assert!(miller_rabin_check(2047, 2, 1023, 1));
    assert!(!miller_rabin_check(2047, 3, 1023, 1));
    // 97 - 1 = 3 * 2^5.
    assert!(miller_rabin_check(97, 5, 3, 5));
}

#[test]
fn deterministic_test_pseudoprime_and_mersenne() {
    assert!(!is_64bit_prime(3_215_031_751));
    assert!(is_64bit_prime((1u64 << 61) - 1));
    assert!(!is_bpsw_prime_check(3_215_031_751));
    assert!(is_bpsw_prime_check((1u64 << 61) - 1));
}

#[test]
fn deterministic_test_agrees_with_trial_division() {
    for n in 0..20_000u64 {
        assert_eq!(is_64bit_prime(n), naive_is_prime(n), "n = {}", n);
        assert_eq!(is_bpsw_prime(n), naive_is_prime(n), "n = {}", n);
    }
}

#[test]
fn deterministic_test_on_large_values() {
    assert!(is_64bit_prime(18_446_744_073_709_551_557));
    assert!(is_bpsw_prime_check(18_446_744_073_709_551_557));
    assert!(!is_64bit_prime(u64::MAX));
    assert!(!is_bpsw_prime_check(u64::MAX));
    assert!(!is_bpsw_prime_check(561));
    assert!(!is_bpsw_prime_check(4_294_967_297));
    assert!(is_bpsw_prime_check(1_000_000_007));
    assert!(!is_bpsw_prime_check(1_000_000_007 * 998_244_353));
}

#[test]
fn jacobi_symbol_values() {
    assert_eq!(jacobi(2, 7), 1);
    assert_eq!(jacobi(3, 7), -1);
    assert_eq!(jacobi(-1, 7), -1);
    assert_eq!(jacobi(-1, 5), 1);
    assert_eq!(jacobi(5, 15), 0);
    assert_eq!(jacobi(0, 1), 1);
    assert_eq!(jacobi(1001, 9907), -1);
    assert_eq!(jacobi(19, 45), 1);
    assert_eq!(jacobi(8, 21), -1);
    assert_eq!(jacobi(5, 8), 0);
    assert_eq!(jacobi(-7, 3), -1);
}

#[test]
fn lucas_test_primes_and_pseudoprimes() {
    for p in [3u64, 5, 7, 11, 13, 97, 7919, 1_000_000_007] {
        assert!(lucas_pp_test(p), "p = {}", p);
    }
    // Strong Lucas pseudoprimes with Selfridge's parameters.
    for n in [5459u64, 5777, 10877, 16109, 18971] {
        assert!(lucas_pp_test(n), "n = {}", n);
        assert!(!is_bpsw_prime_check(n), "n = {}", n);
    }
    // Strong pseudoprimes to base 2 that the Lucas test rejects.
    for n in [2047u64, 3277, 4033, 4681, 8321] {
        assert!(!lucas_pp_test(n), "n = {}", n);
    }
    assert!(!lucas_pp_test(9));
    assert!(!lucas_pp_test(49));
    assert!(!lucas_pp_test(2));
    assert!(!lucas_pp_test(1));
    assert!(!lucas_pp_test(u64::MAX));
}

#[test]
fn range_scan_counts_primes_and_stops() {
    let stop = Arc::new(AtomicBool::new(false));
    let mut scanner = RangeScanner::new(8, 13);
    assert_eq!(scanner.step(&stop), ScanEvent::Skipped { value: 8 });
    assert_eq!(scanner.step(&stop), ScanEvent::Skipped { value: 9 });
    assert_eq!(scanner.step(&stop), ScanEvent::Skipped { value: 10 });
    assert_eq!(scanner.step(&stop), ScanEvent::Found { value: 11, index: 1 });
    stop.store(true, Ordering::SeqCst);
    assert_eq!(scanner.step(&stop), ScanEvent::Stopped);
    stop.store(false, Ordering::SeqCst);
    assert_eq!(scanner.step(&stop), ScanEvent::Skipped { value: 12 });
    assert_eq!(scanner.step(&stop), ScanEvent::Found { value: 13, index: 2 });
    assert!(scanner.is_finished());
    assert_eq!(scanner.step(&stop), ScanEvent::Finished);
    assert_eq!(scanner.found(), 2);

    let mut whole = RangeScanner::new(0, 100);
    while whole.step(&stop) != ScanEvent::Finished {}
    assert_eq!(whole.found(), 25);

    let mut top = RangeScanner::new(u64::MAX - 60, u64::MAX);
    let mut found = Vec::new();
    loop {
        match top.step(&stop) {
            ScanEvent::Found { value, .. } => found.push(value),
            ScanEvent::Finished => break,
            _ => {}
        }
    }
    assert_eq!(found, vec![18_446_744_073_709_551_557]);
}

#[test]
fn range_scan_without_flag_tests_every_number() {
    let mut scanner = RangeScanner::new(2, 5);
    assert_eq!(scanner.step_with(None), ScanEvent::Found { value: 2, index: 1 });
    assert_eq!(scanner.step_with(None), ScanEvent::Found { value: 3, index: 2 });
    assert_eq!(scanner.step_with(None), ScanEvent::Skipped { value: 4 });
    assert_eq!(scanner.step_with(None), ScanEvent::Found { value: 5, index: 3 });
    assert_eq!(scanner.step_with(None), ScanEvent::Finished);
    let stop = AtomicBool::new(true);
    let mut held = RangeScanner::new(2, 5);
    assert_eq!(held.step_with(Some(&stop)), ScanEvent::Stopped);
    assert_eq!(held.found(), 0);
}

#[test]
fn probabilistic_test_with_rounds() {
    for n in 0..20_000u64 {
        assert_eq!(is_probable_prime(n, 5), naive_is_prime(n), "n = {}", n);
    }
    // 3215031751 passes bases 2, 3, 5 and 7 but not 11.
    assert!(!is_probable_prime(3_215_031_751, 10));
    assert!(is_probable_prime((1u64 << 61) - 1, 20));
    assert!(is_probable_prime(18_446_744_073_709_551_557, 8));
    // No rounds: only the quick refusals apply.
    assert!(is_probable_prime(9, 0));
    assert!(!is_probable_prime(10, 0));
    assert!(!is_probable_prime(1, 3));
    assert!(is_probable_prime(3, 3));
}
