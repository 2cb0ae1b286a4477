use primes::benchmark::Benchmark;
use primes::sieve::{limit_supported, prime_count_results, PrimeSieve, MAX_LIMIT};

fn sieved(limit: u64) -> PrimeSieve {
    let mut s = PrimeSieve::new(limit);
    s.run_sieve_no_iterators();
    s
}

#[test]
fn limit_ten_has_four_primes() {
    let s = sieved(10);
    assert_eq!(s.count_primes() + 1, 4);
    assert_eq!(s.prime_list(), vec![2, 3, 5, 7]);
    assert!(s.validate_results());
}

#[test]
fn limit_thousand_has_168_primes() {
    let s = sieved(1_000);
    assert_eq!(s.count_primes() + 1, 168);
    assert!(s.validate_results());
}

#[test]
fn limit_million_has_78498_primes() {
    let s = sieved(1_000_000);
    assert_eq!(s.count_primes() + 1, 78_498);
    assert!(s.validate_results());
}

#[test]
fn table_limits_validate() {
    for limit in [10u64, 100, 1_000, 10_000, 100_000, 1_000_000, 10_000_000] {
        let s = sieved(limit);
        assert_eq!(Some(s.count_primes() + 1), prime_count_results(limit));
        assert!(s.validate_results());
    }
}

#[test]
fn limit_outside_table_does_not_validate() {
    for limit in [0u64, 1, 2, 3, 30, 999, 1_001, 65_536] {
        let s = sieved(limit);
        assert!(!s.validate_results());
    }
    let s = sieved(30);
    assert_eq!(s.count_primes() + 1, 10);
}

#[test]
fn unsieved_table_limit_does_not_validate() {
    let s = PrimeSieve::new(100);
    assert_eq!(s.count_primes(), 49);
    assert!(!s.validate_results());
}

#[test]
fn small_limits_count_no_odd_prime() {
    for limit in [0u64, 1, 2, 3] {
        let s = sieved(limit);
        assert_eq!(s.count_primes(), 0);
        assert_eq!(s.prime_list(), vec![2]);
    }
    assert_eq!(sieved(4).count_primes(), 1);
}

#[test]
fn prime_list_below_fifty() {
    let s = sieved(50);
    assert_eq!(
        s.prime_list(),
        vec![2, 3, 5, 7, 11, 13, 17, 19, 23, 29, 31, 37, 41, 43, 47]
    );
    assert_eq!(s.limit_value(), 50);
}

#[test]
fn squares_of_primes_are_struck() {
    let s = sieved(122);
    let list = s.prime_list();
    for composite in [9u64, 25, 49, 121] {
        assert!(!list.contains(&composite));
    }
    assert!(list.contains(&113));
}

#[test]
fn sieving_twice_changes_nothing() {
    let mut s = sieved(1_000);
    s.run_sieve_no_iterators();
    assert_eq!(s.count_primes() + 1, 168);
}

#[test]
fn table_lookup_values() {
    assert_eq!(prime_count_results(10), Some(4));
    assert_eq!(prime_count_results(100_000_000), Some(5_761_455));
    assert_eq!(prime_count_results(10_000_000_000), Some(455_052_511));
    assert_eq!(prime_count_results(20), None);
}

#[test]
fn zero_budget_still_makes_one_pass() {
    let mut b = Benchmark::new(1_000, 0);
    assert!(!b.finished(0));
    assert!(!b.finished(1_000_000));
    let s = b.run_pass();
    assert_eq!(b.passes(), 1);
    assert!(b.finished(0));
    assert!(s.validate_results());
    assert_eq!(b.limit_value(), 1_000);
}

#[test]
fn budget_not_spent_keeps_going() {
    let mut b = Benchmark::new(100, 5_000_000);
    b.run_pass();
    b.run_pass();
    assert_eq!(b.passes(), 2);
    assert!(!b.finished(4_999_999));
    assert!(b.finished(5_000_000));
}

#[test]
fn both_sieve_loops_agree() {
    for limit in [0u64, 3, 10, 64, 65, 100, 1_000, 10_000, 100_000] {
        let a = sieved(limit);
        let mut b = PrimeSieve::new(limit);
        b._run_sieve();
        assert_eq!(a.prime_list(), b.prime_list());
        assert_eq!(a.count_primes(), b.count_primes());
    }
}

#[test]
fn range_loop_sieve_ten_thousand() {
    let mut s = PrimeSieve::new(10_000);
    s._run_sieve();
    assert_eq!(s.count_primes() + 1, 1_229);
    assert!(s.validate_results());
}

#[test]
fn supported_limits() {
    assert!(limit_supported(0));
    assert!(limit_supported(1_000_000));
    assert!(limit_supported(10_000_000_000));
    assert!(!limit_supported(MAX_LIMIT + 1));
    assert!(!limit_supported(u64::MAX));
}
