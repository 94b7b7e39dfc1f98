use sample_pipeline::stats::{isqrt, Accumulator};

#[test]
fn empty_accumulator_has_extreme_bounds() {
    let a = Accumulator::new();
    assert_eq!(a.min, u64::MAX);
    assert_eq!(a.max, 0);
    assert_eq!(a.sum, 0);
    assert_eq!(a.sq_sum, 0);
}

#[test]
fn one_value_is_both_extremes() {
    let mut a = Accumulator::new();
    a.add(42);
    assert_eq!(a.min, 42);
    assert_eq!(a.max, 42);
    assert_eq!(a.mean(1), 42);
    assert_eq!(a.variance(1), 0);
    assert_eq!(a.stddev(1), 0);
}

#[test]
fn two_run_totals_aggregate() {
    // A leaf with two runs whose per-run totals are 100 and 300.
    let mut a = Accumulator::new();
    a.add(100);
    a.add(300);
    assert_eq!(a.min, 100);
    assert_eq!(a.max, 300);
    assert_eq!(a.mean(2), 200);
}

#[test]
fn mean_lies_between_extremes_and_variance_is_nonnegative() {
    let mut a = Accumulator::new();
    for v in [17u64, 3, 90, 41, 41, 8] {
        a.add(v);
    }
    let n = 6u64;
    let mean = a.mean(n);
    assert!(a.min <= mean && mean <= a.max);
    assert_eq!(a.min, 3);
    assert_eq!(a.max, 90);
}

#[test]
fn population_variance_exact() {
    let mut a = Accumulator::new();
    a.add(10);
    a.add(20);
    a.add(30);
    assert_eq!(a.mean(3), 20);
    // 1400 / 3 - 20 * 20 = 466 - 400 under integer division.
    assert_eq!(a.variance(3), 66);
    assert_eq!(a.stddev(3), 8);
}

#[test]
fn variance_of_constant_values_is_zero() {
    let mut a = Accumulator::new();
    a.add(5);
    a.add(5);
    a.add(5);
    assert_eq!(a.variance(3), 0);
    assert_eq!(a.stddev(3), 0);
}

#[test]
fn try_add_reports_overflow_and_keeps_state() {
    let mut a = Accumulator::new();
    assert!(a.try_add(u64::MAX));
    // A second maximal value overflows the sum of squares, and the
    // accumulator stays as it was.
    assert!(!a.try_add(u64::MAX));
    assert_eq!(a.min, u64::MAX);
    assert_eq!(a.max, u64::MAX);
    assert_eq!(a.sum, u64::MAX as u128);
    assert_eq!(a.sq_sum, (u64::MAX as u128) * (u64::MAX as u128));
}

#[test]
fn isqrt_exact_squares_and_neighbors() {
    assert_eq!(isqrt(0), 0);
    assert_eq!(isqrt(1), 1);
    assert_eq!(isqrt(3), 1);
    assert_eq!(isqrt(4), 2);
    assert_eq!(isqrt(99), 9);
    assert_eq!(isqrt(100), 10);
    assert_eq!(isqrt(u128::MAX), u64::MAX);
}
