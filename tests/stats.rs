use bencher_core::stats::{
    evaluate, isqrt, sort_values, sum_values, Boundary, ConfigError, EvalError, Evaluation, Ratio,
    Side, StatisticConfig, TestKind,
};

fn config(test: TestKind, min: u64, num: u16, den: u16) -> StatisticConfig {
    StatisticConfig {
        test,
        min_sample_size: min,
        max_sample_size: None,
        window: None,
        lower_boundary: true,
        upper_boundary: true,
        param: Ratio { num, den },
    }
}

fn limits(e: &Evaluation) -> (Option<i128>, Option<i128>) {
    (e.boundary.lower_limit, e.boundary.upper_limit)
}

#[test]
fn too_few_samples_give_no_boundary_for_every_test() {
    let history = vec![100, 110, 90];
    for test in [TestKind::ZScore, TestKind::TTest, TestKind::Percentage, TestKind::Iqr] {
        let c = config(test, 4, 1, 1);
        assert_eq!(evaluate(&history, 1_000_000, &c), Ok(None));
    }
    let c = config(TestKind::Percentage, 1, 1, 10);
    assert_eq!(evaluate(&vec![], 5, &c), Ok(None));
}

#[test]
fn z_score_limit_itself_is_not_a_breach() {
    // mean 100000, sample standard deviation 10000, critical value 2
    let history = vec![90_000, 90_000, 100_000, 110_000, 110_000];
    let c = config(TestKind::ZScore, 2, 2, 1);
    let at_limit = evaluate(&history, 120_000, &c).unwrap().unwrap();
    assert_eq!(limits(&at_limit), (Some(80_000), Some(120_000)));
    assert_eq!(at_limit.breach, None);
    let past_limit = evaluate(&history, 120_001, &c).unwrap().unwrap();
    assert_eq!(past_limit.breach, Some(Side::Above));
    let below = evaluate(&history, 79_999, &c).unwrap().unwrap();
    assert_eq!(below.breach, Some(Side::Below));
    let at_lower = evaluate(&history, 80_000, &c).unwrap().unwrap();
    assert_eq!(at_lower.breach, None);
}

#[test]
fn t_test_uses_the_standard_error() {
    // mean 100, sample standard deviation 14.14..., standard error 10
    let history = vec![90, 110];
    let c = config(TestKind::TTest, 2, 2, 1);
    let e = evaluate(&history, 121, &c).unwrap().unwrap();
    assert_eq!(limits(&e), (Some(80), Some(120)));
    assert_eq!(e.breach, Some(Side::Above));
}

#[test]
fn percentage_limits_scale_the_mean() {
    let c = config(TestKind::Percentage, 1, 10, 100);
    let e = evaluate(&vec![100], 111, &c).unwrap().unwrap();
    assert_eq!(limits(&e), (Some(90), Some(110)));
    assert_eq!(e.breach, Some(Side::Above));
    let e = evaluate(&vec![100, 101], 95, &c).unwrap().unwrap();
    // mean 100.5: upper 110.55, lower 90.45
    assert_eq!(limits(&e), (Some(91), Some(110)));
    assert_eq!(e.breach, None);
}

#[test]
fn iqr_limits_come_from_the_quartiles() {
    let history = vec![9, 1, 8, 2, 7, 3, 6, 4, 5];
    let c = config(TestKind::Iqr, 1, 3, 2);
    let e = evaluate(&history, 14, &c).unwrap().unwrap();
    // Q1 = 3, Q3 = 7, IQR = 4, k = 1.5
    assert_eq!(limits(&e), (Some(-3), Some(13)));
    assert_eq!(e.breach, Some(Side::Above));
}

#[test]
fn disabled_sides_have_no_limit() {
    let mut c = config(TestKind::Percentage, 1, 10, 100);
    c.lower_boundary = false;
    let e = evaluate(&vec![100], 50, &c).unwrap().unwrap();
    assert_eq!(e.boundary, Boundary { lower_limit: None, upper_limit: Some(110) });
    assert_eq!(e.breach, None);
}

#[test]
fn huge_spread_is_out_of_range() {
    let c = config(TestKind::ZScore, 2, 1, 1);
    assert_eq!(evaluate(&vec![0, u64::MAX], 0, &c), Err(EvalError::OutOfRange));
    let zero = config(TestKind::ZScore, 2, 0, 1);
    let e = evaluate(&vec![0, u64::MAX], 0, &zero).unwrap().unwrap();
    assert!(e.boundary.upper_limit.is_some());
}

#[test]
fn configurations_are_validated() {
    let mut c = config(TestKind::ZScore, 2, 2, 1);
    assert_eq!(c.validate(), Ok(()));
    c.min_sample_size = 1;
    assert_eq!(c.validate(), Err(ConfigError::MinSampleSize));
    c.min_sample_size = 5;
    c.max_sample_size = Some(4);
    assert_eq!(c.validate(), Err(ConfigError::MaxBelowMin));
    c.max_sample_size = Some(5);
    c.param.den = 0;
    assert_eq!(c.validate(), Err(ConfigError::ZeroDenominator));
    c.lower_boundary = false;
    c.upper_boundary = false;
    assert_eq!(c.validate(), Err(ConfigError::NoBoundary));
    let p = config(TestKind::Percentage, 1, 10, 100);
    assert_eq!(p.validate(), Ok(()));
}

#[test]
fn helpers_compute_exact_values() {
    assert_eq!(isqrt(0), 0);
    assert_eq!(isqrt(15), 3);
    assert_eq!(isqrt(16), 4);
    assert_eq!(isqrt(u128::MAX), u64::MAX as u128);
    assert_eq!(sort_values(&vec![3, 1, 2, 1]), vec![1, 1, 2, 3]);
    assert_eq!(sum_values(&vec![u64::MAX, u64::MAX]), 2 * (u64::MAX as u128));
}
