use bencher_core::adapter::AdapterKind;
use bencher_core::stats::{Ratio, Side, StatisticConfig, TestKind};
use bencher_core::store::{
    AlertStatus, GetDirParams, JsonDirection, NewBenchmark, NewMetric, NewReport,
    ProjThresholdParams, ProjThresholdsParams, ProjThresholdsSort, Store, StoreError,
    ThresholdIdentity, ThresholdQuery,
};
use bencher_core::stats::ConfigError;
use bencher_core::testbed::{InsertTestbed, JsonNewTestbed, Testbeds};

fn report(branch_id: u64, hash: Option<&str>, start_time: u64, values: &[(&str, u64)]) -> NewReport {
    NewReport {
        project_id: 1,
        branch_id,
        testbed_id: 7,
        hash: hash.map(|h| h.to_string()),
        adapter: AdapterKind::Rust,
        user_id: 3,
        start_time,
        end_time: start_time + 1,
        benchmarks: values
            .iter()
            .map(|(name, value)| NewBenchmark {
                name: name.to_string(),
                measures: vec![NewMetric {
                    measure: "latency".to_string(),
                    value: *value,
                    lower_value: None,
                    upper_value: None,
                }],
            })
            .collect(),
    }
}

fn percentage(num: u16, den: u16) -> StatisticConfig {
    StatisticConfig {
        test: TestKind::Percentage,
        min_sample_size: 1,
        max_sample_size: None,
        window: None,
        lower_boundary: false,
        upper_boundary: true,
        param: Ratio { num, den },
    }
}

fn latency_identity(store: &Store) -> ThresholdIdentity {
    let measure_id = store.measures.iter().position(|m| m.name == "latency").unwrap();
    ThresholdIdentity { project_id: 1, branch_id: 2, testbed_id: 7, measure_id }
}

#[test]
fn same_hash_resolves_to_the_same_version() {
    let mut store = Store::new();
    let a = store.resolve_version(2, Some("abc".to_string())).unwrap();
    let b = store.resolve_version(2, Some("abc".to_string())).unwrap();
    assert_eq!(a, b);
    assert_eq!(store.versions.len(), 1);
    assert_eq!(store.versions[a].number, 1);
    let c = store.resolve_version(2, Some("def".to_string())).unwrap();
    assert_eq!(store.versions[c].number, 2);
    let d = store.resolve_version(2, None).unwrap();
    assert_eq!(store.versions[d].number, 3);
    let other = store.resolve_version(9, Some("abc".to_string())).unwrap();
    assert_eq!(store.versions[other].number, 1);
    assert_ne!(other, a);
}

#[test]
fn version_numbers_are_exhausted_without_change() {
    let mut store = Store::new();
    let a = store.resolve_version(2, Some("abc".to_string())).unwrap();
    store.versions[a].number = u64::MAX;
    assert_eq!(store.resolve_version(2, None), Err(StoreError::VersionOverflow));
    assert_eq!(store.versions.len(), 1);
    assert_eq!(store.resolve_version(2, Some("abc".to_string())), Ok(a));
}

#[test]
fn end_to_end_percentage_threshold() {
    let mut store = Store::new();
    let first = store.ingest(&report(2, Some("h1"), 10, &[("bench", 100)])).unwrap();
    assert_eq!(store.reports.len(), 1);
    assert_eq!(store.metrics.len(), 1);
    assert_eq!(store.metrics[0].value, 100);
    assert_eq!(first.results[0].boundary, None);
    assert!(store.boundaries.is_empty());
    assert!(store.alerts.is_empty());

    let id = latency_identity(&store);
    let t = store.create_or_replace(id, percentage(10, 100), 11).unwrap();
    assert_eq!(store.thresholds[t].statistic_id, 0);

    let second = store.ingest(&report(2, Some("h2"), 20, &[("bench", 130)])).unwrap();
    assert_eq!(second.results[0].alert, Some(Side::Above));
    assert_eq!(store.boundaries.len(), 1);
    assert_eq!(store.boundaries[0].boundary.upper_limit, Some(110));
    assert_eq!(store.alerts.len(), 1);
    assert_eq!(store.alerts[0].side, Side::Above);
    assert_eq!(store.alerts[0].status, AlertStatus::Active);

    let third = store.ingest(&report(2, Some("h3"), 30, &[("bench", 95)])).unwrap();
    assert_eq!(third.results[0].alert, None);
    assert_eq!(store.alerts.len(), 1);
    assert_eq!(store.versions.len(), 3);
}

#[test]
fn replacing_a_statistic_keeps_old_alerts_explainable() {
    let mut store = Store::new();
    store.ingest(&report(2, None, 10, &[("bench", 100)])).unwrap();
    let id = latency_identity(&store);
    let old_config = percentage(10, 100);
    let t = store.create_or_replace(id, old_config, 11).unwrap();
    store.ingest(&report(2, None, 20, &[("bench", 130)])).unwrap();
    assert_eq!(store.alerts.len(), 1);

    let new_config = percentage(50, 100);
    assert_eq!(store.create_or_replace(id, new_config, 12), Ok(t));
    assert_eq!(store.thresholds.len(), 1);
    assert_eq!(store.thresholds[t].statistic_id, 1);
    assert_eq!(store.thresholds[t].modified, 12);
    let boundary = store.boundaries[store.alerts[0].boundary_id];
    assert_eq!(store.statistics[boundary.statistic_id].config, old_config);
    assert_eq!(store.statistics[1].config, new_config);
}

#[test]
fn invalid_statistic_is_refused_before_any_write() {
    let mut store = Store::new();
    let id = ThresholdIdentity { project_id: 1, branch_id: 2, testbed_id: 7, measure_id: 0 };
    let mut c = percentage(10, 100);
    c.upper_boundary = false;
    assert_eq!(
        store.create_or_replace(id, c, 1),
        Err(StoreError::InvalidStatistic(ConfigError::NoBoundary))
    );
    assert!(store.thresholds.is_empty());
    assert!(store.statistics.is_empty());
}

#[test]
fn failed_ingestion_leaves_nothing_behind() {
    let mut store = Store::new();
    store.ingest(&report(2, None, 10, &[("bench", 0)])).unwrap();
    store.ingest(&report(2, None, 11, &[("bench", u64::MAX)])).unwrap();
    let id = latency_identity(&store);
    let z = StatisticConfig {
        test: TestKind::ZScore,
        min_sample_size: 2,
        max_sample_size: None,
        window: None,
        lower_boundary: true,
        upper_boundary: true,
        param: Ratio { num: 1, den: 1 },
    };
    store.create_or_replace(id, z, 12).unwrap();
    let before = (store.benchmarks.len(), store.versions.len(), store.reports.len(), store.metrics.len());
    let result = store.ingest(&report(2, Some("new"), 13, &[("other", 1), ("bench", 5)]));
    assert_eq!(result.unwrap_err(), StoreError::OutOfRange);
    let after = (store.benchmarks.len(), store.versions.len(), store.reports.len(), store.metrics.len());
    assert_eq!(before, after);
}

#[test]
fn history_is_bounded_by_sample_size_and_window() {
    let mut store = Store::new();
    for (i, v) in [1000u64, 100, 100].iter().enumerate() {
        store.ingest(&report(2, None, 10 * (i as u64 + 1), &[("bench", *v)])).unwrap();
    }
    let id = latency_identity(&store);
    let mut c = percentage(10, 100);
    c.max_sample_size = Some(2);
    store.create_or_replace(id, c, 40).unwrap();
    let r = store.ingest(&report(2, None, 40, &[("bench", 115)])).unwrap();
    assert_eq!(r.results[0].boundary.unwrap().upper_limit, Some(110));
    assert_eq!(r.results[0].alert, Some(Side::Above));

    let mut w = percentage(10, 100);
    w.window = Some(5);
    store.create_or_replace(id, w, 50).unwrap();
    let r = store.ingest(&report(2, None, 44, &[("bench", 200)])).unwrap();
    // only the value ingested at time 40 is within 5 of 44
    assert_eq!(r.results[0].boundary.unwrap().upper_limit, Some(126));
}

#[test]
fn reports_and_thresholds_are_listed() {
    let mut store = Store::new();
    store.ingest(&report(2, None, 10, &[("a", 1)])).unwrap();
    store.ingest(&report(2, None, 20, &[("a", 1)])).unwrap();
    assert_eq!(store.reports_of(&GetDirParams { project: 1 }), vec![1, 0]);
    assert!(store.reports_of(&GetDirParams { project: 5 }).is_empty());

    let m = latency_identity(&store).measure_id;
    let first = ThresholdIdentity { project_id: 1, branch_id: 2, testbed_id: 7, measure_id: m };
    let second = ThresholdIdentity { project_id: 1, branch_id: 3, testbed_id: 7, measure_id: m };
    store.create_or_replace(first, percentage(1, 10), 100).unwrap();
    store.create_or_replace(second, percentage(1, 10), 200).unwrap();
    store.create_or_replace(first, percentage(2, 10), 300).unwrap();
    let params = ProjThresholdsParams { project: 1 };
    let all = ThresholdQuery { branch: None, testbed: None, measure: None };
    let list = |sort, dir, offset, limit| store.thresholds_of(&params, &all, sort, dir, offset, limit);
    assert_eq!(list(ProjThresholdsSort::Created, None, 0, 10), vec![0, 1]);
    assert_eq!(list(ProjThresholdsSort::Modified, None, 0, 10), vec![0, 1]);
    assert_eq!(list(ProjThresholdsSort::Modified, Some(JsonDirection::Asc), 0, 10), vec![1, 0]);
    assert_eq!(list(ProjThresholdsSort::Created, Some(JsonDirection::Desc), 0, 10), vec![1, 0]);
    assert_eq!(list(ProjThresholdsSort::Created, None, 1, 10), vec![1]);
    assert_eq!(list(ProjThresholdsSort::Created, None, 0, 1), vec![0]);
    assert!(list(ProjThresholdsSort::Created, None, 2, 10).is_empty());
    let branch3 = ThresholdQuery { branch: Some(3), testbed: None, measure: None };
    assert_eq!(
        store.thresholds_of(&params, &branch3, ProjThresholdsSort::Created, None, 0, 10),
        vec![1]
    );
    let other_testbed = ThresholdQuery { branch: None, testbed: Some(8), measure: None };
    assert!(store
        .thresholds_of(&params, &other_testbed, ProjThresholdsSort::Created, None, 0, 10)
        .is_empty());
    let (row, config) = store.threshold_of(&ProjThresholdParams { project: 1, threshold: 0 }).unwrap();
    assert_eq!(row.statistic_id, 2);
    assert_eq!(config, percentage(2, 10));
    assert!(store.threshold_of(&ProjThresholdParams { project: 4, threshold: 0 }).is_none());

    let versions = store.branch_versions(2);
    assert_eq!(versions.len(), 2);
    assert_eq!((versions[1].id, versions[1].version_id), (1, 1));
}

#[test]
fn testbeds_get_a_uuid_and_a_slug() {
    let new = JsonNewTestbed {
        name: "ci-runner".to_string(),
        slug: None,
        os_name: Some("linux".to_string()),
        os_version: None,
        runtime_name: None,
        runtime_version: None,
        cpu: None,
        ram: None,
        disk: None,
    };
    let insert = InsertTestbed::from_json(4, new);
    let chars: Vec<char> = insert.uuid.chars().collect();
    assert_eq!(chars.len(), 36);
    for (i, c) in chars.iter().enumerate() {
        if [8, 13, 18, 23].contains(&i) {
            assert_eq!(*c, '-');
        } else {
            assert!(c.is_ascii_hexdigit() && !c.is_ascii_uppercase());
        }
    }
    assert_eq!(chars[14], '4');
    assert!(['8', '9', 'a', 'b'].contains(&chars[19]));
    assert_eq!(insert.slug, "ci-runner");
    assert_eq!(insert.os_name.as_deref(), Some("linux"));
    let uuid = insert.uuid.clone();
    let mut testbeds = Testbeds::new();
    let id = testbeds.insert(insert);
    assert_eq!(testbeds.get_id(&uuid), Some(id));
    assert_eq!(testbeds.get_uuid(id), Some(uuid));
    assert_eq!(testbeds.get_uuid(id + 1), None);
}

#[test]
fn lower_side_sees_the_breaching_value_in_history() {
    let mut store = Store::new();
    store.ingest(&report(2, None, 10, &[("bench", 100)])).unwrap();
    let id = latency_identity(&store);
    let mut both = percentage(10, 100);
    both.lower_boundary = true;
    store.create_or_replace(id, both, 11).unwrap();
    let second = store.ingest(&report(2, None, 20, &[("bench", 130)])).unwrap();
    assert_eq!(second.results[0].alert, Some(Side::Above));
    // the history is now 100 and 130: mean 115, lower limit 103.5
    let third = store.ingest(&report(2, None, 30, &[("bench", 95)])).unwrap();
    assert_eq!(third.results[0].boundary.unwrap().lower_limit, Some(104));
    assert_eq!(third.results[0].alert, Some(Side::Below));
}

#[test]
fn reports_are_listed_by_start_time() {
    let mut store = Store::new();
    store.ingest(&report(2, None, 30, &[("a", 1)])).unwrap();
    store.ingest(&report(2, None, 10, &[("a", 1)])).unwrap();
    store.ingest(&report(2, None, 30, &[("a", 1)])).unwrap();
    store.ingest(&report(2, None, 20, &[("a", 1)])).unwrap();
    assert_eq!(store.reports_of(&GetDirParams { project: 1 }), vec![2, 0, 3, 1]);
}

#[test]
fn ingestion_fails_only_on_exhausted_versions_or_out_of_range() {
    let mut store = Store::new();
    store.ingest(&report(2, Some("a"), 10, &[("bench", 1)])).unwrap();
    store.versions[0].number = u64::MAX;
    let before = store.reports.len();
    assert_eq!(
        store.ingest(&report(2, Some("b"), 11, &[("bench", 1)])).unwrap_err(),
        StoreError::VersionOverflow
    );
    assert_eq!(store.reports.len(), before);
    // a known hash still resolves
    assert!(store.ingest(&report(2, Some("a"), 12, &[("bench", 1)])).is_ok());
    // with too short a history, evaluation is skipped and ingestion succeeds
    let id = latency_identity(&store);
    let mut c = percentage(10, 100);
    c.min_sample_size = 10;
    store.create_or_replace(id, c, 13).unwrap();
    let r = store.ingest(&report(2, Some("a"), 14, &[("bench", 1_000)])).unwrap();
    assert_eq!(r.results[0].boundary, None);
    assert!(store.alerts.is_empty());
}

#[test]
fn names_and_thresholds_stay_unique() {
    let mut store = Store::new();
    store.ingest(&report(2, None, 10, &[("a", 1), ("b", 2)])).unwrap();
    store.ingest(&report(2, None, 11, &[("b", 3), ("a", 4)])).unwrap();
    assert_eq!(store.benchmarks.len(), 2);
    assert_eq!(store.measures.len(), 1);
    let id = latency_identity(&store);
    store.create_or_replace(id, percentage(1, 10), 12).unwrap();
    store.create_or_replace(id, percentage(2, 10), 13).unwrap();
    assert_eq!(store.thresholds.len(), 1);
    assert_eq!(store.statistics.len(), 2);
}

#[test]
fn deleted_threshold_stops_applying_but_history_stays() {
    let mut store = Store::new();
    store.ingest(&report(2, None, 10, &[("bench", 100)])).unwrap();
    let id = latency_identity(&store);
    let config = percentage(10, 100);
    let t = store.create_or_replace(id, config, 11).unwrap();
    store.ingest(&report(2, None, 20, &[("bench", 130)])).unwrap();
    assert_eq!(store.alerts.len(), 1);
    let params = ProjThresholdParams { project: 1, threshold: t };
    assert_eq!(store.delete_threshold(&ProjThresholdParams { project: 9, threshold: t }), Err(StoreError::NotFound));
    assert_eq!(store.delete_threshold(&params), Ok(()));
    assert_eq!(store.delete_threshold(&params), Err(StoreError::NotFound));
    assert!(store.threshold_of(&params).is_none());
    let all = ThresholdQuery { branch: None, testbed: None, measure: None };
    assert!(store
        .thresholds_of(&ProjThresholdsParams { project: 1 }, &all, ProjThresholdsSort::Created, None, 0, 10)
        .is_empty());
    let r = store.ingest(&report(2, None, 30, &[("bench", 500)])).unwrap();
    assert_eq!(r.results[0].boundary, None);
    let boundary = store.boundaries[store.alerts[0].boundary_id];
    assert_eq!(store.statistics[boundary.statistic_id].config, config);
    // configuring the identity again makes a new threshold
    let t2 = store.create_or_replace(id, config, 40).unwrap();
    assert_ne!(t2, t);
}
