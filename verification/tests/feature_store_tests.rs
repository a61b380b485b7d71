use wisdom::feature_store::{
    compute_snapshot_id, hex_digest, FeatureStore, FeatureStoreError, SnapshotId, Transformation,
};
use wisdom::models::column::Column;
use wisdom::models::table::{ColumnData, NumericValue};
use wisdom::scalar::Real;

fn as_real(x: f64) -> Real {
    Real::from_bits(x.to_bits())
}

fn float_column(values: &[f64], name: &str) -> ColumnData {
    let cells = values.iter().map(|v| Some(as_real(*v))).collect();
    ColumnData::Float(Column::new_from_parsed(cells, name.to_string()).unwrap())
}

fn parse_real(s: &String) -> Option<Real> {
    s.parse::<f64>().ok().map(as_real)
}

#[test]
fn new_succeeds_with_valid_max_versions() {
    let store = FeatureStore::new(5);

    assert!(store.is_ok());
    let store = store.unwrap();
    assert_eq!(store.max_versions(), 5);
    assert_eq!(store.feature_count(), 0);
    assert_eq!(store.snapshot_count(), 0);
}

#[test]
fn new_fails_when_max_versions_is_zero() {
    let result = FeatureStore::new(0);

    match result {
        Err(FeatureStoreError::MaxVersionsTooLow { min, actual }) => {
            assert_eq!(min, 2);
            assert_eq!(actual, 0);
        }
        _ => panic!("Unexpected result."),
    }
}

#[test]
fn new_fails_when_max_versions_is_one() {
    let result = FeatureStore::new(1);

    match result {
        Err(FeatureStoreError::MaxVersionsTooLow { min, actual }) => {
            assert_eq!(min, 2);
            assert_eq!(actual, 1);
        }
        _ => panic!("Unexpected result."),
    }
}

#[test]
fn commit_returns_incrementing_version_numbers() {
    let mut store = FeatureStore::new(5).unwrap();

    let first = store.commit(float_column(&[1.0], "age"), Transformation::Custom("v1".to_string()));
    let second = store.commit(float_column(&[2.0], "age"), Transformation::Custom("v2".to_string()));

    assert_eq!(first.unwrap(), 1);
    assert_eq!(second.unwrap(), 2);
}

#[test]
fn commit_fails_for_raw_column() {
    let mut store = FeatureStore::new(5).unwrap();

    let result = store.commit(
        ColumnData::Raw(vec![Some("25".to_string())]),
        Transformation::Custom("v1".to_string()),
    );

    match result {
        Err(FeatureStoreError::RawColumnExists) => {}
        _ => panic!("Unexpected result."),
    }
    assert_eq!(store.feature_count(), 0);
}

#[test]
fn commit_tracks_versions_independently_per_column() {
    let mut store = FeatureStore::new(5).unwrap();

    let age_version =
        store.commit(float_column(&[1.0], "age"), Transformation::Custom("v1".to_string()));
    let score_version =
        store.commit(float_column(&[2.0], "score"), Transformation::Custom("v1".to_string()));

    assert_eq!(age_version.unwrap(), 1);
    assert_eq!(score_version.unwrap(), 1);
}

#[test]
fn commit_prunes_middle_versions_beyond_max_versions() {
    let mut store = FeatureStore::new(3).unwrap();

    for i in 1..=5 {
        store
            .commit(float_column(&[i as f64], "age"), Transformation::Custom(format!("v{i}")))
            .unwrap();
    }

    assert!(store.get_version("age", 1).is_ok());
    assert!(store.get_version("age", 2).is_err());
    assert!(store.get_version("age", 3).is_err());
    assert!(store.get_version("age", 4).is_ok());
    assert!(store.get_version("age", 5).is_ok());
}

#[test]
fn commit_never_exceeds_max_versions() {
    let mut store = FeatureStore::new(3).unwrap();

    for i in 1..=10 {
        store
            .commit(float_column(&[i as f64], "age"), Transformation::Custom(format!("v{i}")))
            .unwrap();
    }

    assert_eq!(store.versions_of("age").unwrap().len(), 3);
}

#[test]
fn commit_keeps_the_first_version_and_the_latest() {
    let mut store = FeatureStore::new(2).unwrap();

    for i in 1..=4 {
        store.commit(float_column(&[i as f64], "age"), Transformation::MinMaxScale).unwrap();
    }

    let numbers: Vec<usize> =
        store.versions_of("age").unwrap().iter().map(|v| v.version_number()).collect();
    assert_eq!(numbers, vec![1, 4]);
    assert!(matches!(
        store.get_latest_version("age").unwrap().transformation(),
        Transformation::MinMaxScale
    ));
}

#[test]
fn get_version_returns_committed_version() {
    let mut store = FeatureStore::new(5).unwrap();
    store
        .commit(float_column(&[1.0, 2.0], "age"), Transformation::Custom("initial".to_string()))
        .unwrap();

    let result = store.get_version("age", 1);
    assert!(result.is_ok());
    let version = result.unwrap();
    assert_eq!(version.version_number(), 1);
    assert_eq!(version.name(), "age".to_string());
    assert_eq!(version.data().len(), 2);
}

#[test]
fn get_version_fails_for_nonexistent_version() {
    let mut store = FeatureStore::new(5).unwrap();
    store
        .commit(float_column(&[1.0], "age"), Transformation::Custom("initial".to_string()))
        .unwrap();

    let result = store.get_version("age", 5);

    match result {
        Err(FeatureStoreError::VersionNotFound { name, version }) => {
            assert_eq!(name, "age".to_string());
            assert_eq!(version, 5);
        }
        _ => panic!("Unexpected result."),
    }
}

#[test]
fn get_version_fails_for_uncommitted_column() {
    let store = FeatureStore::new(5).unwrap();

    let result = store.get_version("city", 1);

    match result {
        Err(FeatureStoreError::VersionNotFound { name, version }) => {
            assert_eq!(name, "city".to_string());
            assert_eq!(version, 1);
        }
        _ => panic!("Unexpected result."),
    }
}

#[test]
fn get_latest_version_returns_highest_version() {
    let mut store = FeatureStore::new(5).unwrap();
    store.commit(float_column(&[1.0], "age"), Transformation::Custom("v1".to_string())).unwrap();
    store.commit(float_column(&[2.0], "age"), Transformation::Custom("v2".to_string())).unwrap();

    let result = store.get_latest_version("age");

    assert!(result.is_ok());
    assert_eq!(result.unwrap().version_number(), 2);
}

#[test]
fn get_latest_version_fails_for_uncommitted_column() {
    let store = FeatureStore::new(5).unwrap();

    let result = store.get_latest_version("city");

    match result {
        Err(FeatureStoreError::FeatureNotFound { name }) => assert_eq!(name, "city".to_string()),
        _ => panic!("Unexpected result."),
    }
}

fn store_with_age() -> FeatureStore {
    let mut store = FeatureStore::new(5).unwrap();
    store.commit(float_column(&[1.0], "age"), Transformation::Custom("init".to_string())).unwrap();
    store
}

#[test]
fn create_snapshot_succeeds_and_can_be_retrieved() {
    let mut store = store_with_age();

    let result = store.create_snapshot(vec![("age".to_string(), 1)], Some("v1".to_string()));

    assert!(result.is_ok());
    let id = result.unwrap();
    let fetched = store.get_snapshot(&id);
    assert!(fetched.is_ok());
    let snapshot = fetched.unwrap();
    assert_eq!(snapshot.id(), &id);
    assert_eq!(snapshot.label(), Some("v1"));
    assert_eq!(snapshot.ordered_features(), &[("age".to_string(), 1)][..]);
}

#[test]
fn create_snapshot_is_deterministic_for_same_order() {
    let mut store = store_with_age();

    let id1 = store.create_snapshot(vec![("age".to_string(), 1)], None).unwrap();
    let id2 = store.create_snapshot(vec![("age".to_string(), 1)], None).unwrap();

    assert_eq!(id1, id2);
    assert_eq!(store.snapshot_count(), 1);
}

#[test]
fn create_snapshot_replaces_the_label_of_an_equal_snapshot() {
    let mut store = store_with_age();

    let id1 = store.create_snapshot(vec![("age".to_string(), 1)], Some("a".to_string())).unwrap();
    let id2 = store.create_snapshot(vec![("age".to_string(), 1)], Some("b".to_string())).unwrap();

    assert_eq!(id1, id2);
    assert_eq!(store.get_snapshot(&id1).unwrap().label(), Some("b"));
}

#[test]
fn create_snapshot_differs_by_order() {
    let mut store = FeatureStore::new(5).unwrap();
    store.commit(float_column(&[1.0], "age"), Transformation::Custom("init".to_string())).unwrap();
    store
        .commit(float_column(&[2.0], "income"), Transformation::Custom("init".to_string()))
        .unwrap();

    let id1 = store
        .create_snapshot(vec![("age".to_string(), 1), ("income".to_string(), 1)], None)
        .unwrap();
    let id2 = store
        .create_snapshot(vec![("income".to_string(), 1), ("age".to_string(), 1)], None)
        .unwrap();

    assert_ne!(id1, id2);
}

#[test]
fn create_snapshot_fails_for_nonexistent_version() {
    let mut store = FeatureStore::new(5).unwrap();

    let result = store.create_snapshot(vec![("age".to_string(), 1)], None);

    match result {
        Err(FeatureStoreError::VersionNotFound { name, version }) => {
            assert_eq!(name, "age".to_string());
            assert_eq!(version, 1);
        }
        _ => panic!("Unexpected result."),
    }
    assert_eq!(store.snapshot_count(), 0);
}

#[test]
fn create_snapshot_fails_for_duplicate_feature_name() {
    let mut store = FeatureStore::new(5).unwrap();
    store.commit(float_column(&[1.0], "age"), Transformation::Custom("v1".to_string())).unwrap();
    store.commit(float_column(&[2.0], "age"), Transformation::Custom("v2".to_string())).unwrap();

    let result = store.create_snapshot(vec![("age".to_string(), 1), ("age".to_string(), 2)], None);

    match result {
        Err(FeatureStoreError::DuplicateFeatureInSnapshot { name }) => {
            assert_eq!(name, "age".to_string());
        }
        _ => panic!("Unexpected result."),
    }
    assert_eq!(store.snapshot_count(), 0);
}

#[test]
fn get_snapshot_fails_for_unknown_id() {
    let store = FeatureStore::new(5).unwrap();
    let fake_id = SnapshotId("does-not-exist".to_string());

    let result = store.get_snapshot(&fake_id);

    match result {
        Err(FeatureStoreError::SnapshotNotFound { id }) => {
            assert_eq!(id, fake_id);
        }
        _ => panic!("Unexpected result."),
    }
}

#[test]
fn reconstruct_table_succeeds_and_rebuilds_table() {
    let mut store = FeatureStore::new(5).unwrap();
    store
        .commit(float_column(&[1.0, 2.0], "age"), Transformation::Custom("init".to_string()))
        .unwrap();
    let id = store.create_snapshot(vec![("age".to_string(), 1)], None).unwrap();

    let result = store.reconstruct_table(&id);

    assert!(result.is_ok());
    let table = result.unwrap();
    assert_eq!(table.row_count(), 2);
    assert_eq!(table.column_count(), 1);
}

#[test]
fn reconstruct_table_preserves_column_values() {
    let mut store = FeatureStore::new(5).unwrap();
    store
        .commit(float_column(&[1.0, 2.0], "age"), Transformation::Custom("init".to_string()))
        .unwrap();
    let id = store.create_snapshot(vec![("age".to_string(), 1)], None).unwrap();

    let mut table = store.reconstruct_table(&id).unwrap();
    let rebuilt_column = table.get_column_with::<Real, _>("age", parse_real).unwrap();

    assert_eq!(rebuilt_column.get(0), Some(&Some(as_real(1.0))));
    assert_eq!(rebuilt_column.get(1), Some(&Some(as_real(2.0))));
}

#[test]
fn reconstruct_table_fails_for_unknown_snapshot() {
    let store = FeatureStore::new(5).unwrap();
    let fake_id = SnapshotId("does-not-exist".to_string());

    let result = store.reconstruct_table(&fake_id);

    match result {
        Err(FeatureStoreError::SnapshotNotFound { id }) => {
            assert_eq!(id, fake_id);
        }
        _ => panic!("Unexpected result."),
    }
}

#[test]
fn reconstruct_table_fails_when_a_pinned_version_was_pruned() {
    let mut store = FeatureStore::new(2).unwrap();
    store.commit(float_column(&[1.0], "age"), Transformation::FillWith).unwrap();
    store.commit(float_column(&[2.0], "age"), Transformation::FillWith).unwrap();
    let id = store.create_snapshot(vec![("age".to_string(), 2)], None).unwrap();
    store.commit(float_column(&[3.0], "age"), Transformation::FillWith).unwrap();

    match store.reconstruct_table(&id) {
        Err(FeatureStoreError::VersionNotFound { name, version }) => {
            assert_eq!(name, "age");
            assert_eq!(version, 2);
        }
        _ => panic!("Unexpected result."),
    }
}

#[test]
fn reconstruct_table_fails_on_unequal_lengths() {
    let mut store = FeatureStore::new(5).unwrap();
    store.commit(float_column(&[1.0, 2.0], "a"), Transformation::FillMean).unwrap();
    store.commit(float_column(&[1.0], "b"), Transformation::FillMean).unwrap();
    let id = store
        .create_snapshot(vec![("a".to_string(), 1), ("b".to_string(), 1)], None)
        .unwrap();

    match store.reconstruct_table(&id) {
        Err(FeatureStoreError::TableBuildFailed(wisdom::models::table::TableError::ColumnLengthMismatch {
            length,
        })) => assert_eq!(length, 2),
        _ => panic!("Unexpected result."),
    }
}

#[test]
fn snapshot_id_is_the_hex_sha256_of_the_length_prefixed_pairs() {
    let id = compute_snapshot_id(&[("age".to_string(), 1)]);

    assert_eq!(id.0.len(), 64);
    assert!(id.0.chars().all(|c| c.is_ascii_digit() || ('a'..='f').contains(&c)));
    let empty = compute_snapshot_id(&[]);
    assert_eq!(empty.0, "e3b0c44298fc1c149afbf4c8996fb92427ae41e4649b934ca495991b7852b855");
}

#[test]
fn hex_digest_writes_two_lowercase_digits_per_byte() {
    assert_eq!(hex_digest(&[0x00, 0x0f, 0xa5, 0xff]), "000fa5ff");
    assert_eq!(hex_digest(&[]), "");
}

#[test]
fn drift_inputs_returns_present_values_of_both_versions() {
    let mut store = FeatureStore::new(5).unwrap();
    let first = Column::new_from_parsed(vec![Some(1i64), None, Some(3)], "n".to_string()).unwrap();
    let second = Column::new_from_parsed(vec![Some(5i64)], "n".to_string()).unwrap();
    store.commit(ColumnData::Int(first), Transformation::FillWith).unwrap();
    store.commit(ColumnData::Int(second), Transformation::FillWith).unwrap();

    let (baseline, current) = store.drift_inputs("n", 1, 2).unwrap();

    assert_eq!(baseline, vec![NumericValue::Int(1), NumericValue::Int(3)]);
    assert_eq!(current, vec![NumericValue::Int(5)]);
}

#[test]
fn drift_inputs_reports_each_failure() {
    let mut store = FeatureStore::new(5).unwrap();
    let missing: Column<i64> = Column::new_from_parsed(vec![None], "n".to_string()).unwrap();
    store.commit(ColumnData::Int(missing), Transformation::FillWith).unwrap();
    let text = Column::new_from_parsed(vec![Some("x".to_string())], "t".to_string()).unwrap();
    store.commit(ColumnData::Text(text), Transformation::FillWith).unwrap();

    assert!(matches!(
        store.drift_inputs("n", 1, 9),
        Err(FeatureStoreError::VersionNotFound { version: 9, .. })
    ));
    assert!(matches!(
        store.drift_inputs("n", 1, 1),
        Err(FeatureStoreError::AllValuesMissing { version: 1, .. })
    ));
    assert!(matches!(
        store.drift_inputs("t", 1, 1),
        Err(FeatureStoreError::NonNumericFeature { .. })
    ));
}

#[test]
fn create_snapshot_reports_a_repeated_name_before_looking_up_versions() {
    let mut store = FeatureStore::new(5).unwrap();

    let result = store.create_snapshot(vec![("x".to_string(), 1), ("x".to_string(), 1)], None);

    match result {
        Err(FeatureStoreError::DuplicateFeatureInSnapshot { name }) => assert_eq!(name, "x"),
        _ => panic!("Unexpected result."),
    }
    assert_eq!(store.snapshot_count(), 0);
}

#[test]
fn commits_keep_version_one_and_the_newest() {
    let mut store = FeatureStore::new(3).unwrap();

    for i in 1..=10 {
        store.commit(float_column(&[i as f64], "age"), Transformation::FillWith).unwrap();
    }

    let numbers: Vec<usize> =
        store.versions_of("age").unwrap().iter().map(|v| v.version_number()).collect();
    assert_eq!(numbers, vec![1, 9, 10]);
}
