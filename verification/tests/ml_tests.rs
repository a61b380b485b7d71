use wisdom::feature_store::{FeatureStore, SnapshotId, Transformation};
use wisdom::ml::inference::{order_feature_values, snapshot_feature_values, InferenceError};
use wisdom::ml::training::{
    artifact_file_names, ArtifactError, ModelArchitecture, ModelArtifact, MAX_LABEL_CHARACTER,
};
use wisdom::models::column::Column;
use wisdom::models::table::{ColumnData, NumericValue};
use wisdom::scalar::Real;

fn as_real(x: f64) -> Real {
    Real::from_bits(x.to_bits())
}

fn store_with(values: &[f64]) -> (FeatureStore, SnapshotId) {
    let mut store = FeatureStore::new(5).unwrap();
    let cells = values.iter().map(|v| Some(as_real(*v))).collect();
    let column = Column::new_from_parsed(cells, "age".to_string()).unwrap();
    store.commit(ColumnData::Float(column), Transformation::Custom("v1".to_string())).unwrap();
    let snapshot_id = store.create_snapshot(vec![("age".to_string(), 1)], None).unwrap();
    (store, snapshot_id)
}

fn linear() -> ModelArchitecture {
    ModelArchitecture::Linear { in_features: 1, out_features: 1 }
}

#[test]
fn model_artifact_new_succeeds_with_valid_label() {
    let (_, snapshot_id) = store_with(&[1.0]);

    let result = ModelArtifact::new(linear(), snapshot_id.clone(), "my-model_v1".to_string());

    assert!(result.is_ok());
    let artifact = result.unwrap();
    assert_eq!(artifact.label(), "my-model_v1");
    assert_eq!(artifact.snapshot_id(), &snapshot_id);
    assert_eq!(artifact.architecture(), &linear());
}

#[test]
fn model_artifact_new_fails_for_empty_label() {
    let (_, snapshot_id) = store_with(&[1.0]);

    let result = ModelArtifact::new(linear(), snapshot_id, "".to_string());

    match result {
        Err(ArtifactError::EmptyLabel) => {}
        _ => panic!("Unexpected result."),
    }
}

#[test]
fn model_artifact_new_fails_for_too_long_label() {
    let (_, snapshot_id) = store_with(&[1.0]);
    let long_label = "a".repeat(99);

    let result = ModelArtifact::new(linear(), snapshot_id, long_label);

    match result {
        Err(ArtifactError::LabelTooLong) => {}
        _ => panic!("Unexpected result."),
    }
}

#[test]
fn model_artifact_new_fails_for_invalid_character() {
    let (_, snapshot_id) = store_with(&[1.0]);

    let result = ModelArtifact::new(linear(), snapshot_id, "bad/label".to_string());

    match result {
        Err(ArtifactError::InvalidCharacter) => {}
        _ => panic!("Unexpected result."),
    }
}

#[test]
fn model_artifact_label_limit_is_inclusive() {
    let (_, snapshot_id) = store_with(&[1.0]);

    let at_limit = "x".repeat(MAX_LABEL_CHARACTER);
    assert!(ModelArtifact::new(linear(), snapshot_id.clone(), at_limit).is_ok());
    let over = "x".repeat(MAX_LABEL_CHARACTER + 1);
    assert!(matches!(
        ModelArtifact::new(linear(), snapshot_id.clone(), over),
        Err(ArtifactError::LabelTooLong)
    ));
    assert!(matches!(
        ModelArtifact::new(linear(), snapshot_id, "ağaç".to_string()),
        Err(ArtifactError::InvalidCharacter)
    ));
}

#[test]
fn artifact_file_names_join_snapshot_and_label() {
    let id = SnapshotId("abc".to_string());

    let (weights, metadata) = artifact_file_names(&id, "model");

    assert_eq!(weights, "abc_model.safetensors");
    assert_eq!(metadata, "abc_model.json");
}

#[test]
fn run_inference_from_snapshot_produces_predictions() {
    let (store, snapshot_id) = store_with(&[1.0, 2.0, 3.0, 4.0]);

    let result = snapshot_feature_values(&store, &snapshot_id);

    assert!(result.is_ok());
    let rows = result.unwrap();
    assert_eq!(rows.len(), 4);
    assert!(rows.iter().all(|row| row.len() == 1));
    assert_eq!(rows[2], vec![NumericValue::Float(as_real(3.0))]);
}

#[test]
fn snapshot_feature_values_fails_for_unknown_snapshot() {
    let (store, _) = store_with(&[1.0]);

    let result = snapshot_feature_values(&store, &SnapshotId("nope".to_string()));

    assert!(matches!(result, Err(InferenceError::TableReconstructionFailed(_))));
}

#[test]
fn run_inference_from_values_produces_predictions_regardless_of_map_order() {
    let feature_names = vec!["age".to_string()];
    let values = vec![("age".to_string(), as_real(2.0))];

    let result = order_feature_values(&feature_names, &values);

    assert!(result.is_ok());
    assert_eq!(result.unwrap(), vec![as_real(2.0)]);
}

#[test]
fn order_feature_values_follows_the_feature_order() {
    let feature_names = vec!["b".to_string(), "a".to_string()];
    let values = vec![("a".to_string(), as_real(1.0)), ("b".to_string(), as_real(2.0))];

    assert_eq!(order_feature_values(&feature_names, &values).unwrap(), vec![as_real(2.0), as_real(1.0)]);
}

#[test]
fn run_inference_from_values_fails_for_missing_feature() {
    let feature_names = vec!["age".to_string(), "income".to_string()];
    let values = vec![("age".to_string(), as_real(2.0))];

    let result = order_feature_values(&feature_names, &values);

    match result {
        Err(InferenceError::MissingFeature { name }) => assert_eq!(name, "income".to_string()),
        _ => panic!("Unexpected result."),
    }
}

#[test]
fn run_inference_from_values_fails_for_unexpected_feature() {
    let feature_names = vec!["age".to_string()];
    let values = vec![("age".to_string(), as_real(2.0)), ("extra".to_string(), as_real(9.0))];

    let result = order_feature_values(&feature_names, &values);

    match result {
        Err(InferenceError::UnexpectedFeature) => {}
        _ => panic!("Unexpected result."),
    }
}

#[test]
fn snapshot_feature_values_rejects_text_features() {
    let mut store = FeatureStore::new(5).unwrap();
    let column = Column::new_from_parsed(vec![Some("a".to_string())], "city".to_string()).unwrap();
    store.commit(ColumnData::Text(column), Transformation::FillWith).unwrap();
    let id = store.create_snapshot(vec![("city".to_string(), 1)], None).unwrap();

    match snapshot_feature_values(&store, &id) {
        Err(InferenceError::FeatureTensorFailed(
            wisdom::models::table::TableError::NonNumericColumn { name },
        )) => assert_eq!(name, "city"),
        _ => panic!("Unexpected result."),
    }
}
