use vstd::prelude::*;

use crate::feature_store::{find_snapshot, FeatureStore, FeatureStoreError, SnapshotId};
use crate::keyed::{distinct_keys, entries_view, has_key, key_seq, lemma_index_of_key, value_of_key};
use crate::models::table::{numeric_rows_result, strings_view, NumericValue, Table, TableError};
use crate::scalar::Real;

verus! {

/// Errors that can occur while running inference.
#[derive(Debug)]
pub enum InferenceError {
    /// Rebuilding the snapshot's table failed.
    TableReconstructionFailed(FeatureStoreError),
    /// Looking up the snapshot failed.
    SnapshotReconstructionFailed(FeatureStoreError),
    /// Turning the rebuilt table into feature data failed.
    FeatureTensorFailed(TableError),
    /// The model's forward pass failed.
    ForwardFailed(candle_core::Error),
    /// No value was given for a feature the model needs.
    MissingFeature { name: String },
    /// A value was given for a feature the model does not expect.
    UnexpectedFeature,
    /// The input tensor could not be built.
    TensorCreationFailed(candle_core::Error),
}

/// `r` is the feature rows of the columns `names` of `t`, a failure being
/// reported as `FeatureTensorFailed`.
pub open spec fn feature_rows_of(
    t: Table,
    names: Seq<Seq<char>>,
    r: Result<Vec<Vec<NumericValue>>, InferenceError>,
) -> bool {
    match r {
        Ok(m) => numeric_rows_result(t, names, Ok(m)),
        Err(InferenceError::FeatureTensorFailed(e)) => numeric_rows_result(t, names, Err(e)),
        Err(_) => false,
    }
}

/// The feature rows a model is run on for the snapshot `snapshot_id`: the
/// snapshot's table is rebuilt, and its features are read row by row in the
/// snapshot's own order.
pub fn snapshot_feature_values(feature_store: &FeatureStore, snapshot_id: &SnapshotId) -> (r:
    Result<Vec<Vec<NumericValue>>, InferenceError>)
    requires
        feature_store.wf(),
    ensures
        match find_snapshot(feature_store.spec_snapshots(), snapshot_id.0@) {
            None => r matches Err(
                InferenceError::TableReconstructionFailed(
                    FeatureStoreError::SnapshotNotFound { id },
                ),
            ) && id.0@ == snapshot_id.0@,
            Some(s) => if feature_store.first_rebuild_failure(s.spec_features(), 0) is Some {
                r matches Err(InferenceError::TableReconstructionFailed(e))
                    && feature_store.reconstruct_outcome(snapshot_id.0@, Err(e))
            } else {
                exists|t: Table|
                    feature_store.rebuilt_table(t, s.spec_features()) && feature_rows_of(
                        t,
                        key_seq(s.spec_features()),
                        r,
                    )
            },
        },
{
    let table = match feature_store.reconstruct_table(snapshot_id) {
        Ok(t) => t,
        Err(e) => {
            return Err(InferenceError::TableReconstructionFailed(e));
        },
    };
    let snapshot = match feature_store.get_snapshot(snapshot_id) {
        Ok(s) => s,
        Err(e) => {
            return Err(InferenceError::SnapshotReconstructionFailed(e));
        },
    };
    let features = snapshot.ordered_features();
    let ghost f = entries_view(features@);
    let mut names: Vec<String> = Vec::new();
    let mut k: usize = 0;
    while k < features.len()
        invariant
            k <= features@.len(),
            f == entries_view(features@),
            strings_view(names@) == key_seq(f).take(k as int),
        decreases features@.len() - k,
    {
        let ghost before = names@;
        names.push(features[k].0.clone());
        assert(strings_view(names@) =~= strings_view(before).push(features@[k as int].0@));
        assert(key_seq(f).take(k as int + 1) =~= key_seq(f).take(k as int).push(f[k as int].0));
        k = k + 1;
    }
    assert(key_seq(f).take(k as int) =~= key_seq(f));
    match table.to_feature_values(names) {
        Ok(m) => Ok(m),
        Err(e) => Err(InferenceError::FeatureTensorFailed(e)),
    }
}

/// Position `k` holds the first of `names` that has no value in `values`.
pub open spec fn first_missing(names: Seq<Seq<char>>, values: Seq<(Seq<char>, Real)>, k: int) -> bool {
    &&& 0 <= k < names.len()
    &&& !has_key(values, names[k])
    &&& forall|j: int| 0 <= j < k ==> has_key(values, #[trigger] names[j])
}

/// The values of the features `feature_names`, in that order, taken from the
/// named `values`. Fails with `MissingFeature` for the first feature without
/// a value, then with `UnexpectedFeature` when there are more values than
/// features.
pub fn order_feature_values(feature_names: &[String], values: &[(String, Real)]) -> (r: Result<
    Vec<Real>,
    InferenceError,
>)
    requires
        distinct_keys(entries_view(values@)),
    ensures
        ({
            let names = strings_view(feature_names@);
            let vals = entries_view(values@);
            if exists|k: int| 0 <= k < names.len() && !has_key(vals, #[trigger] names[k]) {
                r matches Err(InferenceError::MissingFeature { name }) && exists|k: int|
                    first_missing(names, vals, k) && name@ == names[k]
            } else if vals.len() != names.len() {
                r matches Err(InferenceError::UnexpectedFeature)
            } else {
                r matches Ok(row) && row@.len() == names.len() && forall|k: int|
                    0 <= k < names.len() ==> #[trigger] row@[k] == value_of_key(vals, names[k])
            }
        }),
{
    let ghost names = strings_view(feature_names@);
    let ghost vals = entries_view(values@);
    let mut row: Vec<Real> = Vec::new();
    let mut k: usize = 0;
    while k < feature_names.len()
        invariant
            k <= feature_names@.len(),
            names == strings_view(feature_names@),
            vals == entries_view(values@),
            distinct_keys(vals),
            row@.len() == k,
            forall|j: int| 0 <= j < k ==> has_key(vals, #[trigger] names[j]),
            forall|j: int| 0 <= j < k ==> #[trigger] row@[j] == value_of_key(vals, names[j]),
        decreases feature_names@.len() - k,
    {
        assert(names[k as int] == feature_names@[k as int]@);
        let mut found: Option<usize> = None;
        let mut i: usize = 0;
        while i < values.len()
            invariant
                i <= values@.len(),
                vals == entries_view(values@),
                names[k as int] == feature_names@[k as int]@,
                k < feature_names@.len(),
                found matches Some(p) ==> p < values@.len() && vals[p as int].0 == names[k as int],
                found is None ==> forall|j: int| 0 <= j < i ==> vals[j].0 != names[k as int],
            decreases values@.len() - i,
        {
            if found.is_none() && crate::text::str_eq(values[i].0.as_str(), feature_names[k].as_str()) {
                found = Some(i);
            }
            i = i + 1;
        }
        match found {
            None => {
                assert(first_missing(names, vals, k as int));
                return Err(InferenceError::MissingFeature { name: feature_names[k].clone() });
            },
            Some(p) => {
                proof {
                    lemma_index_of_key(vals, names[k as int], p as int);
                }
                row.push(values[p].1);
            },
        }
        k = k + 1;
    }
    if values.len() != feature_names.len() {
        return Err(InferenceError::UnexpectedFeature);
    }
    Ok(row)
}

} // verus!
