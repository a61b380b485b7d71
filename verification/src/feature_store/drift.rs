use vstd::prelude::*;

use super::{find_version, FeatureStore, FeatureStoreError};
use crate::models::table::{ColumnData, NumericValue};
use crate::text::to_owned_string;

verus! {

/// The present values of a list of cells, in order.
pub open spec fn present_cells<T>(cells: Seq<Option<T>>) -> Seq<T> {
    cells.filter(|c: Option<T>| c is Some).map_values(|c: Option<T>| c->0)
}

/// The present values of a numeric column, in order, or `None` for text and
/// raw cells.
pub open spec fn numeric_values_of(data: ColumnData) -> Option<Seq<NumericValue>> {
    match data {
        ColumnData::Int(c) => Some(present_cells(c@).map_values(|x: i64| NumericValue::Int(x))),
        ColumnData::Float(c) => Some(
            present_cells(c@).map_values(|x: crate::scalar::Real| NumericValue::Float(x)),
        ),
        ColumnData::Bool(c) => Some(present_cells(c@).map_values(|x: bool| NumericValue::Bool(x))),
        _ => None,
    }
}

/// The present values of the numeric column `data` of the feature `name`.
fn numeric_values(data: &ColumnData, name: &str) -> (r: Result<Vec<NumericValue>, FeatureStoreError>)
    ensures
        match numeric_values_of(*data) {
            Some(v) => r matches Ok(x) && x@ == v,
            None => r matches Err(FeatureStoreError::NonNumericFeature { name: n }) && n@ == name@,
        },
{
    match data {
        ColumnData::Int(c) => {
            let present = c.present_values();
            let ghost cells = present_cells(c@);
            let mut out: Vec<NumericValue> = Vec::new();
            let mut k: usize = 0;
            while k < present.len()
                invariant
                    k <= present@.len(),
                    present@.map_values(|v: &i64| Some(*v)) == c@.filter(|x: Option<i64>| x is Some),
                    cells == present_cells(c@),
                    out@ == cells.take(k as int).map_values(|x: i64| NumericValue::Int(x)),
                decreases present@.len() - k,
            {
                assert(present@.map_values(|v: &i64| Some(*v))[k as int] == Some(*present@[k as int]));
                out.push(NumericValue::Int(*present[k]));
                assert(out@ =~= cells.take(k as int + 1).map_values(|x: i64| NumericValue::Int(x)));
                k = k + 1;
            }
            assert(cells.take(k as int) =~= cells);
            Ok(out)
        },
        ColumnData::Float(c) => {
            let present = c.present_values();
            let ghost cells = present_cells(c@);
            let mut out: Vec<NumericValue> = Vec::new();
            let mut k: usize = 0;
            while k < present.len()
                invariant
                    k <= present@.len(),
                    present@.map_values(|v: &crate::scalar::Real| Some(*v)) == c@.filter(
                        |x: Option<crate::scalar::Real>| x is Some,
                    ),
                    cells == present_cells(c@),
                    out@ == cells.take(k as int).map_values(
                        |x: crate::scalar::Real| NumericValue::Float(x),
                    ),
                decreases present@.len() - k,
            {
                assert(present@.map_values(|v: &crate::scalar::Real| Some(*v))[k as int] == Some(
                    *present@[k as int],
                ));
                out.push(NumericValue::Float(*present[k]));
                assert(out@ =~= cells.take(k as int + 1).map_values(
                    |x: crate::scalar::Real| NumericValue::Float(x),
                ));
                k = k + 1;
            }
            assert(cells.take(k as int) =~= cells);
            Ok(out)
        },
        ColumnData::Bool(c) => {
            let present = c.present_values();
            let ghost cells = present_cells(c@);
            let mut out: Vec<NumericValue> = Vec::new();
            let mut k: usize = 0;
            while k < present.len()
                invariant
                    k <= present@.len(),
                    present@.map_values(|v: &bool| Some(*v)) == c@.filter(|x: Option<bool>| x is Some),
                    cells == present_cells(c@),
                    out@ == cells.take(k as int).map_values(|x: bool| NumericValue::Bool(x)),
                decreases present@.len() - k,
            {
                assert(present@.map_values(|v: &bool| Some(*v))[k as int] == Some(*present@[k as int]));
                out.push(NumericValue::Bool(*present[k]));
                assert(out@ =~= cells.take(k as int + 1).map_values(|x: bool| NumericValue::Bool(x)));
                k = k + 1;
            }
            assert(cells.take(k as int) =~= cells);
            Ok(out)
        },
        _ => Err(FeatureStoreError::NonNumericFeature { name: to_owned_string(name) }),
    }
}

impl FeatureStore {
    /// The present values of two versions of the feature `name`, the baseline
    /// and the current one, on which drift is measured. Fails when either
    /// version is not kept, when the feature is not numeric, or when a
    /// version has no present value; the baseline is checked first.
    pub fn drift_inputs(&self, name: &str, baseline_version: usize, current_version: usize) -> (r:
        Result<(Vec<NumericValue>, Vec<NumericValue>), FeatureStoreError>)
        requires
            self.wf(),
        ensures
            ({
                let h = self.history(name@);
                match (find_version(h, baseline_version), find_version(h, current_version)) {
                    (None, _) => r matches Err(FeatureStoreError::VersionNotFound { name: n, version })
                        && n@ == name@ && version == baseline_version,
                    (Some(_), None) => r matches Err(
                        FeatureStoreError::VersionNotFound { name: n, version },
                    ) && n@ == name@ && version == current_version,
                    (Some(b), Some(c)) => match (
                        numeric_values_of(b.spec_data()),
                        numeric_values_of(c.spec_data()),
                    ) {
                        (None, _) => r matches Err(FeatureStoreError::NonNumericFeature { name: n })
                            && n@ == name@,
                        (Some(bv), _) if bv.len() == 0 => r matches Err(
                            FeatureStoreError::AllValuesMissing { name: n, version },
                        ) && n@ == name@ && version == baseline_version,
                        (Some(_), None) => r matches Err(
                            FeatureStoreError::NonNumericFeature { name: n },
                        ) && n@ == name@,
                        (Some(_), Some(cv)) if cv.len() == 0 => r matches Err(
                            FeatureStoreError::AllValuesMissing { name: n, version },
                        ) && n@ == name@ && version == current_version,
                        (Some(bv), Some(cv)) => r matches Ok((x, y)) && x@ == bv && y@ == cv,
                    },
                }
            }),
    {
        let baseline = match self.get_version(name, baseline_version) {
            Ok(v) => v,
            Err(e) => {
                return Err(e);
            },
        };
        let current = match self.get_version(name, current_version) {
            Ok(v) => v,
            Err(e) => {
                return Err(e);
            },
        };
        let baseline_values = match numeric_values(baseline.data(), name) {
            Ok(v) => v,
            Err(e) => {
                return Err(e);
            },
        };
        if baseline_values.len() == 0 {
            return Err(
                FeatureStoreError::AllValuesMissing {
                    name: to_owned_string(name),
                    version: baseline_version,
                },
            );
        }
        let current_values = match numeric_values(current.data(), name) {
            Ok(v) => v,
            Err(e) => {
                return Err(e);
            },
        };
        if current_values.len() == 0 {
            return Err(
                FeatureStoreError::AllValuesMissing {
                    name: to_owned_string(name),
                    version: current_version,
                },
            );
        }
        Ok((baseline_values, current_values))
    }
}

} // verus!
