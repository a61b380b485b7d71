use vstd::prelude::*;

use super::{strings_view, ColumnData, Table, TableError};
use crate::models::column::count_missing;
use crate::scalar::Real;
use crate::text::str_eq;

verus! {

/// One numeric cell on its way into a tensor: booleans count as 1 and 0,
/// integers and floats as their value.
#[derive(Clone, Copy, Debug, PartialEq, Eq, Structural)]
pub enum NumericValue {
    Int(i64),
    Float(Real),
    Bool(bool),
}

/// Why a column cannot feed a tensor.
#[derive(Clone, Copy, Debug, PartialEq, Eq, Structural)]
pub enum ColumnProblem {
    NotFound,
    NonNumeric,
    MissingValues,
}

/// The problem with the column `data` found under a name, if any.
pub open spec fn numeric_problem(data: Option<ColumnData>) -> Option<ColumnProblem> {
    match data {
        None => Some(ColumnProblem::NotFound),
        Some(ColumnData::Int(c)) => if count_missing(c@) > 0 {
            Some(ColumnProblem::MissingValues)
        } else {
            None
        },
        Some(ColumnData::Float(c)) => if count_missing(c@) > 0 {
            Some(ColumnProblem::MissingValues)
        } else {
            None
        },
        Some(ColumnData::Bool(c)) => if count_missing(c@) > 0 {
            Some(ColumnProblem::MissingValues)
        } else {
            None
        },
        Some(_) => Some(ColumnProblem::NonNumeric),
    }
}

/// The first of `names` whose column has a problem, with that problem.
pub open spec fn first_problem(t: Table, names: Seq<Seq<char>>) -> Option<(Seq<char>, ColumnProblem)>
    decreases names.len(),
{
    if names.len() == 0 {
        None
    } else {
        match numeric_problem(t.column_of(names[0])) {
            Some(p) => Some((names[0], p)),
            None => first_problem(t, names.drop_first()),
        }
    }
}

/// `e` is the error that reports `problem` for the column `name`.
pub open spec fn reports_problem(e: TableError, name: Seq<char>, problem: ColumnProblem) -> bool {
    match problem {
        ColumnProblem::NotFound => e matches TableError::ColumnNotFound { name: n } && n@ == name,
        ColumnProblem::NonNumeric => e matches TableError::NonNumericColumn { name: n } && n@
            == name,
        ColumnProblem::MissingValues => e matches TableError::MissingValuesPresent { name: n }
            && n@ == name,
    }
}

/// The numeric value of the cell at row `i` of `data`, when it is a present
/// number.
pub open spec fn numeric_at(data: ColumnData, i: int) -> Option<NumericValue> {
    match data {
        ColumnData::Int(c) => if 0 <= i < c@.len() && c@[i] is Some {
            Some(NumericValue::Int(c@[i]->0))
        } else {
            None
        },
        ColumnData::Float(c) => if 0 <= i < c@.len() && c@[i] is Some {
            Some(NumericValue::Float(c@[i]->0))
        } else {
            None
        },
        ColumnData::Bool(c) => if 0 <= i < c@.len() && c@[i] is Some {
            Some(NumericValue::Bool(c@[i]->0))
        } else {
            None
        },
        _ => None,
    }
}

/// The length of the column named `name` in `t`.
pub open spec fn length_of(t: Table, name: Seq<char>) -> nat {
    t.column_of(name)->0.spec_len()
}

/// Position `k` of `names` holds the first of the shortest columns, and it is
/// shorter than `rows`.
pub open spec fn first_short(t: Table, names: Seq<Seq<char>>, rows: nat, k: int) -> bool {
    &&& 0 <= k < names.len()
    &&& length_of(t, names[k]) < rows
    &&& forall|j: int| 0 <= j < names.len() ==> length_of(t, names[k]) <= length_of(t, #[trigger] names[j])
    &&& forall|j: int| 0 <= j < k ==> length_of(t, names[k]) < length_of(t, #[trigger] names[j])
}

/// `row` holds the value at row `i` of each of the columns `names`, in order.
pub open spec fn numeric_row(t: Table, names: Seq<Seq<char>>, i: int, row: Seq<NumericValue>) -> bool {
    &&& row.len() == names.len()
    &&& forall|j: int|
        0 <= j < names.len() ==> numeric_at(t.column_of(names[j])->0, i) == Some(#[trigger] row[j])
}

/// `r` is what reading the numeric rows of the columns `names` of `t` gives:
/// the first problem among the columns, then the first of the shortest
/// columns when one is shorter than the row count, else every row.
pub open spec fn numeric_rows_result(
    t: Table,
    names: Seq<Seq<char>>,
    r: Result<Vec<Vec<NumericValue>>, TableError>,
) -> bool {
    let rows = t.spec_row_count();
    if let Some((n, p)) = first_problem(t, names) {
        r matches Err(e) && reports_problem(e, n, p)
    } else if exists|k: int| 0 <= k < names.len() && length_of(t, #[trigger] names[k]) < rows {
        r matches Err(TableError::MissingValuesPresent { name }) && exists|k: int|
            first_short(t, names, rows, k) && name@ == names[k]
    } else {
        r matches Ok(m) && m@.len() == rows && forall|i: int|
            0 <= i < rows ==> numeric_row(t, names, i, #[trigger] m@[i]@)
    }
}

/// Row `i` of the feature matrix and the target vector: one value per feature
/// column, in order, and the target's value.
pub open spec fn tensor_row(
    t: Table,
    features: Seq<Seq<char>>,
    target: Seq<char>,
    i: int,
    row: Seq<NumericValue>,
    y: NumericValue,
) -> bool {
    &&& numeric_row(t, features, i, row)
    &&& numeric_at(t.column_of(target)->0, i) == Some(y)
}

/// A column without missing cells has a value at every row.
proof fn lemma_no_missing<T>(cells: Seq<Option<T>>, i: int)
    requires
        count_missing(cells) == 0,
        0 <= i < cells.len(),
    ensures
        cells[i] is Some,
    decreases cells.len(),
{
    if i < cells.len() - 1 {
        assert(cells.drop_last()[i] == cells[i]);
        lemma_no_missing(cells.drop_last(), i);
    }
}

/// The numeric value of row `i` of `data`.
fn numeric_value(data: &ColumnData, i: usize) -> (r: Option<NumericValue>)
    ensures
        r == numeric_at(*data, i as int),
{
    match data {
        ColumnData::Int(c) => match c.get(i) {
            Some(Some(x)) => Some(NumericValue::Int(*x)),
            _ => None,
        },
        ColumnData::Float(c) => match c.get(i) {
            Some(Some(x)) => Some(NumericValue::Float(*x)),
            _ => None,
        },
        ColumnData::Bool(c) => match c.get(i) {
            Some(Some(x)) => Some(NumericValue::Bool(*x)),
            _ => None,
        },
        _ => None,
    }
}

impl Table {
    /// Checks each named column in turn: it must be held in the table, be
    /// numeric, and have no missing cell.
    fn check_missing_and_type(&self, columns: &[String]) -> (r: Result<(), TableError>)
        requires
            self.wf(),
        ensures
            match first_problem(*self, strings_view(columns@)) {
                Some((n, p)) => r matches Err(e) && reports_problem(e, n, p),
                None => r is Ok,
            },
    {
        let ghost names = strings_view(columns@);
        let mut k: usize = 0;
        assert(names.skip(0) =~= names);
        while k < columns.len()
            invariant
                k <= columns@.len(),
                self.wf(),
                names == strings_view(columns@),
                first_problem(*self, names) == first_problem(*self, names.skip(k as int)),
            decreases columns@.len() - k,
        {
            let name = &columns[k];
            assert(names[k as int] == name@);
            assert(names.skip(k as int)[0] == name@);
            assert(names.skip(k as int).drop_first() =~= names.skip(k as int + 1));
            match self.column_data(name.as_str()) {
                None => {
                    return Err(TableError::ColumnNotFound { name: name.clone() });
                },
                Some(ColumnData::Raw(_)) | Some(ColumnData::Text(_)) => {
                    return Err(TableError::NonNumericColumn { name: name.clone() });
                },
                Some(ColumnData::Bool(column)) => {
                    if column.missing_count() > 0 {
                        return Err(TableError::MissingValuesPresent { name: name.clone() });
                    }
                },
                Some(ColumnData::Float(column)) => {
                    if column.missing_count() > 0 {
                        return Err(TableError::MissingValuesPresent { name: name.clone() });
                    }
                },
                Some(ColumnData::Int(column)) => {
                    if column.missing_count() > 0 {
                        return Err(TableError::MissingValuesPresent { name: name.clone() });
                    }
                },
            }
            k = k + 1;
        }
        assert(names.skip(k as int) =~= Seq::<Seq<char>>::empty());
        Ok(())
    }

    /// The numeric rows of the named columns: row `i` holds the value of each
    /// column at row `i`, in the order of `columns`, for every row of the
    /// table. Fails with the first problem among the columns (one that is not
    /// held, is not numeric, or has missing cells), then with
    /// `MissingValuesPresent` for the first of the shortest columns when one is
    /// shorter than the row count.
    fn numeric_rows(&self, columns: &[String]) -> (r: Result<Vec<Vec<NumericValue>>, TableError>)
        requires
            self.wf(),
        ensures
            numeric_rows_result(*self, strings_view(columns@), r),
    {
        let ghost names = strings_view(columns@);
        if let Err(e) = self.check_missing_and_type(columns) {
            return Err(e);
        }
        let row_count = self.row_count();
        // The shortest column, the first one of that length.
        let mut shortest: usize = 0;
        let mut k: usize = 0;
        assert(names.skip(0) =~= names);
        while k < columns.len()
            invariant
                k <= columns@.len(),
                names == strings_view(columns@),
                names.len() == columns@.len(),
                self.wf(),
                first_problem(*self, names) is None,
                first_problem(*self, names) == first_problem(*self, names.skip(k as int)),
                forall|j: int| 0 <= j < k ==> self.column_of(#[trigger] names[j]) is Some,
                k > 0 ==> shortest < k,
                k > 0 ==> forall|j: int|
                    0 <= j < k ==> length_of(*self, names[shortest as int]) <= length_of(
                        *self,
                        #[trigger] names[j],
                    ),
                k > 0 ==> forall|j: int|
                    0 <= j < shortest ==> length_of(*self, names[shortest as int]) < length_of(
                        *self,
                        #[trigger] names[j],
                    ),
            decreases columns@.len() - k,
        {
            assert(names[k as int] == columns@[k as int]@);
            assert(names.skip(k as int)[0] == names[k as int]);
            assert(names.skip(k as int).drop_first() =~= names.skip(k as int + 1));
            let len_k = self.column_data(columns[k].as_str()).unwrap().len();
            if k == 0 {
                shortest = 0;
            } else {
                let len_s = self.column_data(columns[shortest].as_str()).unwrap().len();
                assert(names[shortest as int] == columns@[shortest as int]@);
                if len_k < len_s {
                    shortest = k;
                }
            }
            k = k + 1;
        }
        if columns.len() > 0 {
            let shortest_len = self.column_data(columns[shortest].as_str()).unwrap().len();
            assert(names[shortest as int] == columns@[shortest as int]@);
            if shortest_len < row_count {
                assert(first_short(*self, names, row_count as nat, shortest as int));
                return Err(TableError::MissingValuesPresent { name: columns[shortest].clone() });
            }
        }
        assert(forall|j: int|
            0 <= j < names.len() ==> length_of(*self, #[trigger] names[j]) >= row_count);
        let mut rows: Vec<Vec<NumericValue>> = Vec::new();
        let mut i: usize = 0;
        while i < row_count
            invariant
                i <= row_count,
                row_count == self.spec_row_count(),
                self.wf(),
                names == strings_view(columns@),
                first_problem(*self, names) is None,
                forall|j: int| 0 <= j < names.len() ==> self.column_of(#[trigger] names[j]) is Some,
                forall|j: int|
                    0 <= j < names.len() ==> length_of(*self, #[trigger] names[j]) >= row_count,
                rows@.len() == i,
                forall|q: int| 0 <= q < i ==> numeric_row(*self, names, q, #[trigger] rows@[q]@),
            decreases row_count - i,
        {
            let mut row: Vec<NumericValue> = Vec::new();
            let mut j: usize = 0;
            while j < columns.len()
                invariant
                    j <= columns@.len(),
                    i < row_count,
                    self.wf(),
                    names == strings_view(columns@),
                    first_problem(*self, names) is None,
                    forall|j: int| 0 <= j < names.len() ==> self.column_of(#[trigger] names[j]) is Some,
                    forall|j: int|
                        0 <= j < names.len() ==> length_of(*self, #[trigger] names[j]) >= row_count,
                    row@.len() == j,
                    forall|q: int|
                        0 <= q < j ==> numeric_at(self.column_of(names[q])->0, i as int) == Some(
                            #[trigger] row@[q],
                        ),
                decreases columns@.len() - j,
            {
                assert(names[j as int] == columns@[j as int]@);
                let data = self.column_data(columns[j].as_str()).unwrap();
                proof {
                    self.lemma_value_present(names, j as int, i as int);
                }
                let v = numeric_value(data, i).unwrap();
                row.push(v);
                j = j + 1;
            }
            rows.push(row);
            i = i + 1;
        }
        Ok(rows)
    }

    /// The numeric rows of the feature columns, in their order, for every row
    /// of the table: the data of a feature tensor. Fails as
    /// [`Table::to_tensor_values`] does, without the target.
    pub fn to_feature_values(&self, feature_columns: Vec<String>) -> (r: Result<
        Vec<Vec<NumericValue>>,
        TableError,
    >)
        requires
            self.wf(),
        ensures
            numeric_rows_result(*self, strings_view(feature_columns@), r),
    {
        self.numeric_rows(feature_columns.as_slice())
    }

    /// The numeric data of a tensor pair, row by row: for each row, the values
    /// of `feature_columns` in order, and the value of `target_column`.
    ///
    /// Fails with `TargetColumnInFeatures` when the target is among the
    /// features; then with the first problem among the features followed by
    /// the target (a column that is not held, is not numeric, or has missing
    /// cells); then with `MissingValuesPresent` for the first of the shortest
    /// columns when one is shorter than the row count.
    pub fn to_tensor_values(&self, feature_columns: Vec<String>, target_column: String) -> (r:
        Result<(Vec<Vec<NumericValue>>, Vec<NumericValue>), TableError>)
        requires
            self.wf(),
        ensures
            ({
                let features = strings_view(feature_columns@);
                let target = target_column@;
                let combined = features.push(target);
                let rows = self.spec_row_count();
                if features.contains(target) {
                    r matches Err(TableError::TargetColumnInFeatures { name }) && name@ == target
                } else if let Some((n, p)) = first_problem(*self, combined) {
                    r matches Err(e) && reports_problem(e, n, p)
                } else if exists|k: int| 0 <= k < combined.len() && length_of(*self, #[trigger] combined[k]) < rows {
                    r matches Err(TableError::MissingValuesPresent { name }) && exists|k: int|
                        first_short(*self, combined, rows, k) && name@ == combined[k]
                } else {
                    r matches Ok((x, y)) && x@.len() == rows && y@.len() == rows && forall|i: int|
                        0 <= i < rows ==> tensor_row(*self, features, target, i, #[trigger] x@[i]@, y@[i])
                }
            }),
    {
        let ghost features = strings_view(feature_columns@);
        let ghost target = target_column@;
        let mut f: usize = 0;
        while f < feature_columns.len()
            invariant
                f <= feature_columns@.len(),
                features == strings_view(feature_columns@),
                target == target_column@,
                forall|j: int| 0 <= j < f ==> features[j] != target,
            decreases feature_columns@.len() - f,
        {
            assert(features[f as int] == feature_columns@[f as int]@);
            if str_eq(feature_columns[f].as_str(), target_column.as_str()) {
                assert(features[f as int] == target);
                return Err(TableError::TargetColumnInFeatures { name: target_column.clone() });
            }
            f = f + 1;
        }
        assert(!features.contains(target));
        let mut combined: Vec<String> = Vec::new();
        let mut c: usize = 0;
        while c < feature_columns.len()
            invariant
                c <= feature_columns@.len(),
                features == strings_view(feature_columns@),
                strings_view(combined@) == features.take(c as int),
            decreases feature_columns@.len() - c,
        {
            let ghost before = combined@;
            combined.push(feature_columns[c].clone());
            assert(strings_view(combined@) =~= strings_view(before).push(feature_columns@[c as int]@));
            assert(features.take(c as int + 1) =~= features.take(c as int).push(features[c as int]));
            c = c + 1;
        }
        assert(features.take(c as int) =~= features);
        combined.push(target_column.clone());
        let ghost names = strings_view(combined@);
        assert(names =~= features.push(target));
        let mut rows = match self.numeric_rows(combined.as_slice()) {
            Ok(rows) => rows,
            Err(e) => {
                return Err(e);
            },
        };
        let ghost all = rows@;
        let n_rows = rows.len();
        let mut x: Vec<Vec<NumericValue>> = Vec::new();
        let mut y: Vec<NumericValue> = Vec::new();
        let mut i: usize = 0;
        while i < n_rows
            invariant
                i <= n_rows,
                n_rows == all.len(),
                n_rows == self.spec_row_count(),
                rows@.len() == all.len(),
                names == features.push(target),
                forall|q: int| i <= q < all.len() ==> #[trigger] rows@[q] == all[q],
                forall|q: int| 0 <= q < all.len() ==> numeric_row(*self, names, q, #[trigger] all[q]@),
                x@.len() == i,
                y@.len() == i,
                forall|q: int| 0 <= q < i ==> tensor_row(*self, features, target, q, #[trigger] x@[q]@, y@[q]),
            decreases n_rows - i,
        {
            let mut row: Vec<NumericValue> = Vec::new();
            rows.set_and_swap(i, &mut row);
            assert(row@ == all[i as int]@);
            assert(numeric_row(*self, names, i as int, row@));
            let ghost full = row@;
            let last = row.pop().unwrap();
            assert(full[features.len() as int] == last);
            assert forall|j: int| 0 <= j < features.len() implies numeric_at(
                self.column_of(features[j])->0,
                i as int,
            ) == Some(#[trigger] row@[j]) by {
                assert(row@[j] == full[j]);
                assert(names[j] == features[j]);
            }
            assert(names[features.len() as int] == target);
            x.push(row);
            y.push(last);
            i = i + 1;
        }
        Ok((x, y))
    }

    /// Every row below the length of a problem-free named column holds a
    /// numeric value there.
    proof fn lemma_value_present(&self, names: Seq<Seq<char>>, j: int, i: int)
        requires
            first_problem(*self, names) is None,
            0 <= j < names.len(),
            0 <= i < length_of(*self, names[j]),
        ensures
            numeric_at(self.column_of(names[j])->0, i) is Some,
        decreases j,
    {
        if j == 0 {
            match self.column_of(names[0])->0 {
                ColumnData::Int(c) => lemma_no_missing(c@, i),
                ColumnData::Float(c) => lemma_no_missing(c@, i),
                ColumnData::Bool(c) => lemma_no_missing(c@, i),
                _ => {},
            }
        } else {
            assert(names.drop_first()[j - 1] == names[j]);
            self.lemma_value_present(names.drop_first(), j - 1, i);
        }
    }
}

} // verus!
