mod records;
mod split;
mod tensor;

use vstd::prelude::*;

use crate::keyed::{
    key_seq,
    distinct_keys, entries_view, find_key, has_key, index_of_key, lemma_index_of_key,
    lemma_push_entry, lemma_remove_entry, lemma_update_entry, value_of_key,
};
use crate::models::cell::{parse_cells, parsed_with, rejected_by, view_cells, CellValue, ParseCell};
use crate::models::column::{all_below, name_check, Column, ColumnError};
use crate::scalar::Real;
use crate::text::{concat3, to_owned_string};
use records::{read_csv_headers, read_csv_records};
pub use records::{
    csv_header_fields, csv_record_fields, records_view,
    strings_view,
};
pub use split::{
    row_positions, seeded_shuffle, split_failure, split_lengths_ok, split_names, split_outcome,
    split_part,
};
pub use tensor::{
    first_problem, first_short, length_of, numeric_at, numeric_problem, numeric_row, numeric_rows_result,
    reports_problem, tensor_row,
    ColumnProblem, NumericValue,
};

verus! {

/// Whether a column is in the table or has been checked out of it.
#[derive(Clone, Copy, Debug, PartialEq, Eq, Structural)]
pub enum ColumnState {
    Available,
    CheckedOut,
}

/// Errors that can occur while building or using a [`Table`].
#[derive(Debug)]
pub enum TableError {
    /// The source file could not be opened.
    OpenFileError(String),
    /// The header line of the CSV source could not be read.
    HeadersReadingError(String),
    /// A record of the CSV source could not be read.
    RowReadingError(String),
    /// The column is currently checked out.
    ColumnNotAvailable { name: String },
    /// No column has this name.
    ColumnNotFound { name: String },
    /// The column's raw cells could not be turned into a typed column.
    ParseFailed { name: String, source: ColumnError },
    /// The column holds values of another type than the one asked for.
    TypeMismatch { name: String },
    /// A column's length differs from the table's row count (`length`).
    ColumnLengthMismatch { length: usize },
    /// The column was not checked out, so it cannot be written back.
    ColumnNotCheckedOut { name: String },
    /// The column could not be written back.
    ColumnNotUpdated { name: String },
    /// A column with this name already exists.
    ColumnAlreadyExists { name: String },
    /// The target column is also listed among the feature columns.
    TargetColumnInFeatures { name: String },
    /// The column holds raw or text cells, not numbers.
    NonNumericColumn { name: String },
    /// The column has missing cells.
    MissingValuesPresent { name: String },
    /// The numeric data could not be turned into a tensor.
    TensorCreationFailed(String),
}

/// The data of one column of a [`Table`]: either a typed column or the raw,
/// not yet parsed cells read from the source.
pub enum ColumnData {
    Int(Column<i64>),
    Float(Column<Real>),
    Text(Column<String>),
    Bool(Column<bool>),
    Raw(Vec<Option<String>>),
}

/// `to` holds the cells of `from` at `indices`, in that order, with the same
/// variant and name and no behaviors.
pub open spec fn rows_selected(from: ColumnData, indices: Seq<usize>, to: ColumnData) -> bool {
    match (from, to) {
        (ColumnData::Int(a), ColumnData::Int(b)) => b@ == indices.map_values(
            |i: usize| a@[i as int],
        ) && b.spec_name() == a.spec_name() && b.spec_behaviors() == Seq::<Seq<char>>::empty(),
        (ColumnData::Float(a), ColumnData::Float(b)) => b@ == indices.map_values(
            |i: usize| a@[i as int],
        ) && b.spec_name() == a.spec_name() && b.spec_behaviors() == Seq::<Seq<char>>::empty(),
        (ColumnData::Text(a), ColumnData::Text(b)) => b@ == indices.map_values(
            |i: usize| a@[i as int],
        ) && b.spec_name() == a.spec_name() && b.spec_behaviors() == Seq::<Seq<char>>::empty(),
        (ColumnData::Bool(a), ColumnData::Bool(b)) => b@ == indices.map_values(
            |i: usize| a@[i as int],
        ) && b.spec_name() == a.spec_name() && b.spec_behaviors() == Seq::<Seq<char>>::empty(),
        (ColumnData::Raw(a), ColumnData::Raw(b)) => b@ == indices.map_values(
            |i: usize| a@[i as int],
        ),
        _ => false,
    }
}

/// Copies of the cells at `indices`, in that order.
fn select_cells<T: CellValue>(cells: &Vec<Option<T>>, indices: &[usize]) -> (r: Vec<Option<T>>)
    requires
        all_below(indices@, cells@.len()),
    ensures
        r@ == indices@.map_values(|i: usize| cells@[i as int]),
{
    let mut out: Vec<Option<T>> = Vec::new();
    let mut k: usize = 0;
    while k < indices.len()
        invariant
            k <= indices@.len(),
            all_below(indices@, cells@.len()),
            out@ == indices@.take(k as int).map_values(|i: usize| cells@[i as int]),
        decreases indices@.len() - k,
    {
        let cell = crate::models::cell::duplicate_cell(&cells[indices[k]]);
        out.push(cell);
        assert(indices@.take(k as int + 1).map_values(|i: usize| cells@[i as int])
            =~= indices@.take(k as int).map_values(|i: usize| cells@[i as int]).push(cell));
        k = k + 1;
    }
    assert(indices@.take(k as int) =~= indices@);
    out
}

impl ColumnData {
    /// The number of cells.
    pub open spec fn spec_len(&self) -> nat {
        match self {
            ColumnData::Int(c) => c@.len(),
            ColumnData::Float(c) => c@.len(),
            ColumnData::Text(c) => c@.len(),
            ColumnData::Bool(c) => c@.len(),
            ColumnData::Raw(v) => v@.len(),
        }
    }

    /// The name carried by a typed column; raw cells carry none.
    pub open spec fn spec_name(&self) -> Option<Seq<char>> {
        match self {
            ColumnData::Int(c) => Some(c.spec_name()),
            ColumnData::Float(c) => Some(c.spec_name()),
            ColumnData::Text(c) => Some(c.spec_name()),
            ColumnData::Bool(c) => Some(c.spec_name()),
            ColumnData::Raw(_) => None,
        }
    }

    /// The number of cells.
    pub fn len(&self) -> (r: usize)
        ensures
            r == self.spec_len(),
    {
        match self {
            ColumnData::Int(c) => c.len(),
            ColumnData::Text(c) => c.len(),
            ColumnData::Bool(c) => c.len(),
            ColumnData::Float(c) => c.len(),
            ColumnData::Raw(v) => v.len(),
        }
    }

    /// The name of a typed column, or `None` for raw cells.
    pub fn extract_name(&self) -> (r: Option<&str>)
        ensures
            match self.spec_name() {
                Some(n) => r matches Some(s) && s@ == n,
                None => r is None,
            },
    {
        match self {
            ColumnData::Int(c) => Some(c.name()),
            ColumnData::Float(c) => Some(c.name()),
            ColumnData::Text(c) => Some(c.name()),
            ColumnData::Bool(c) => Some(c.name()),
            ColumnData::Raw(_) => None,
        }
    }

    /// A new column of the same kind holding copies of the cells at `indices`,
    /// in that order.
    pub fn select_rows(&self, indices: &[usize]) -> (r: ColumnData)
        requires
            all_below(indices@, self.spec_len()),
        ensures
            rows_selected(*self, indices@, r),
            r.spec_len() == indices@.len(),
            r.spec_name() == self.spec_name(),
    {
        match self {
            ColumnData::Int(c) => ColumnData::Int(c.select_rows(indices)),
            ColumnData::Float(c) => ColumnData::Float(c.select_rows(indices)),
            ColumnData::Text(c) => ColumnData::Text(c.select_rows(indices)),
            ColumnData::Bool(c) => ColumnData::Bool(c.select_rows(indices)),
            ColumnData::Raw(v) => ColumnData::Raw(select_cells(v, indices)),
        }
    }
}

/// Element types that have a variant of [`ColumnData`].
pub trait ColumnDataVariant: Sized {
    /// The column data holding `column`.
    spec fn spec_wrap(column: Column<Self>) -> ColumnData;

    /// The column held by `data`, when `data` is this type's variant.
    spec fn spec_unwrap(data: ColumnData) -> Option<Column<Self>>;

    fn wrap(column: Column<Self>) -> (r: ColumnData)
        ensures
            r == Self::spec_wrap(column),
    ;

    fn unwrap(data: ColumnData) -> (r: Result<Column<Self>, ColumnData>)
        ensures
            match Self::spec_unwrap(data) {
                Some(c) => r == Ok::<Column<Self>, ColumnData>(c),
                None => r == Err::<Column<Self>, ColumnData>(data),
            },
    ;

    /// Whether `data` is this type's variant.
    fn holds(data: &ColumnData) -> (r: bool)
        ensures
            r == Self::spec_unwrap(*data) is Some,
    ;

    /// Wrapping then unwrapping gives the column back, and wrapping keeps its
    /// length and name.
    proof fn lemma_wrap(column: Column<Self>)
        ensures
            Self::spec_unwrap(Self::spec_wrap(column)) == Some(column),
            Self::spec_wrap(column).spec_len() == column@.len(),
            Self::spec_wrap(column).spec_name() == Some(column.spec_name()),
            Self::spec_wrap(column) !is Raw,
    ;
}

impl ColumnDataVariant for i64 {
    open spec fn spec_wrap(column: Column<i64>) -> ColumnData {
        ColumnData::Int(column)
    }

    open spec fn spec_unwrap(data: ColumnData) -> Option<Column<i64>> {
        match data {
            ColumnData::Int(c) => Some(c),
            _ => None,
        }
    }

    fn wrap(column: Column<i64>) -> (r: ColumnData) {
        ColumnData::Int(column)
    }

    fn unwrap(data: ColumnData) -> (r: Result<Column<i64>, ColumnData>) {
        if let ColumnData::Int(c) = data {
            Ok(c)
        } else {
            Err(data)
        }
    }

    fn holds(data: &ColumnData) -> (r: bool) {
        matches!(data, ColumnData::Int(_))
    }

    proof fn lemma_wrap(column: Column<i64>) {
    }
}

impl ColumnDataVariant for Real {
    open spec fn spec_wrap(column: Column<Real>) -> ColumnData {
        ColumnData::Float(column)
    }

    open spec fn spec_unwrap(data: ColumnData) -> Option<Column<Real>> {
        match data {
            ColumnData::Float(c) => Some(c),
            _ => None,
        }
    }

    fn wrap(column: Column<Real>) -> (r: ColumnData) {
        ColumnData::Float(column)
    }

    fn unwrap(data: ColumnData) -> (r: Result<Column<Real>, ColumnData>) {
        if let ColumnData::Float(c) = data {
            Ok(c)
        } else {
            Err(data)
        }
    }

    fn holds(data: &ColumnData) -> (r: bool) {
        matches!(data, ColumnData::Float(_))
    }

    proof fn lemma_wrap(column: Column<Real>) {
    }
}

impl ColumnDataVariant for String {
    open spec fn spec_wrap(column: Column<String>) -> ColumnData {
        ColumnData::Text(column)
    }

    open spec fn spec_unwrap(data: ColumnData) -> Option<Column<String>> {
        match data {
            ColumnData::Text(c) => Some(c),
            _ => None,
        }
    }

    fn wrap(column: Column<String>) -> (r: ColumnData) {
        ColumnData::Text(column)
    }

    fn unwrap(data: ColumnData) -> (r: Result<Column<String>, ColumnData>) {
        if let ColumnData::Text(c) = data {
            Ok(c)
        } else {
            Err(data)
        }
    }

    fn holds(data: &ColumnData) -> (r: bool) {
        matches!(data, ColumnData::Text(_))
    }

    proof fn lemma_wrap(column: Column<String>) {
    }
}

impl ColumnDataVariant for bool {
    open spec fn spec_wrap(column: Column<bool>) -> ColumnData {
        ColumnData::Bool(column)
    }

    open spec fn spec_unwrap(data: ColumnData) -> Option<Column<bool>> {
        match data {
            ColumnData::Bool(c) => Some(c),
            _ => None,
        }
    }

    fn wrap(column: Column<bool>) -> (r: ColumnData) {
        ColumnData::Bool(column)
    }

    fn unwrap(data: ColumnData) -> (r: Result<Column<bool>, ColumnData>) {
        if let ColumnData::Bool(c) = data {
            Ok(c)
        } else {
            Err(data)
        }
    }

    fn holds(data: &ColumnData) -> (r: bool) {
        matches!(data, ColumnData::Bool(_))
    }

    proof fn lemma_wrap(column: Column<bool>) {
    }
}

/// The columns and their states agree: names are distinct in each list, and a
/// column is held in the table exactly when its state is `Available`.
pub open spec fn consistent(
    columns: Seq<(Seq<char>, ColumnData)>,
    states: Seq<(Seq<char>, ColumnState)>,
) -> bool {
    &&& distinct_keys(columns)
    &&& distinct_keys(states)
    &&& forall|name: Seq<char>|
        #![trigger has_key(columns, name)]
        #![trigger has_key(states, name)]
        has_key(columns, name) <==> (has_key(states, name) && value_of_key(states, name)
            == ColumnState::Available)
}


/// The cell at header position `i` of a record: missing when the record has
/// no such field or the field is empty.
pub open spec fn csv_cell(row: Seq<Seq<char>>, i: int) -> Option<Seq<char>> {
    if 0 <= i < row.len() && row[i].len() > 0 {
        Some(row[i])
    } else {
        None
    }
}

/// The cells a record contributes to the column `name` from its first `upto`
/// fields: one for each header position holding `name`, in order.
pub open spec fn row_cells(
    headers: Seq<Seq<char>>,
    row: Seq<Seq<char>>,
    name: Seq<char>,
    upto: int,
) -> Seq<Option<Seq<char>>>
    decreases upto,
{
    if upto <= 0 || upto > headers.len() {
        Seq::empty()
    } else if headers[upto - 1] == name {
        row_cells(headers, row, name, upto - 1).push(csv_cell(row, upto - 1))
    } else {
        row_cells(headers, row, name, upto - 1)
    }
}

/// The cells of the column `name` read from `rows`, record after record.
pub open spec fn column_cells(
    headers: Seq<Seq<char>>,
    rows: Seq<Seq<Seq<char>>>,
    name: Seq<char>,
) -> Seq<Option<Seq<char>>>
    decreases rows.len(),
{
    if rows.len() == 0 {
        Seq::empty()
    } else {
        column_cells(headers, rows.drop_last(), name) + row_cells(
            headers,
            rows.last(),
            name,
            headers.len() as int,
        )
    }
}

/// The distinct header names, in order of first occurrence.
pub open spec fn distinct_headers(headers: Seq<Seq<char>>) -> Seq<Seq<char>>
    decreases headers.len(),
{
    if headers.len() == 0 {
        Seq::empty()
    } else if distinct_headers(headers.drop_last()).contains(headers.last()) {
        distinct_headers(headers.drop_last())
    } else {
        distinct_headers(headers.drop_last()).push(headers.last())
    }
}

/// The views of raw cells.
pub open spec fn raw_view(cells: Seq<Option<String>>) -> Seq<Option<Seq<char>>> {
    cells.map_values(
        |c: Option<String>|
            match c {
                Some(s) => Some(s@),
                None => None,
            },
    )
}

/// `t` is the table read from `path` with header fields `headers` and records
/// `rows`: one raw column per distinct header, in order of first occurrence,
/// all available.
pub open spec fn built_from_records(
    t: Table,
    path: Seq<char>,
    headers: Seq<Seq<char>>,
    rows: Seq<Seq<Seq<char>>>,
) -> bool {
    &&& t.wf()
    &&& t.spec_path() == path
    &&& key_seq(t.spec_columns()) == distinct_headers(headers)
    &&& key_seq(t.spec_states()) == distinct_headers(headers)
    &&& forall|k: int|
        0 <= k < t.spec_states().len() ==> #[trigger] t.spec_states()[k].1
            == ColumnState::Available
    &&& forall|k: int|
        0 <= k < t.spec_columns().len() ==> (#[trigger] t.spec_columns()[k].1 matches ColumnData::Raw(
            v,
        ) && raw_view(v@) == column_cells(headers, rows, t.spec_columns()[k].0))
}


/// The distinct headers hold each header exactly once.
pub proof fn lemma_distinct_headers(headers: Seq<Seq<char>>)
    ensures
        distinct_headers(headers).no_duplicates(),
        forall|h: Seq<char>| distinct_headers(headers).contains(h) <==> headers.contains(h),
    decreases headers.len(),
{
    if headers.len() > 0 {
        let prefix = headers.drop_last();
        lemma_distinct_headers(prefix);
        broadcast use vstd::seq_lib::lemma_seq_contains_after_push;

        assert(headers =~= prefix.push(headers.last()));
    }
}

/// A table of named columns, loaded from a CSV source or built column by
/// column.
///
/// Columns start as raw cells and are turned into typed columns when checked
/// out with [`Table::get_column`]; a checked-out column is absent from the
/// table until it is written back with [`Table::update_column`].
pub struct Table {
    file_path: String,
    data: Vec<(String, ColumnData)>,
    checkouts: Vec<(String, ColumnState)>,
}

impl Table {
    /// The path of the source the table was read from.
    pub closed spec fn spec_path(&self) -> Seq<char> {
        self.file_path@
    }

    /// The columns held in the table, in order.
    pub closed spec fn spec_columns(&self) -> Seq<(Seq<char>, ColumnData)> {
        entries_view(self.data@)
    }

    /// The state of every known column, in order.
    pub closed spec fn spec_states(&self) -> Seq<(Seq<char>, ColumnState)> {
        entries_view(self.checkouts@)
    }

    /// The table's internal consistency.
    pub open spec fn wf(&self) -> bool {
        consistent(self.spec_columns(), self.spec_states())
    }

    /// The state of the column named `name`, if the table knows it.
    pub open spec fn state_of(&self, name: Seq<char>) -> Option<ColumnState> {
        if has_key(self.spec_states(), name) {
            Some(value_of_key(self.spec_states(), name))
        } else {
            None
        }
    }

    /// The data of the column named `name`, if it is held in the table.
    pub open spec fn column_of(&self, name: Seq<char>) -> Option<ColumnData> {
        if has_key(self.spec_columns(), name) {
            Some(value_of_key(self.spec_columns(), name))
        } else {
            None
        }
    }

    /// The number of rows: the length of the first column held, or zero.
    pub open spec fn spec_row_count(&self) -> nat {
        if self.spec_columns().len() == 0 {
            0
        } else {
            self.spec_columns()[0].1.spec_len()
        }
    }

    /// `self` is `old` with the column `name` checked out.
    pub open spec fn checked_out_from(&self, old: &Table, name: Seq<char>) -> bool {
        &&& self.wf()
        &&& self.spec_path() == old.spec_path()
        &&& self.spec_columns() == old.spec_columns().remove(
            index_of_key(old.spec_columns(), name),
        )
        &&& self.spec_states() == old.spec_states().update(
            index_of_key(old.spec_states(), name),
            (name, ColumnState::CheckedOut),
        )
        &&& self.state_of(name) == Some(ColumnState::CheckedOut)
        &&& self.column_of(name) is None
        &&& forall|other: Seq<char>|
            other != name ==> self.state_of(other) == old.state_of(other) && self.column_of(other)
                == old.column_of(other)
    }

    /// A new, empty table.
    pub fn new() -> (r: Table)
        ensures
            r.wf(),
            r.spec_path() == Seq::<char>::empty(),
            r.spec_columns() == Seq::<(Seq<char>, ColumnData)>::empty(),
            r.spec_states() == Seq::<(Seq<char>, ColumnState)>::empty(),
    {
        let t = Table { file_path: String::new(), data: Vec::new(), checkouts: Vec::new() };
        assert(t.spec_columns() =~= Seq::<(Seq<char>, ColumnData)>::empty());
        assert(t.spec_states() =~= Seq::<(Seq<char>, ColumnState)>::empty());
        t
    }

    /// Builds a table from CSV header fields and records: one raw column per
    /// distinct header, in order of first occurrence, every column available.
    /// An empty field, or one past the end of its record, is a missing cell.
    pub fn from_csv_records(file_path: String, headers: Vec<String>, rows: Vec<Vec<String>>) -> (t:
        Table)
        ensures
            built_from_records(t, file_path@, strings_view(headers@), records_view(rows@)),
    {
        let ghost hv = strings_view(headers@);
        let ghost rv = records_view(rows@);
        let mut names: Vec<String> = Vec::new();
        let mut field_column: Vec<usize> = Vec::new();
        let mut i: usize = 0;
        while i < headers.len()
            invariant
                i <= headers@.len(),
                hv == strings_view(headers@),
                strings_view(names@) == distinct_headers(hv.take(i as int)),
                field_column@.len() == i,
                forall|p: int|
                    0 <= p < i ==> #[trigger] field_column@[p] < names@.len() && names@[field_column@[p] as int]@
                        == hv[p],
            decreases headers@.len() - i,
        {
            let ghost prefix = hv.take(i as int);
            assert(hv.take(i as int + 1).drop_last() =~= prefix);
            assert(hv.take(i as int + 1).last() == headers@[i as int]@);
            let mut found: Option<usize> = None;
            let mut k: usize = 0;
            while k < names.len()
                invariant
                    i < headers@.len(),
                    k <= names@.len(),
                    found is None ==> forall|q: int| 0 <= q < k ==> names@[q]@ != headers@[i as int]@,
                    found matches Some(f) ==> f < names@.len() && names@[f as int]@ == headers@[i as int]@,
                decreases names@.len() - k,
            {
                if found.is_none() && names[k] == headers[i] {
                    found = Some(k);
                }
                k = k + 1;
            }
            match found {
                Some(f) => {
                    field_column.push(f);
                    assert(strings_view(names@).contains(headers@[i as int]@)) by {
                        assert(strings_view(names@)[f as int] == headers@[i as int]@);
                    }
                },
                None => {
                    field_column.push(names.len());
                    assert(!strings_view(names@).contains(headers@[i as int]@)) by {
                        if strings_view(names@).contains(headers@[i as int]@) {
                            let q = choose|q: int| 0 <= q < names@.len() && #[trigger] strings_view(names@)[q] == headers@[i as int]@;
                            assert(names@[q]@ == strings_view(names@)[q]);
                        }
                    }
                    let ghost before = names@;
                    names.push(headers[i].clone());
                    assert(strings_view(names@) =~= strings_view(before).push(headers@[i as int]@));
                },
            }
            i = i + 1;
        }
        assert(hv.take(i as int) =~= hv);
        proof {
            lemma_distinct_headers(hv);
        }
        let ghost dn = distinct_headers(hv);
        let mut cols: Vec<Vec<Option<String>>> = Vec::new();
        while cols.len() < names.len()
            invariant
                cols@.len() <= names@.len(),
                forall|k: int| 0 <= k < cols@.len() ==> #[trigger] cols@[k]@ == Seq::<Option<String>>::empty(),
            decreases names@.len() - cols@.len(),
        {
            cols.push(Vec::new());
        }
        assert forall|k: int| 0 <= k < names@.len() implies raw_view(#[trigger] cols@[k]@) == column_cells(
            hv,
            rv.take(0),
            names@[k]@,
        ) by {
            assert(rv.take(0) =~= Seq::<Seq<Seq<char>>>::empty());
            assert(raw_view(cols@[k]@) =~= Seq::<Option<Seq<char>>>::empty());
        }
        let mut r: usize = 0;
        while r < rows.len()
            invariant
                r <= rows@.len(),
                hv == strings_view(headers@),
                rv == records_view(rows@),
                cols@.len() == names@.len(),
                strings_view(names@) == dn,
                dn.no_duplicates(),
                field_column@.len() == headers@.len(),
                forall|p: int|
                    0 <= p < headers@.len() ==> #[trigger] field_column@[p] < names@.len() && names@[field_column@[p] as int]@
                        == hv[p],
                forall|k: int|
                    0 <= k < names@.len() ==> raw_view(#[trigger] cols@[k]@) == column_cells(
                        hv,
                        rv.take(r as int),
                        names@[k]@,
                    ),
            decreases rows@.len() - r,
        {
            let ghost row = rv[r as int];
            assert(row == strings_view(rows@[r as int]@));
            let mut f: usize = 0;
            while f < headers.len()
                invariant
                    r < rows@.len(),
                    f <= headers@.len(),
                    hv == strings_view(headers@),
                    rv == records_view(rows@),
                    row == rv[r as int],
                    row == strings_view(rows@[r as int]@),
                    cols@.len() == names@.len(),
                    strings_view(names@) == dn,
                    dn.no_duplicates(),
                    field_column@.len() == headers@.len(),
                    forall|p: int|
                        0 <= p < headers@.len() ==> #[trigger] field_column@[p] < names@.len() && names@[field_column@[p] as int]@
                            == hv[p],
                    forall|k: int|
                        0 <= k < names@.len() ==> raw_view(#[trigger] cols@[k]@) == column_cells(
                            hv,
                            rv.take(r as int),
                            names@[k]@,
                        ) + row_cells(hv, row, names@[k]@, f as int),
                decreases headers@.len() - f,
            {
                let cell: Option<String> = if f < rows[r].len() && !rows[r][f].as_str().is_empty() {
                    Some(rows[r][f].clone())
                } else {
                    None
                };
                assert(cell matches Some(c) ==> Some(c@) == csv_cell(row, f as int));
                assert(cell is None ==> csv_cell(row, f as int) is None);
                let k = field_column[f];
                let ghost before = cols@;
                cols[k].push(cell);
                assert forall|q: int| 0 <= q < names@.len() implies raw_view(#[trigger] cols@[q]@)
                    == column_cells(hv, rv.take(r as int), names@[q]@) + row_cells(
                    hv,
                    row,
                    names@[q]@,
                    f as int + 1,
                ) by {
                    if q == k as int {
                        assert(raw_view(cols@[q]@) =~= raw_view(before[q]@).push(csv_cell(row, f as int)));
                    } else {
                        assert(cols@[q] == before[q]);
                        assert(names@[q]@ != names@[k as int]@) by {
                            assert(strings_view(names@)[q] == names@[q]@);
                            assert(strings_view(names@)[k as int] == names@[k as int]@);
                        }
                    }
                }
                f = f + 1;
            }
            assert(rv.take(r as int + 1).drop_last() =~= rv.take(r as int));
            assert(rv.take(r as int + 1).last() == row);
            r = r + 1;
        }
        assert(rv.take(r as int) =~= rv);
        let mut data: Vec<(String, ColumnData)> = Vec::new();
        let mut checkouts: Vec<(String, ColumnState)> = Vec::new();
        let mut k: usize = 0;
        while k < names.len()
            invariant
                k <= names@.len(),
                cols@.len() == names@.len(),
                strings_view(names@) == dn,
                dn.no_duplicates(),
                data@.len() == k,
                checkouts@.len() == k,
                forall|q: int| k <= q < names@.len() ==> raw_view(#[trigger] cols@[q]@) == column_cells(hv, rv, names@[q]@),
                forall|q: int|
                    0 <= q < k ==> #[trigger] data@[q].0@ == names@[q]@ && (data@[q].1 matches ColumnData::Raw(v)
                        && raw_view(v@) == column_cells(hv, rv, names@[q]@)),
                forall|q: int| 0 <= q < k ==> #[trigger] checkouts@[q].0@ == names@[q]@,
                forall|q: int| 0 <= q < k ==> #[trigger] checkouts@[q].1 == ColumnState::Available,
            decreases names@.len() - k,
        {
            let mut cells: Vec<Option<String>> = Vec::new();
            cols.set_and_swap(k, &mut cells);
            assert(raw_view(cells@) == column_cells(hv, rv, names@[k as int]@));
            let ghost prev_checkouts = checkouts@;
            let ghost prev_data = data@;
            let data_name = names[k].clone();
            let ghost raw = cells;
            data.push((data_name, ColumnData::Raw(cells)));
            assert forall|q: int| 0 <= q < k + 1 implies (#[trigger] data@[q].0@ == names@[q]@ && (
            data@[q].1 matches ColumnData::Raw(v) && raw_view(v@) == column_cells(
                hv,
                rv,
                names@[q]@,
            ))) by {
                if q < k {
                    assert(data@[q] == prev_data[q]);
                } else {
                    assert(data@[q] == (data_name, ColumnData::Raw(raw)));
                }
            }
            let state_name = names[k].clone();
            assert(state_name@ == names@[k as int]@);
            let entry = (state_name, ColumnState::Available);
            checkouts.push(entry);
            assert(checkouts@[k as int] == entry);
            assert(checkouts@[k as int].1 == ColumnState::Available);
            assert forall|q: int| 0 <= q < k + 1 implies #[trigger] checkouts@[q].0@ == names@[q]@ by {
                if q < k {
                    assert(checkouts@[q] == prev_checkouts[q]);
                    assert(prev_checkouts[q].0@ == names@[q]@);
                }
            }
            assert forall|q: int| 0 <= q < k + 1 implies #[trigger] checkouts@[q].1 == ColumnState::Available by {
                if q < k {
                    assert(checkouts@[q] == prev_checkouts[q]);
                    assert(prev_checkouts[q].1 == ColumnState::Available);
                }
            }
            k = k + 1;
        }
        let t = Table { file_path, data, checkouts };
        assert(key_seq(t.spec_columns()) =~= dn) by {
            assert forall|q: int| 0 <= q < dn.len() implies key_seq(t.spec_columns())[q] == dn[q] by {
                assert(strings_view(names@)[q] == names@[q]@);
            }
        }
        assert(key_seq(t.spec_states()) =~= dn) by {
            assert forall|q: int| 0 <= q < dn.len() implies key_seq(t.spec_states())[q] == dn[q] by {
                assert(strings_view(names@)[q] == names@[q]@);
            }
        }
        assert(distinct_keys(t.spec_columns())) by {
            assert forall|a: int, b: int|
                0 <= a < t.spec_columns().len() && 0 <= b < t.spec_columns().len() && a != b implies
                #[trigger] t.spec_columns()[a].0 != #[trigger] t.spec_columns()[b].0 by {
                assert(t.spec_columns()[a].0 == key_seq(t.spec_columns())[a]);
                assert(t.spec_columns()[b].0 == key_seq(t.spec_columns())[b]);
            }
        }
        assert(distinct_keys(t.spec_states())) by {
            assert forall|a: int, b: int|
                0 <= a < t.spec_states().len() && 0 <= b < t.spec_states().len() && a != b implies
                #[trigger] t.spec_states()[a].0 != #[trigger] t.spec_states()[b].0 by {
                assert(t.spec_states()[a].0 == key_seq(t.spec_states())[a]);
                assert(t.spec_states()[b].0 == key_seq(t.spec_states())[b]);
            }
        }
        assert forall|n: Seq<char>|
            has_key(t.spec_columns(), n) <==> (has_key(t.spec_states(), n) && value_of_key(
                t.spec_states(),
                n,
            ) == ColumnState::Available) by {
            if has_key(t.spec_columns(), n) {
                let q = choose|q: int| 0 <= q < t.spec_columns().len() && #[trigger] t.spec_columns()[q].0 == n;
                assert(t.spec_states()[q].0 == n);
                lemma_index_of_key(t.spec_states(), n, q);
            }
            if has_key(t.spec_states(), n) {
                let q = choose|q: int| 0 <= q < t.spec_states().len() && #[trigger] t.spec_states()[q].0 == n;
                assert(t.spec_columns()[q].0 == n);
            }
        }
        t
    }

    /// Builds a table from CSV text: the header record names the columns and
    /// every following record contributes one cell per field.
    pub fn from_csv_bytes(file_path: String, source: &[u8]) -> (r: Result<Table, TableError>)
        ensures
            match (csv_header_fields(source@), csv_record_fields(source@)) {
                (None, _) => r matches Err(TableError::HeadersReadingError(_)),
                (Some(_), None) => r matches Err(TableError::RowReadingError(_)),
                (Some(headers), Some(rows)) => r matches Ok(t) && built_from_records(
                    t,
                    file_path@,
                    headers,
                    rows,
                ),
            },
    {
        let headers = match read_csv_headers(source) {
            Ok(h) => h,
            Err(e) => return Err(TableError::HeadersReadingError(e)),
        };
        let rows = match read_csv_records(source) {
            Ok(v) => v,
            Err(e) => return Err(TableError::RowReadingError(e)),
        };
        Ok(Table::from_csv_records(file_path, headers, rows))
    }

    /// The path of the source the table was read from.
    pub fn file_path(&self) -> (r: &str)
        ensures
            r@ == self.spec_path(),
    {
        self.file_path.as_str()
    }

    /// The number of rows: the length of the first column held, or zero when
    /// no column is held.
    pub fn row_count(&self) -> (r: usize)
        ensures
            r == self.spec_row_count(),
    {
        if self.data.len() == 0 {
            0
        } else {
            self.data[0].1.len()
        }
    }

    /// The number of columns held in the table.
    pub fn column_count(&self) -> (r: usize)
        ensures
            r == self.spec_columns().len(),
    {
        self.data.len()
    }

    /// The number of cells: columns times rows.
    pub fn element_count(&self) -> (r: usize)
        requires
            self.spec_columns().len() * self.spec_row_count() <= usize::MAX,
        ensures
            r == self.spec_columns().len() * self.spec_row_count(),
    {
        self.column_count() * self.row_count()
    }

    /// The data of the column named `name`, if it is held in the table.
    pub fn column_data(&self, name: &str) -> (r: Option<&ColumnData>)
        requires
            self.wf(),
        ensures
            match self.column_of(name@) {
                Some(d) => r matches Some(x) && *x == d,
                None => r is None,
            },
    {
        match find_key(&self.data, name) {
            Some(k) => {
                proof {
                    lemma_index_of_key(self.spec_columns(), name@, k as int);
                }
                Some(&self.data[k].1)
            },
            None => None,
        }
    }

    /// The names of every column the table knows, held or checked out, in
    /// order.
    pub fn column_names(&self) -> (r: Vec<String>)
        ensures
            strings_view(r@) == key_seq(self.spec_states()),
    {
        let mut names: Vec<String> = Vec::new();
        let mut j: usize = 0;
        while j < self.checkouts.len()
            invariant
                j <= self.checkouts@.len(),
                strings_view(names@) == key_seq(self.spec_states()).take(j as int),
            decreases self.checkouts@.len() - j,
        {
            let ghost before = names@;
            assert(key_seq(self.spec_states())[j as int] == self.checkouts@[j as int].0@);
            names.push(self.checkouts[j].0.clone());
            assert(strings_view(names@) =~= strings_view(before).push(self.checkouts@[j as int].0@));
            assert(key_seq(self.spec_states()).take(j as int + 1) =~= key_seq(self.spec_states()).take(
                j as int,
            ).push(self.checkouts@[j as int].0@));
            j = j + 1;
        }
        assert(key_seq(self.spec_states()).take(j as int) =~= key_seq(self.spec_states()));
        names
    }

    /// The state of the column named `name`, if the table knows it.
    pub fn column_state(&self, name: &str) -> (r: Option<ColumnState>)
        requires
            self.wf(),
        ensures
            r == self.state_of(name@),
    {
        match find_key(&self.checkouts, name) {
            Some(k) => {
                proof {
                    lemma_index_of_key(self.spec_states(), name@, k as int);
                }
                Some(self.checkouts[k].1)
            },
            None => None,
        }
    }

    /// Checks that the column `name` can be checked out, returning its position
    /// in the column list and in the state list.
    fn available_position(&self, name: &str) -> (r: Result<(usize, usize), TableError>)
        requires
            self.wf(),
        ensures
            self.state_of(name@) is None ==> (r matches Err(TableError::ColumnNotFound { name: n })
                && n@ == name@),
            self.state_of(name@) == Some(ColumnState::CheckedOut) ==> (r matches Err(
                TableError::ColumnNotAvailable { name: n },
            ) && n@ == name@),
            self.state_of(name@) == Some(ColumnState::Available) ==> (r matches Ok((k, j))
                && self.column_of(name@) is Some && k == index_of_key(self.spec_columns(), name@)
                && j == index_of_key(self.spec_states(), name@) && k < self.spec_columns().len()
                && j < self.spec_states().len()),
    {
        match find_key(&self.checkouts, name) {
            None => Err(TableError::ColumnNotFound { name: to_owned_string(name) }),
            Some(j) => {
                proof {
                    lemma_index_of_key(self.spec_states(), name@, j as int);
                }
                match self.checkouts[j].1 {
                    ColumnState::CheckedOut => Err(
                        TableError::ColumnNotAvailable { name: to_owned_string(name) },
                    ),
                    ColumnState::Available => {
                        assert(has_key(self.spec_states(), name@));
                        assert(has_key(self.spec_columns(), name@));
                        let k = find_key(&self.data, name).unwrap();
                        proof {
                            lemma_index_of_key(self.spec_columns(), name@, k as int);
                        }
                        Ok((k, j))
                    },
                }
            },
        }
    }

    /// Removes the column at position `k` of the column list and marks the
    /// state at position `j` as checked out.
    fn take_column(&mut self, name: &str, k: usize, j: usize) -> (r: ColumnData)
        requires
            old(self).wf(),
            k < old(self).spec_columns().len(),
            j < old(self).spec_states().len(),
            k == index_of_key(old(self).spec_columns(), name@),
            j == index_of_key(old(self).spec_states(), name@),
            old(self).state_of(name@) == Some(ColumnState::Available),
            old(self).column_of(name@) is Some,
        ensures
            final(self).checked_out_from(&*old(self), name@),
            Some(r) == old(self).column_of(name@),
    {
        let ghost before = *self;
        proof {
            lemma_index_of_key(self.spec_columns(), name@, k as int);
            lemma_index_of_key(self.spec_states(), name@, j as int);
            lemma_remove_entry(self.spec_columns(), k as int);
            lemma_update_entry(self.spec_states(), j as int, ColumnState::CheckedOut);
        }
        let (_, data) = self.data.remove(k);
        let entry_name = to_owned_string(name);
        self.checkouts.set(j, (entry_name, ColumnState::CheckedOut));
        assert(self.spec_columns() =~= before.spec_columns().remove(k as int));
        assert(self.spec_states() =~= before.spec_states().update(
            j as int,
            (name@, ColumnState::CheckedOut),
        ));
        assert forall|n: Seq<char>|
            has_key(self.spec_columns(), n) <==> (has_key(self.spec_states(), n) && value_of_key(
                self.spec_states(),
                n,
            ) == ColumnState::Available) by {
            if n != name@ {
                assert(has_key(self.spec_columns(), n) == has_key(before.spec_columns(), n));
                assert(has_key(self.spec_states(), n) == has_key(before.spec_states(), n));
                if has_key(before.spec_states(), n) {
                    assert(value_of_key(self.spec_states(), n) == value_of_key(
                        before.spec_states(),
                        n,
                    ));
                }
            }
        }
        data
    }

    /// Checks out the column `name` as a typed column, parsing raw cells as
    /// values of `T`. A checked-out column is absent from the table until it is
    /// written back with [`Table::update_column`]; a failed call leaves the
    /// table unchanged.
    pub fn get_column<T: ColumnDataVariant + ParseCell>(&mut self, name: &str) -> (r: Result<
        Column<T>,
        TableError,
    >)
        requires
            old(self).wf(),
        ensures
            final(self).wf(),
            old(self).state_of(name@) is None ==> (r matches Err(
                TableError::ColumnNotFound { name: n },
            ) && n@ == name@ && *final(self) == *old(self)),
            old(self).state_of(name@) == Some(ColumnState::CheckedOut) ==> (r matches Err(
                TableError::ColumnNotAvailable { name: n },
            ) && n@ == name@ && *final(self) == *old(self)),
            old(self).state_of(name@) == Some(ColumnState::Available) ==> match old(self).column_of(name@) {
                Some(ColumnData::Raw(cells)) => match name_check(name@) {
                    Err(e) => r matches Err(TableError::ParseFailed { name: n, source })
                        && n@ == name@ && source == e && *final(self) == *old(self),
                    Ok(_) => match parse_cells::<T>(cells@) {
                        Err(text) => r matches Err(
                            TableError::ParseFailed {
                                name: n,
                                source: ColumnError::ParseFailed { raw },
                            },
                        ) && n@ == name@ && raw@ == text && *final(self) == *old(self),
                        Ok(values) => r matches Ok(c) && view_cells(c@) == values && c.spec_name()
                            == name@ && c.spec_behaviors() == Seq::<Seq<char>>::empty() && final(self).checked_out_from(&*old(self), name@),
                    },
                },
                Some(d) => match T::spec_unwrap(d) {
                    Some(c) => r == Ok::<Column<T>, TableError>(c) && final(self).checked_out_from(
                        &*old(self),
                        name@,
                    ),
                    None => r matches Err(TableError::TypeMismatch { name: n }) && n@ == name@
                        && *final(self) == *old(self),
                },
                None => false,
            },
    {
        let (k, j) = self.available_position(name)?;
        let is_raw = match &self.data[k].1 {
            ColumnData::Raw(_) => true,
            _ => false,
        };
        if is_raw {
            let parsed = match &self.data[k].1 {
                ColumnData::Raw(cells) => Column::<T>::new_from_raw_cells(
                    cells,
                    to_owned_string(name),
                ),
                _ => Err(ColumnError::EmptyName),
            };
            match parsed {
                Err(e) => Err(TableError::ParseFailed { name: to_owned_string(name), source: e }),
                Ok(column) => {
                    self.take_column(name, k, j);
                    Ok(column)
                },
            }
        } else {
            if !T::holds(&self.data[k].1) {
                return Err(TableError::TypeMismatch { name: to_owned_string(name) });
            }
            let data = self.take_column(name, k, j);
            match T::unwrap(data) {
                Ok(column) => Ok(column),
                Err(_) => Err(TableError::TypeMismatch { name: to_owned_string(name) }),
            }
        }
    }

    /// Checks out the column `name` as a typed column, parsing raw cells with
    /// `parse`. Otherwise the same as [`Table::get_column`].
    pub fn get_column_with<T: ColumnDataVariant, F: Fn(&String) -> Option<T>>(
        &mut self,
        name: &str,
        parse: F,
    ) -> (r: Result<Column<T>, TableError>)
        requires
            old(self).wf(),
            forall|s: &String| call_requires(parse, (s,)),
        ensures
            final(self).wf(),
            old(self).state_of(name@) is None ==> (r matches Err(
                TableError::ColumnNotFound { name: n },
            ) && n@ == name@ && *final(self) == *old(self)),
            old(self).state_of(name@) == Some(ColumnState::CheckedOut) ==> (r matches Err(
                TableError::ColumnNotAvailable { name: n },
            ) && n@ == name@ && *final(self) == *old(self)),
            old(self).state_of(name@) == Some(ColumnState::Available) ==> match old(self).column_of(name@) {
                Some(ColumnData::Raw(cells)) => match name_check(name@) {
                    Err(e) => r matches Err(TableError::ParseFailed { name: n, source })
                        && n@ == name@ && source == e && *final(self) == *old(self),
                    Ok(_) => (r matches Err(
                        TableError::ParseFailed {
                            name: n,
                            source: ColumnError::ParseFailed { raw },
                        },
                    ) && n@ == name@ && rejected_by(parse, cells@, raw@) && *final(self) == *old(self)) || (r matches Ok(c) && parsed_with(parse, cells@, c@) && c.spec_name()
                        == name@ && c.spec_behaviors() == Seq::<Seq<char>>::empty() && final(self).checked_out_from(&*old(self), name@)),
                },
                Some(d) => match T::spec_unwrap(d) {
                    Some(c) => r == Ok::<Column<T>, TableError>(c) && final(self).checked_out_from(
                        &*old(self),
                        name@,
                    ),
                    None => r matches Err(TableError::TypeMismatch { name: n }) && n@ == name@
                        && *final(self) == *old(self),
                },
                None => false,
            },
    {
        let (k, j) = self.available_position(name)?;
        let is_raw = match &self.data[k].1 {
            ColumnData::Raw(_) => true,
            _ => false,
        };
        if is_raw {
            let parsed = match &self.data[k].1 {
                ColumnData::Raw(cells) => Column::<T>::new_from_raw_with(
                    cells.clone(),
                    to_owned_string(name),
                    parse,
                ),
                _ => Err(ColumnError::EmptyName),
            };
            match parsed {
                Err(e) => Err(TableError::ParseFailed { name: to_owned_string(name), source: e }),
                Ok(column) => {
                    self.take_column(name, k, j);
                    Ok(column)
                },
            }
        } else {
            if !T::holds(&self.data[k].1) {
                return Err(TableError::TypeMismatch { name: to_owned_string(name) });
            }
            let data = self.take_column(name, k, j);
            match T::unwrap(data) {
                Ok(column) => Ok(column),
                Err(_) => Err(TableError::TypeMismatch { name: to_owned_string(name) }),
            }
        }
    }
    /// Writes back a checked-out column under `name`, making it available
    /// again. Fails, leaving the table unchanged, when the table holds a column
    /// and the new column's length differs from the row count, or when `name`
    /// is unknown or not checked out. A table that holds no column (its only
    /// columns are checked out) takes a column of any length.
    pub fn update_column<T: ColumnDataVariant>(&mut self, name: &str, column: Column<T>) -> (r:
        Result<String, TableError>)
        requires
            old(self).wf(),
        ensures
            final(self).wf(),
            old(self).spec_columns().len() > 0 && old(self).spec_row_count() != column@.len() ==> (r
                matches Err(TableError::ColumnLengthMismatch { length }) && length == old(
                self).spec_row_count() && *final(self) == *old(self)),
            !(old(self).spec_columns().len() > 0 && old(self).spec_row_count() != column@.len())
                ==> match old(self).state_of(name@) {
                None => r matches Err(TableError::ColumnNotFound { name: n }) && n@ == name@
                    && *final(self) == *old(self),
                Some(ColumnState::Available) => r matches Err(
                    TableError::ColumnNotCheckedOut { name: n },
                ) && n@ == name@ && *final(self) == *old(self),
                Some(ColumnState::CheckedOut) => r matches Ok(msg) && msg@ == "Column '"@ + name@
                    + "' updated."@ && final(self).spec_path() == old(self).spec_path()
                    && final(self).spec_columns() == old(self).spec_columns().push(
                    (name@, T::spec_wrap(column)),
                ) && final(self).spec_states() == old(self).spec_states().update(
                    index_of_key(old(self).spec_states(), name@),
                    (name@, ColumnState::Available),
                ) && final(self).state_of(name@) == Some(ColumnState::Available)
                    && final(self).column_of(name@) == Some(T::spec_wrap(column)),
            },
    {
        let updated_column_len = column.len();
        let row_count = self.row_count();
        if self.data.len() > 0 && row_count != updated_column_len {
            return Err(TableError::ColumnLengthMismatch { length: row_count });
        }
        match find_key(&self.checkouts, name) {
            None => Err(TableError::ColumnNotFound { name: to_owned_string(name) }),
            Some(j) => {
                proof {
                    lemma_index_of_key(self.spec_states(), name@, j as int);
                }
                match self.checkouts[j].1 {
                    ColumnState::Available => Err(
                        TableError::ColumnNotCheckedOut { name: to_owned_string(name) },
                    ),
                    ColumnState::CheckedOut => {
                        let ghost before = *self;
                        let column_for_table = T::wrap(column);
                        proof {
                            assert(!has_key(self.spec_columns(), name@));
                            lemma_push_entry(self.spec_columns(), name@, column_for_table);
                            lemma_update_entry(self.spec_states(), j as int, ColumnState::Available);
                        }
                        self.data.push((to_owned_string(name), column_for_table));
                        self.checkouts.set(j, (to_owned_string(name), ColumnState::Available));
                        assert(self.spec_columns() =~= before.spec_columns().push(
                            (name@, column_for_table),
                        ));
                        assert(self.spec_states() =~= before.spec_states().update(
                            j as int,
                            (name@, ColumnState::Available),
                        ));
                        assert forall|n: Seq<char>|
                            has_key(self.spec_columns(), n) <==> (has_key(self.spec_states(), n)
                                && value_of_key(self.spec_states(), n)
                                == ColumnState::Available) by {
                            if n != name@ {
                                assert(has_key(self.spec_columns(), n) == has_key(
                                    before.spec_columns(),
                                    n,
                                ));
                                if has_key(before.spec_states(), n) {
                                    assert(value_of_key(self.spec_states(), n) == value_of_key(
                                        before.spec_states(),
                                        n,
                                    ));
                                }
                            }
                        }
                        Ok(concat3("Column '", name, "' updated."))
                    },
                }
            },
        }
    }

    /// Adds a new column under its own name. Fails, leaving the table
    /// unchanged, when a column of that name is held in the table, or when the
    /// table holds a column and the new column's length differs from the row
    /// count.
    pub fn add_column<T: ColumnDataVariant>(&mut self, column: Column<T>) -> (r: Result<
        String,
        TableError,
    >)
        requires
            old(self).wf(),
        ensures
            final(self).wf(),
            old(self).column_of(column.spec_name()) is Some ==> (r matches Err(
                TableError::ColumnAlreadyExists { name: n },
            ) && n@ == column.spec_name() && *final(self) == *old(self)),
            old(self).column_of(column.spec_name()) is None && old(self).spec_columns().len() > 0
                && old(self).spec_row_count() != column@.len() ==> (r matches Err(
                TableError::ColumnLengthMismatch { length },
            ) && length == old(self).spec_row_count() && *final(self) == *old(self)),
            old(self).column_of(column.spec_name()) is None && !(old(self).spec_columns().len() > 0
                && old(self).spec_row_count() != column@.len()) ==> (r matches Ok(msg) && msg@
                == "Column '"@ + column.spec_name() + "' added."@ && final(self).spec_path()
                == old(self).spec_path() && final(self).spec_columns() == old(
                self).spec_columns().push((column.spec_name(), T::spec_wrap(column))) && final(
                self).state_of(column.spec_name()) == Some(ColumnState::Available) && final(
                self).column_of(column.spec_name()) == Some(T::spec_wrap(column)) && (forall|
                other: Seq<char>|
                other != column.spec_name() ==> final(self).state_of(other) == old(self).state_of(
                    other,
                ) && final(self).column_of(other) == old(self).column_of(other))),
    {
        let new_column_name = to_owned_string(column.name());
        if let Some(_) = find_key(&self.data, new_column_name.as_str()) {
            return Err(TableError::ColumnAlreadyExists { name: new_column_name });
        }
        let row_count = self.row_count();
        if self.data.len() > 0 && row_count != column.len() {
            return Err(TableError::ColumnLengthMismatch { length: row_count });
        }
        let ghost before = *self;
        let ghost name = new_column_name@;
        let column_for_table = T::wrap(column);
        proof {
            lemma_push_entry(self.spec_columns(), name, column_for_table);
        }
        self.data.push((new_column_name.clone(), column_for_table));
        assert(self.spec_columns() =~= before.spec_columns().push((name, column_for_table)));
        match find_key(&self.checkouts, new_column_name.as_str()) {
            Some(j) => {
                proof {
                    lemma_index_of_key(self.spec_states(), name, j as int);
                    lemma_update_entry(self.spec_states(), j as int, ColumnState::Available);
                }
                self.checkouts.set(j, (new_column_name.clone(), ColumnState::Available));
                assert(self.spec_states() =~= before.spec_states().update(
                    j as int,
                    (name, ColumnState::Available),
                ));
            },
            None => {
                proof {
                    lemma_push_entry(self.spec_states(), name, ColumnState::Available);
                }
                self.checkouts.push((new_column_name.clone(), ColumnState::Available));
                assert(self.spec_states() =~= before.spec_states().push(
                    (name, ColumnState::Available),
                ));
            },
        }
        assert forall|n: Seq<char>|
            has_key(self.spec_columns(), n) <==> (has_key(self.spec_states(), n) && value_of_key(
                self.spec_states(),
                n,
            ) == ColumnState::Available) by {
            if n != name {
                assert(has_key(self.spec_columns(), n) == has_key(before.spec_columns(), n));
                assert(has_key(self.spec_states(), n) == has_key(before.spec_states(), n));
                if has_key(before.spec_states(), n) {
                    assert(value_of_key(self.spec_states(), n) == value_of_key(
                        before.spec_states(),
                        n,
                    ));
                }
            }
        }
        Ok(concat3("Column '", new_column_name.as_str(), "' added."))
    }
}

impl Default for Table {
    fn default() -> (r: Table)
        ensures
            r.wf(),
            r.spec_path() == Seq::<char>::empty(),
            r.spec_columns() == Seq::<(Seq<char>, ColumnData)>::empty(),
            r.spec_states() == Seq::<(Seq<char>, ColumnState)>::empty(),
    {
        Table::new()
    }
}

} // verus!
