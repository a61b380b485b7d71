//! Properties of what the library reads from cells, stores and accepts,
//! stated over the inputs themselves.
use vstd::prelude::*;

use crate::feature_store::{find_snapshot, numeric_values_of, present_cells, with_snapshot, Snapshot};
use crate::ml::training::valid_label_char;
use crate::models::cell::{digits_value, ParseCell};
use crate::models::column::count_missing;
use crate::models::table::{
    first_problem, numeric_at, numeric_problem, ColumnData, ColumnProblem, NumericValue, Table,
};

verus! {

// ---- Snapshots ----

/// The first snapshot holding `id` is the one at `w` when none before it
/// holds `id`.
proof fn lemma_found_at(all: Seq<Snapshot>, id: Seq<char>, w: int)
    requires
        0 <= w < all.len(),
        all[w].spec_id() == id,
        forall|i: int| 0 <= i < w ==> #[trigger] all[i].spec_id() != id,
    ensures
        find_snapshot(all, id) == Some(all[w]),
    decreases w,
{
    if w > 0 {
        let rest = all.drop_first();
        assert forall|i: int| 0 <= i < w - 1 implies #[trigger] rest[i].spec_id() != id by {
            assert(rest[i] == all[i + 1]);
        }
        assert(rest[w - 1] == all[w]);
        lemma_found_at(rest, id, w - 1);
    }
}

/// Storing a snapshot (as `create_snapshot` does) keeps every stored snapshot
/// with another identifier, still found by that identifier; stores the new
/// one under its identifier; and adds one entry exactly when no stored
/// snapshot had that identifier.
pub proof fn lemma_storing_snapshot_keeps_others(snapshots: Seq<Snapshot>, s: Snapshot)
    requires
        forall|i: int, j: int|
            0 <= i < j < snapshots.len() ==> #[trigger] snapshots[i].spec_id()
                != #[trigger] snapshots[j].spec_id(),
    ensures
        forall|j: int|
            0 <= j < snapshots.len() && #[trigger] snapshots[j].spec_id() != s.spec_id() ==> find_snapshot(
                with_snapshot(snapshots, s),
                snapshots[j].spec_id(),
            ) == Some(snapshots[j]),
        find_snapshot(with_snapshot(snapshots, s), s.spec_id()) == Some(s),
        (exists|j: int| 0 <= j < snapshots.len() && #[trigger] snapshots[j].spec_id() == s.spec_id())
            ==> with_snapshot(snapshots, s).len() == snapshots.len(),
        !(exists|j: int| 0 <= j < snapshots.len() && #[trigger] snapshots[j].spec_id() == s.spec_id())
            ==> with_snapshot(snapshots, s).len() == snapshots.len() + 1,
{
    let all = with_snapshot(snapshots, s);
    if exists|j: int| 0 <= j < snapshots.len() && #[trigger] snapshots[j].spec_id() == s.spec_id() {
        let w = choose|j: int|
            0 <= j < snapshots.len() && #[trigger] snapshots[j].spec_id() == s.spec_id();
        assert(all == snapshots.update(w, s));
        assert forall|i: int| 0 <= i < w implies #[trigger] all[i].spec_id() != s.spec_id() by {
            assert(all[i] == snapshots[i]);
        }
        lemma_found_at(all, s.spec_id(), w);
        assert forall|j: int|
            0 <= j < snapshots.len() && #[trigger] snapshots[j].spec_id() != s.spec_id() implies find_snapshot(
            all,
            snapshots[j].spec_id(),
        ) == Some(snapshots[j]) by {
            assert(j != w);
            assert(all[j] == snapshots[j]);
            assert forall|i: int| 0 <= i < j implies #[trigger] all[i].spec_id()
                != snapshots[j].spec_id() by {
                if i == w {
                    assert(all[i] == s);
                } else {
                    assert(all[i] == snapshots[i]);
                }
            }
            lemma_found_at(all, snapshots[j].spec_id(), j);
        }
    } else {
        assert(all == snapshots.push(s));
        assert forall|i: int| 0 <= i < snapshots.len() implies #[trigger] all[i].spec_id()
            != s.spec_id() by {
            assert(all[i] == snapshots[i]);
        }
        lemma_found_at(all, s.spec_id(), snapshots.len() as int);
        assert forall|j: int|
            0 <= j < snapshots.len() && #[trigger] snapshots[j].spec_id() != s.spec_id() implies find_snapshot(
            all,
            snapshots[j].spec_id(),
        ) == Some(snapshots[j]) by {
            assert(all[j] == snapshots[j]);
            assert forall|i: int| 0 <= i < j implies #[trigger] all[i].spec_id()
                != snapshots[j].spec_id() by {
                assert(all[i] == snapshots[i]);
            }
            lemma_found_at(all, snapshots[j].spec_id(), j);
        }
    }
}

// ---- Drift inputs ----

/// The present values of a list of cells are one per present cell, in order:
/// the value of the present cell at `i` stands at `i` minus the number of
/// missing cells before it.
proof fn lemma_present_positions<T>(cells: Seq<Option<T>>)
    ensures
        present_cells(cells).len() == cells.len() - count_missing(cells),
        forall|i: int|
            0 <= i < cells.len() && #[trigger] cells[i] is Some ==> present_cells(cells)[i
                - count_missing(cells.take(i))] == cells[i]->0,
    decreases cells.len(),
{
    reveal(Seq::filter);
    let f = |c: Option<T>| c is Some;
    if cells.len() == 0 {
        assert(cells.filter(f).len() == 0);
    } else {
        let p = cells.drop_last();
        lemma_present_positions(p);
        assert(count_missing(p) <= p.len()) by {
            lemma_missing_bounded(p);
        }
        let fp = p.filter(f);
        assert(cells.filter(f) == if f(cells.last()) {
            fp.push(cells.last())
        } else {
            fp
        });
        assert forall|i: int|
            0 <= i < cells.len() && #[trigger] cells[i] is Some implies present_cells(cells)[i
                - count_missing(cells.take(i))] == cells[i]->0 by {
            if i < cells.len() - 1 {
                assert(cells.take(i) =~= p.take(i));
                assert(p[i] == cells[i]);
                lemma_missing_bounded(p.take(i));
                lemma_missing_prefix(p, i);
            } else {
                assert(cells.take(i) =~= p);
            }
        }
    }
}

/// A list has at most as many missing cells as cells.
proof fn lemma_missing_bounded<T>(cells: Seq<Option<T>>)
    ensures
        count_missing(cells) <= cells.len(),
    decreases cells.len(),
{
    if cells.len() > 0 {
        lemma_missing_bounded(cells.drop_last());
    }
}

/// A present cell at `i` has fewer missing cells before it than there are
/// present cells in the whole list.
proof fn lemma_missing_prefix<T>(cells: Seq<Option<T>>, i: int)
    requires
        0 <= i < cells.len(),
        cells[i] is Some,
    ensures
        i - count_missing(cells.take(i)) < cells.len() - count_missing(cells),
    decreases cells.len(),
{
    let p = cells.drop_last();
    if i == cells.len() - 1 {
        assert(cells.take(i) =~= p);
    } else {
        assert(cells.take(i) =~= p.take(i));
        assert(p[i] == cells[i]);
        lemma_missing_prefix(p, i);
    }
}

/// Drift is measured on every present value of a numeric version, in order,
/// zeros and repeats included: one value per present cell, the value of the
/// present cell at `i` standing at `i` minus the number of missing cells
/// before it. Text and raw cells give none.
pub proof fn lemma_drift_inputs_are_present_values(data: ColumnData)
    ensures
        match data {
            ColumnData::Int(c) => (numeric_values_of(data) matches Some(v) && v.len() == c@.len()
                - count_missing(c@) && forall|i: int|
                0 <= i < c@.len() && #[trigger] c@[i] is Some ==> v[i - count_missing(c@.take(i))]
                    == NumericValue::Int(c@[i]->0)),
            ColumnData::Float(c) => (numeric_values_of(data) matches Some(v) && v.len() == c@.len()
                - count_missing(c@) && forall|i: int|
                0 <= i < c@.len() && #[trigger] c@[i] is Some ==> v[i - count_missing(c@.take(i))]
                    == NumericValue::Float(c@[i]->0)),
            ColumnData::Bool(c) => (numeric_values_of(data) matches Some(v) && v.len() == c@.len()
                - count_missing(c@) && forall|i: int|
                0 <= i < c@.len() && #[trigger] c@[i] is Some ==> v[i - count_missing(c@.take(i))]
                    == NumericValue::Bool(c@[i]->0)),
            _ => numeric_values_of(data) is None,
        },
{
    match data {
        ColumnData::Int(c) => {
            lemma_present_positions(c@);
            let v = present_cells(c@).map_values(|x: i64| NumericValue::Int(x));
            assert(numeric_values_of(data) == Some(v));
            assert forall|i: int| 0 <= i < c@.len() && #[trigger] c@[i] is Some implies v[i
                - count_missing(c@.take(i))] == NumericValue::Int(c@[i]->0) by {
                lemma_missing_prefix(c@, i);
                let k = i - count_missing(c@.take(i));
                assert(0 <= k) by {
                    lemma_missing_bounded(c@.take(i));
                }
                assert(present_cells(c@)[k] == c@[i]->0);
            }
        },
        ColumnData::Float(c) => {
            lemma_present_positions(c@);
            let v = present_cells(c@).map_values(|x: crate::scalar::Real| NumericValue::Float(x));
            assert(numeric_values_of(data) == Some(v));
            assert forall|i: int| 0 <= i < c@.len() && #[trigger] c@[i] is Some implies v[i
                - count_missing(c@.take(i))] == NumericValue::Float(c@[i]->0) by {
                lemma_missing_prefix(c@, i);
                let k = i - count_missing(c@.take(i));
                assert(0 <= k) by {
                    lemma_missing_bounded(c@.take(i));
                }
                assert(present_cells(c@)[k] == c@[i]->0);
            }
        },
        ColumnData::Bool(c) => {
            lemma_present_positions(c@);
            let v = present_cells(c@).map_values(|x: bool| NumericValue::Bool(x));
            assert(numeric_values_of(data) == Some(v));
            assert forall|i: int| 0 <= i < c@.len() && #[trigger] c@[i] is Some implies v[i
                - count_missing(c@.take(i))] == NumericValue::Bool(c@[i]->0) by {
                lemma_missing_prefix(c@, i);
                let k = i - count_missing(c@.take(i));
                assert(0 <= k) by {
                    lemma_missing_bounded(c@.take(i));
                }
                assert(present_cells(c@)[k] == c@[i]->0);
            }
        },
        _ => {},
    }
}

// ---- Tensor values ----

/// A tensor value is always the value of a present cell: a value is read at
/// row `i` only inside the column, from a present cell, and it is that
/// cell's value, of the column's kind.
pub proof fn lemma_tensor_values_are_present_cells(data: ColumnData, i: int)
    requires
        numeric_at(data, i) is Some,
    ensures
        match (data, numeric_at(data, i)) {
            (ColumnData::Int(c), Some(NumericValue::Int(x))) => 0 <= i < c@.len() && c@[i] == Some(
                x,
            ),
            (ColumnData::Float(c), Some(NumericValue::Float(x))) => 0 <= i < c@.len() && c@[i]
                == Some(x),
            (ColumnData::Bool(c), Some(NumericValue::Bool(x))) => 0 <= i < c@.len() && c@[i] == Some(
                x,
            ),
            _ => false,
        },
{
}

/// A numeric column with a missing cell cannot feed a tensor, and text and
/// raw cells never can: only a numeric column with every cell present is
/// free of problems.
pub proof fn lemma_missing_cells_refused(data: ColumnData)
    ensures
        match data {
            ColumnData::Int(c) => (numeric_problem(Some(data)) is None) == (count_missing(c@) == 0)
                && (count_missing(c@) > 0 ==> numeric_problem(Some(data)) == Some(
                ColumnProblem::MissingValues,
            )),
            ColumnData::Float(c) => (numeric_problem(Some(data)) is None) == (count_missing(c@)
                == 0) && (count_missing(c@) > 0 ==> numeric_problem(Some(data)) == Some(
                ColumnProblem::MissingValues,
            )),
            ColumnData::Bool(c) => (numeric_problem(Some(data)) is None) == (count_missing(c@) == 0)
                && (count_missing(c@) > 0 ==> numeric_problem(Some(data)) == Some(
                ColumnProblem::MissingValues,
            )),
            _ => numeric_problem(Some(data)) == Some(ColumnProblem::NonNumeric),
        },
{
}

/// When no named column has a problem (as `to_tensor_values` and
/// `to_feature_values` require before returning rows), every named column is
/// held, is numeric, and has no missing cell.
pub proof fn lemma_no_problem_means_complete_columns(t: Table, names: Seq<Seq<char>>)
    requires
        first_problem(t, names) is None,
    ensures
        forall|j: int|
            0 <= j < names.len() ==> match t.column_of(#[trigger] names[j]) {
                Some(ColumnData::Int(c)) => count_missing(c@) == 0,
                Some(ColumnData::Float(c)) => count_missing(c@) == 0,
                Some(ColumnData::Bool(c)) => count_missing(c@) == 0,
                _ => false,
            },
    decreases names.len(),
{
    if names.len() > 0 {
        lemma_no_problem_means_complete_columns(t, names.drop_first());
        assert forall|j: int| 0 <= j < names.len() implies match t.column_of(#[trigger] names[j]) {
            Some(ColumnData::Int(c)) => count_missing(c@) == 0,
            Some(ColumnData::Float(c)) => count_missing(c@) == 0,
            Some(ColumnData::Bool(c)) => count_missing(c@) == 0,
            _ => false,
        } by {
            if j > 0 {
                assert(names.drop_first()[j - 1] == names[j]);
            }
        }
    }
}

// ---- Labels ----

/// The characters a model label may hold are exactly the ASCII upper- and
/// lower-case letters, the ASCII digits, `-` and `_`, by character code.
pub proof fn lemma_label_characters(c: char)
    ensures
        valid_label_char(c) <==> (65 <= (c as u32) <= 90 || 97 <= (c as u32) <= 122 || 48 <= (
        c as u32) <= 57 || (c as u32) == 45 || (c as u32) == 95),
{
}

// ---- Integer cells ----

/// Every decimal numeral whose value fits in `i64` reads as that value, with
/// no sign, a `+` or a `-`; a numeral beyond `i64` reads as nothing.
pub proof fn lemma_integer_cells(digits: Seq<char>)
    requires
        digits.len() > 0,
        forall|i: int| 0 <= i < digits.len() ==> '0' <= #[trigger] digits[i] <= '9',
    ensures
        digits_value(digits) <= i64::MAX ==> <i64 as ParseCell>::parse_view(digits) == Some(
            digits_value(digits) as i64,
        ),
        digits_value(digits) <= i64::MAX ==> <i64 as ParseCell>::parse_view(seq!['+'] + digits)
            == Some(digits_value(digits) as i64),
        digits_value(digits) <= i64::MAX + 1 ==> <i64 as ParseCell>::parse_view(
            seq!['-'] + digits,
        ) == Some((-digits_value(digits)) as i64),
        digits_value(digits) > i64::MAX ==> <i64 as ParseCell>::parse_view(digits) is None,
{
    lemma_digits_value_nonnegative(digits);
    assert((seq!['+'] + digits).drop_first() =~= digits);
    assert((seq!['-'] + digits).drop_first() =~= digits);
    assert((seq!['+'] + digits)[0] == '+');
    assert((seq!['-'] + digits)[0] == '-');
}

/// A numeral's value is not negative.
proof fn lemma_digits_value_nonnegative(digits: Seq<char>)
    requires
        forall|i: int| 0 <= i < digits.len() ==> '0' <= #[trigger] digits[i] <= '9',
    ensures
        digits_value(digits) >= 0,
    decreases digits.len(),
{
    if digits.len() > 0 {
        assert forall|i: int| 0 <= i < digits.drop_last().len() implies '0'
            <= #[trigger] digits.drop_last()[i] <= '9' by {
            assert(digits.drop_last()[i] == digits[i]);
        }
        lemma_digits_value_nonnegative(digits.drop_last());
        assert(digits.last() == digits[digits.len() - 1]);
    }
}

} // verus!
