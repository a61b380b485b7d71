//! Properties that relate several operations of the library, each proved
//! from the contracts of the operations it speaks of.
mod values;

use vstd::prelude::*;

pub use values::{
    lemma_drift_inputs_are_present_values, lemma_integer_cells, lemma_label_characters,
    lemma_missing_cells_refused, lemma_no_problem_means_complete_columns,
    lemma_storing_snapshot_keeps_others, lemma_tensor_values_are_present_cells,
};

use crate::feature_store::{
    find_snapshot, find_version, pruned, with_snapshot, ColumnVersion, FeatureStore, Snapshot,
};
use crate::keyed::key_seq;
use crate::models::column::{count_missing, filled_with, Behavior, Column};
use crate::models::table::{
    distinct_headers, row_positions, rows_selected, seeded_shuffle, split_outcome, split_part,
    ColumnData, ColumnDataVariant, ColumnState, Table, TableError,
};

verus! {

/// Two column data hold the same kind of cells, the same cells and, for typed
/// columns, the same name.
pub open spec fn same_data(a: ColumnData, b: ColumnData) -> bool {
    match (a, b) {
        (ColumnData::Int(x), ColumnData::Int(y)) => x@ == y@ && x.spec_name() == y.spec_name(),
        (ColumnData::Float(x), ColumnData::Float(y)) => x@ == y@ && x.spec_name() == y.spec_name(),
        (ColumnData::Text(x), ColumnData::Text(y)) => x@ == y@ && x.spec_name() == y.spec_name(),
        (ColumnData::Bool(x), ColumnData::Bool(y)) => x@ == y@ && x.spec_name() == y.spec_name(),
        (ColumnData::Raw(x), ColumnData::Raw(y)) => x@ == y@,
        _ => false,
    }
}

/// After `fill_with`, a column has no missing cell.
pub proof fn lemma_fill_leaves_no_missing<T: Clone>(
    before: Seq<Option<T>>,
    after: Seq<Option<T>>,
    value: T,
)
    requires
        filled_with(before, after, value),
    ensures
        count_missing(after) == 0,
    decreases after.len(),
{
    if after.len() > 0 {
        let b = before.drop_last();
        let a = after.drop_last();
        assert forall|i: int| 0 <= i < b.len() && b[i] is Some implies a[i] == b[i] by {
            assert(b[i] == before[i]);
            assert(a[i] == after[i]);
        }
        assert forall|i: int| 0 <= i < b.len() && b[i] is None implies (#[trigger] a[i] matches Some(
            c,
        ) && cloned(value, c)) by {
            assert(b[i] == before[i]);
            assert(a[i] == after[i]);
        }
        lemma_fill_leaves_no_missing(b, a, value);
        assert(after.last() == after[after.len() - 1]);
    }
}

/// A column written back with `update_column` (or added with `add_column`)
/// is checked out again by `get_column` as the very column written: it is
/// held as typed data, not raw cells, and unwraps to that column.
pub proof fn lemma_update_then_get<T: ColumnDataVariant>(
    t: Table,
    name: Seq<char>,
    column: Column<T>,
)
    requires
        t.wf(),
        t.state_of(name) == Some(ColumnState::Available),
        t.column_of(name) == Some(T::spec_wrap(column)),
    ensures
        !(t.column_of(name)->0 is Raw),
        T::spec_unwrap(t.column_of(name)->0) == Some(column),
{
    T::lemma_wrap(column);
}

/// A checked-out column is unavailable until it is written back: a second
/// `get_column` of it is refused with `ColumnNotAvailable`, and the table
/// holds no data under its name.
pub proof fn lemma_checkout_makes_unavailable(before: Table, after: Table, name: Seq<char>)
    requires
        before.column_of(name) is Some,
        after.checked_out_from(&before, name),
    ensures
        after.state_of(name) == Some(ColumnState::CheckedOut),
        after.column_of(name) is None,
        after.spec_columns().len() + 1 == before.spec_columns().len(),
{
    let k = crate::keyed::index_of_key(before.spec_columns(), name);
    assert(0 <= k < before.spec_columns().len());
}

/// The distinct names of a non-empty list are not empty.
proof fn lemma_distinct_headers_nonempty(names: Seq<Seq<char>>)
    requires
        names.len() > 0,
    ensures
        distinct_headers(names).len() > 0,
    decreases names.len(),
{
    if names.len() > 1 {
        lemma_distinct_headers_nonempty(names.drop_last());
    }
}

/// Each table of a split has one row per position it was given: the train
/// table `train_rows` rows, the test table the rest.
pub proof fn lemma_split_row_count(
    part: Table,
    src: Table,
    names: Seq<Seq<char>>,
    rows: Seq<usize>,
)
    requires
        split_part(part, src, names, rows),
        names.len() > 0,
    ensures
        part.spec_row_count() == rows.len(),
{
    lemma_distinct_headers_nonempty(names);
    assert(key_seq(part.spec_columns()).len() == part.spec_columns().len());
    let d = src.column_of(part.spec_columns()[0].0)->0;
    assert(rows_selected(d, rows, part.spec_columns()[0].1));
}

/// Splitting is deterministic: two tables that are the same part of a split
/// (the same source, names and row positions) hold the same columns, in the
/// same order, with the same cells.
pub proof fn lemma_split_deterministic(
    a: Table,
    b: Table,
    src: Table,
    names: Seq<Seq<char>>,
    rows: Seq<usize>,
)
    requires
        split_part(a, src, names, rows),
        split_part(b, src, names, rows),
    ensures
        key_seq(a.spec_columns()) == key_seq(b.spec_columns()),
        a.spec_columns().len() == b.spec_columns().len(),
        forall|k: int|
            0 <= k < a.spec_columns().len() ==> same_data(
                #[trigger] a.spec_columns()[k].1,
                b.spec_columns()[k].1,
            ),
{
    assert(key_seq(a.spec_columns()).len() == a.spec_columns().len());
    assert(key_seq(b.spec_columns()).len() == b.spec_columns().len());
    assert forall|k: int| 0 <= k < a.spec_columns().len() implies same_data(
        #[trigger] a.spec_columns()[k].1,
        b.spec_columns()[k].1,
    ) by {
        assert(a.spec_columns()[k].0 == key_seq(a.spec_columns())[k]);
        assert(b.spec_columns()[k].0 == key_seq(b.spec_columns())[k]);
        let d = src.column_of(a.spec_columns()[k].0)->0;
        assert(rows_selected(d, rows, a.spec_columns()[k].1));
        assert(rows_selected(d, rows, b.spec_columns()[k].1));
    }
}

/// The train and test positions of a split are together every row position
/// exactly once: the shuffled positions are a permutation of the rows, and
/// the split cuts them in two.
pub proof fn lemma_split_partitions_rows(shuffled: Seq<usize>, n: nat, train_rows: int)
    requires
        shuffled.to_multiset() == row_positions(n).to_multiset(),
        0 <= train_rows <= n,
    ensures
        shuffled.take(train_rows).to_multiset().add(shuffled.skip(train_rows).to_multiset())
            == row_positions(n).to_multiset(),
        shuffled.take(train_rows).len() == train_rows,
        shuffled.skip(train_rows).len() == n - train_rows,
{
    broadcast use vstd::seq_lib::group_to_multiset_ensures;

    assert(shuffled.len() == n) by {
        assert(shuffled.to_multiset().len() == shuffled.len());
        assert(row_positions(n).to_multiset().len() == row_positions(n).len());
    }
    vstd::seq_lib::lemma_multiset_commutative(shuffled.take(train_rows), shuffled.skip(train_rows));
    assert(shuffled.take(train_rows) + shuffled.skip(train_rows) =~= shuffled);
}

/// The first version committed for a feature is never pruned: a commit keeps
/// the history's first version, numbered 1, in first place.
pub proof fn lemma_commit_keeps_first_version(
    history: Seq<ColumnVersion>,
    added: ColumnVersion,
    max: nat,
)
    requires
        history.len() > 0,
        max >= 2,
    ensures
        pruned(history.push(added), max)[0] == history[0],
{
    let p = history.push(added);
    if p.len() > max {
        assert(p.remove(1)[0] == p[0]);
    }
}

/// A store never keeps more versions of a feature than its cap, keeps at
/// least one of every committed feature, and numbers them strictly upwards
/// from 1.
pub proof fn lemma_versions_bounded_and_ordered(store: FeatureStore, name: Seq<char>)
    requires
        store.wf(),
        store.has_feature(name),
    ensures
        0 < store.history(name).len() <= store.spec_max_versions(),
        store.history(name)[0].spec_number() == 1,
        forall|i: int, j: int|
            0 <= i < j < store.history(name).len() ==> #[trigger] store.history(name)[i].spec_number()
                < #[trigger] store.history(name)[j].spec_number(),
{
    let k = crate::keyed::index_of_key(store.spec_histories(), name);
    assert(crate::feature_store::valid_history(
        store.spec_histories()[k].0,
        store.spec_histories()[k].1,
        store.spec_max_versions(),
    ));
}

/// The latest version of a feature is found under its number: `get_version`
/// with the number `commit` returned gives the version just committed.
pub proof fn lemma_latest_version_found(store: FeatureStore, name: Seq<char>)
    requires
        store.wf(),
        store.has_feature(name),
    ensures
        find_version(store.history(name), store.latest_number(name) as usize) == Some(
            store.history(name).last(),
        ),
{
    lemma_versions_bounded_and_ordered(store, name);
    crate::feature_store::lemma_find_last(store.history(name));
}

/// A snapshot just stored is found by its identifier: `get_snapshot` with the
/// identifier `create_snapshot` returned gives that snapshot.
pub proof fn lemma_stored_snapshot_found(snapshots: Seq<Snapshot>, s: Snapshot)
    requires
        forall|i: int, j: int|
            0 <= i < j < snapshots.len() ==> #[trigger] snapshots[i].spec_id()
                != #[trigger] snapshots[j].spec_id(),
    ensures
        find_snapshot(with_snapshot(snapshots, s), s.spec_id()) == Some(s),
{
    let all = with_snapshot(snapshots, s);
    if exists|j: int| 0 <= j < snapshots.len() && #[trigger] snapshots[j].spec_id() == s.spec_id() {
        let w = choose|j: int|
            0 <= j < snapshots.len() && #[trigger] snapshots[j].spec_id() == s.spec_id();
        assert forall|i: int| 0 <= i < w implies #[trigger] all[i].spec_id() != s.spec_id() by {
            assert(all[i] == snapshots[i]);
        }
        lemma_find_first_snapshot(all, s.spec_id(), w);
    } else {
        assert forall|i: int| 0 <= i < snapshots.len() implies #[trigger] all[i].spec_id()
            != s.spec_id() by {
            assert(all[i] == snapshots[i]);
        }
        lemma_find_first_snapshot(all, s.spec_id(), snapshots.len() as int);
    }
}

/// The snapshot found by identifier is the first one holding it.
proof fn lemma_find_first_snapshot(all: Seq<Snapshot>, id: Seq<char>, w: int)
    requires
        0 <= w < all.len(),
        all[w].spec_id() == id,
        forall|i: int| 0 <= i < w ==> #[trigger] all[i].spec_id() != id,
    ensures
        find_snapshot(all, id) == Some(all[w]),
    decreases w,
{
    if w > 0 {
        let rest = all.drop_first();
        assert forall|i: int| 0 <= i < w - 1 implies #[trigger] rest[i].spec_id() != id by {
            assert(rest[i] == all[i + 1]);
        }
        assert(rest[w - 1] == all[w]);
        lemma_find_first_snapshot(rest, id, w - 1);
    }
}

/// A snapshot whose pinned versions are all still kept and all of one length
/// is rebuilt without failure: `reconstruct_table` then gives a fresh copy of
/// each pinned version.
pub proof fn lemma_reconstruct_equal_lengths(
    store: FeatureStore,
    features: Seq<(Seq<char>, usize)>,
    len: nat,
)
    requires
        forall|k: int|
            0 <= k < features.len() ==> (#[trigger] store.version_data(features[k].0, features[k].1) matches Some(
                d,
            ) && d.spec_len() == len),
    ensures
        store.first_rebuild_failure(features, 0) is None,
{
    lemma_no_rebuild_failure_from(store, features, len, 0);
}

/// No pair from `from` on fails when every pinned version is kept and all have
/// one length.
proof fn lemma_no_rebuild_failure_from(
    store: FeatureStore,
    features: Seq<(Seq<char>, usize)>,
    len: nat,
    from: int,
)
    requires
        0 <= from,
        forall|k: int|
            0 <= k < features.len() ==> (#[trigger] store.version_data(features[k].0, features[k].1) matches Some(
                d,
            ) && d.spec_len() == len),
    ensures
        store.first_rebuild_failure(features, from) is None,
    decreases features.len() - from,
{
    if from < features.len() {
        assert(store.version_data(features[from].0, features[from].1) is Some);
        if from > 0 {
            assert(store.version_data(features[0].0, features[0].1) is Some);
        }
        assert(!store.rebuild_fails_at(features, from));
        lemma_no_rebuild_failure_from(store, features, len, from + 1);
    }
}

/// A behavior registered or updated under a name is the one `call_behavior`
/// runs for that name: the call gives what that behavior computes from the
/// column's cells.
pub proof fn lemma_call_runs_stored_behavior<T, B: Behavior<T>>(
    column: Column<T>,
    name: Seq<char>,
    k: int,
    f: B,
)
    requires
        0 <= k < column.spec_behaviors().len(),
        column.spec_behaviors()[k] == name,
        column.runs_as(k, f),
    ensures
        column.spec_run_at(k, column@) == f.spec_run(column@),
{
}

/// Every held column has the table's row count.
pub open spec fn equal_lengths(t: Table) -> bool {
    forall|k: int|
        0 <= k < t.spec_columns().len() ==> #[trigger] t.spec_columns()[k].1.spec_len()
            == t.spec_row_count()
}

/// `add_column` and `update_column` keep the held columns at one length: the
/// column they append has the row count, unless the table held no column.
pub proof fn lemma_append_keeps_equal_lengths(
    before: Table,
    after: Table,
    name: Seq<char>,
    data: ColumnData,
)
    requires
        equal_lengths(before),
        after.spec_columns() == before.spec_columns().push((name, data)),
        before.spec_columns().len() == 0 || data.spec_len() == before.spec_row_count(),
    ensures
        equal_lengths(after),
        before.spec_columns().len() > 0 ==> after.spec_row_count() == before.spec_row_count(),
{
    if before.spec_columns().len() > 0 {
        assert(after.spec_columns()[0] == before.spec_columns()[0]);
    }
    assert forall|k: int| 0 <= k < after.spec_columns().len() implies #[trigger] after.spec_columns()[k].1.spec_len()
        == after.spec_row_count() by {
        if k < before.spec_columns().len() {
            assert(after.spec_columns()[k] == before.spec_columns()[k]);
        }
    }
}

/// The version numbers of a history, oldest first.
pub open spec fn numbers_of(history: Seq<ColumnVersion>) -> Seq<usize> {
    history.map_values(|v: ColumnVersion| v.spec_number())
}

/// The number of the last version of a history, or 0 when it is empty.
pub open spec fn last_number(history: Seq<ColumnVersion>) -> nat {
    if history.len() == 0 {
        0
    } else {
        history.last().spec_number() as nat
    }
}

/// The version numbers kept after `n` commits under a cap of `max`: all of
/// `1..=n` while they fit, else version 1 and the newest `max - 1`.
pub open spec fn kept_numbers(n: nat, max: nat) -> Seq<usize> {
    if n <= max {
        Seq::new(n, |i: int| (i + 1) as usize)
    } else {
        seq![1usize] + Seq::new((max - 1) as nat, |i: int| (n - max + 2 + i) as usize)
    }
}

/// One commit takes the kept numbers after `n` commits to those after `n + 1`.
proof fn lemma_commit_step(history: Seq<ColumnVersion>, added: ColumnVersion, n: nat, max: nat)
    requires
        max >= 2,
        n + 1 <= usize::MAX,
        numbers_of(history) == kept_numbers(n, max),
        added.spec_number() == last_number(history) + 1,
    ensures
        numbers_of(pruned(history.push(added), max)) == kept_numbers(n + 1, max),
        pruned(history.push(added), max).last() == added,
{
    let k = kept_numbers(n, max);
    let k2 = kept_numbers(n + 1, max);
    assert(history.len() == k.len());
    if n > 0 {
        assert(history.last().spec_number() == k[k.len() - 1]);
        assert(last_number(history) == n);
    } else {
        assert(last_number(history) == 0);
    }
    let p = history.push(added);
    if n + 1 <= max {
        assert forall|j: int| 0 <= j < p.len() implies #[trigger] numbers_of(p)[j] == k2[j] by {
            if j < n {
                assert(p[j] == history[j]);
                assert(history[j].spec_number() == k[j]);
            }
        }
        assert(numbers_of(p) =~= k2);
    } else {
        let q = p.remove(1);
        assert(p.len() == max + 1);
        assert forall|j: int| 0 <= j < q.len() implies #[trigger] numbers_of(q)[j] == k2[j] by {
            if j == 0 {
                assert(q[0] == p[0]);
                assert(p[0] == history[0]);
                assert(history[0].spec_number() == k[0]);
            } else if j < q.len() - 1 {
                assert(q[j] == p[j + 1]);
                assert(p[j + 1] == history[j + 1]);
                assert(history[j + 1].spec_number() == k[j + 1]);
            } else {
                assert(q[j] == p[j + 1]);
            }
        }
        assert(numbers_of(q) =~= k2);
        assert(q.last() == p.last());
    }
}

/// Commits on a feature keep version 1 and the newest `max - 1` versions.
/// Starting from no version, where each commit numbers its version one past
/// the last kept and prunes as `commit` does, the numbers kept after `n`
/// commits are `1..=n` while `n <= max`, and 1 followed by `n - max + 2 ..= n`
/// after that.
pub proof fn lemma_commits_keep_first_and_newest(histories: Seq<Seq<ColumnVersion>>, max: nat)
    requires
        max >= 2,
        histories.len() > 0,
        histories.len() - 1 <= usize::MAX,
        histories[0].len() == 0,
        forall|i: int|
            1 <= i < histories.len() ==> (#[trigger] histories[i]).len() > 0
                && histories[i].last().spec_number() == last_number(histories[i - 1]) + 1
                && histories[i] == pruned(histories[i - 1].push(histories[i].last()), max),
    ensures
        forall|i: int|
            0 <= i < histories.len() ==> numbers_of(#[trigger] histories[i]) == kept_numbers(
                i as nat,
                max,
            ),
    decreases histories.len(),
{
    if histories.len() == 1 {
        assert(numbers_of(histories[0]) =~= kept_numbers(0, max));
    } else {
        let shorter = histories.drop_last();
        assert forall|i: int| 1 <= i < shorter.len() implies (#[trigger] shorter[i]).len() > 0
            && shorter[i].last().spec_number() == last_number(shorter[i - 1]) + 1 && shorter[i]
            == pruned(shorter[i - 1].push(shorter[i].last()), max) by {
            assert(shorter[i] == histories[i]);
            assert(shorter[i - 1] == histories[i - 1]);
        }
        lemma_commits_keep_first_and_newest(shorter, max);
        let m = histories.len() - 1;
        assert(shorter[m - 1] == histories[m - 1]);
        assert(histories[m].len() > 0);
        lemma_commit_step(histories[m - 1], histories[m].last(), (m - 1) as nat, max);
        assert forall|i: int| 0 <= i < histories.len() implies numbers_of(#[trigger] histories[i])
            == kept_numbers(i as nat, max) by {
            if i < m {
                assert(shorter[i] == histories[i]);
            }
        }
    }
}

/// Two tables hold the same column names, in the same order, with the same
/// cells.
pub open spec fn same_columns(a: Table, b: Table) -> bool {
    &&& key_seq(a.spec_columns()) == key_seq(b.spec_columns())
    &&& a.spec_columns().len() == b.spec_columns().len()
    &&& forall|k: int|
        0 <= k < a.spec_columns().len() ==> same_data(
            #[trigger] a.spec_columns()[k].1,
            b.spec_columns()[k].1,
        )
}

/// Two split errors name the same column for the same reason.
pub open spec fn same_split_error(a: TableError, b: TableError) -> bool {
    match (a, b) {
        (TableError::ColumnNotAvailable { name: x }, TableError::ColumnNotAvailable { name: y }) => x@
            == y@,
        (TableError::ColumnNotFound { name: x }, TableError::ColumnNotFound { name: y }) => x@ == y@,
        _ => false,
    }
}

/// Splitting the same table twice with the same row count, seed and columns
/// gives the same outcome: the same error, or train and test tables that hold
/// the same columns, in the same order, with the same cells.
pub proof fn lemma_split_repeats(
    t: Table,
    train_rows: usize,
    seed: u64,
    names: Seq<Seq<char>>,
    first: Result<(Table, Table), TableError>,
    second: Result<(Table, Table), TableError>,
)
    requires
        split_outcome(t, train_rows, seed, names, first),
        split_outcome(t, train_rows, seed, names, second),
    ensures
        first is Ok <==> second is Ok,
        match (first, second) {
            (Err(a), Err(b)) => same_split_error(a, b),
            (Ok((train1, test1)), Ok((train2, test2))) => same_columns(train1, train2)
                && same_columns(test1, test2),
            _ => true,
        },
{
    let shuffled = seeded_shuffle(row_positions(t.spec_row_count()), seed);
    if let (Ok((train1, test1)), Ok((train2, test2))) = (first, second) {
        lemma_split_deterministic(
            train1,
            train2,
            t,
            names,
            shuffled.take(train_rows as int),
        );
        lemma_split_deterministic(test1, test2, t, names, shuffled.skip(train_rows as int));
    }
}

/// After a commit that returned `number` for the feature `name`, that number
/// is the feature's latest: `get_latest_version` and `get_version(name,
/// number)` give the version just committed, and the next commit of the
/// feature returns `number + 1`.
pub proof fn lemma_commit_number_is_latest(
    before: FeatureStore,
    after: FeatureStore,
    name: Seq<char>,
    number: usize,
)
    requires
        after.wf(),
        after.has_feature(name),
        after.history(name) == pruned(
            before.history(name).push(after.history(name).last()),
            before.spec_max_versions(),
        ),
        after.history(name).last().spec_number() == number,
    ensures
        after.latest_number(name) == number,
        find_version(after.history(name), number) == Some(after.history(name).last()),
{
    lemma_versions_bounded_and_ordered(after, name);
    lemma_latest_version_found(after, name);
}

/// A name that holds a behavior is registered, so registering it again is
/// refused and leaves that behavior in place.
pub proof fn lemma_registered_name_refused<T, B: Behavior<T>>(
    column: Column<T>,
    name: Seq<char>,
    k: int,
    f: B,
)
    requires
        0 <= k < column.spec_behaviors().len(),
        column.spec_behaviors()[k] == name,
        column.runs_as(k, f),
    ensures
        column.spec_behaviors().contains(name),
{
}

/// After `remove_behavior(name)` the name is no longer registered: calling it
/// gives `None` and removing it again is refused.
pub proof fn lemma_removed_behavior_gone<T>(
    before: Column<T>,
    after: Column<T>,
    name: Seq<char>,
    k: int,
)
    requires
        before.spec_behaviors().no_duplicates(),
        0 <= k < before.spec_behaviors().len(),
        before.spec_behaviors()[k] == name,
        after.spec_behaviors() == before.spec_behaviors().remove(k),
    ensures
        !after.spec_behaviors().contains(name),
{
    let names = before.spec_behaviors();
    assert forall|j: int| 0 <= j < names.len() - 1 implies names.remove(k)[j] != name by {
        if j < k {
            assert(names.remove(k)[j] == names[j]);
        } else {
            assert(names.remove(k)[j] == names[j + 1]);
        }
    }
}

} // verus!
