use rand::rngs::StdRng;
use rand::seq::SliceRandom;
use rand::SeedableRng;
use vstd::prelude::*;

use super::{
    distinct_headers, lemma_distinct_headers, rows_selected, strings_view, ColumnData, ColumnState,
    Table, TableError,
};
use crate::keyed::{
    find_key, has_key, key_seq, lemma_index_of_key, lemma_push_entry, lemma_update_entry,
    value_of_key,
};
use crate::models::column::all_below;

verus! {

/// The order in which `SliceRandom::shuffle`, driven by a `StdRng` made with
/// `SeedableRng::seed_from_u64(seed)`, leaves `items`.
pub uninterp spec fn seeded_shuffle(items: Seq<usize>, seed: u64) -> Seq<usize>;

/// Shuffles `items` in place with `rand`'s `SliceRandom::shuffle`, using a
/// `StdRng` seeded from `seed`. The contract names the resulting order and
/// states that it is a permutation of the input, as an in-place shuffle is.
#[verifier::external_body]
fn shuffle_with_seed(items: &mut Vec<usize>, seed: u64)
    ensures
        final(items)@ == seeded_shuffle(old(items)@, seed),
        final(items)@.to_multiset() == old(items)@.to_multiset(),
{
    let mut rng = StdRng::seed_from_u64(seed);
    items.shuffle(&mut rng);
}

/// The row positions `0..n`, in order.
pub open spec fn row_positions(n: nat) -> Seq<usize> {
    Seq::new(n, |i: int| i as usize)
}

/// The first name in `names` that cannot be split, with whether it is checked
/// out (`true`) or unknown (`false`).
pub open spec fn split_failure(t: Table, names: Seq<Seq<char>>) -> Option<(Seq<char>, bool)>
    decreases names.len(),
{
    if names.len() == 0 {
        None
    } else {
        match t.state_of(names[0]) {
            Some(ColumnState::Available) => split_failure(t, names.drop_first()),
            Some(ColumnState::CheckedOut) => Some((names[0], true)),
            None => Some((names[0], false)),
        }
    }
}

/// The names a split covers: the given list, or every column the table knows.
pub open spec fn split_names(t: Table, columns: Option<Vec<String>>) -> Seq<Seq<char>> {
    match columns {
        Some(v) => strings_view(v@),
        None => key_seq(t.spec_states()),
    }
}

/// Every name of `names` that is reached before the first one that cannot be
/// split names a column at least as long as the table's row count.
pub open spec fn split_lengths_ok(t: Table, names: Seq<Seq<char>>) -> bool {
    forall|i: int|
        #![trigger names[i]]
        0 <= i < names.len() && (forall|j: int|
            0 <= j <= i ==> t.state_of(#[trigger] names[j]) == Some(ColumnState::Available))
            ==> t.column_of(names[i])->0.spec_len() >= t.spec_row_count()
}

/// `part` holds, for each distinct name in `names`, the rows at `rows` of that
/// column of `src`, all available.
pub open spec fn split_part(part: Table, src: Table, names: Seq<Seq<char>>, rows: Seq<usize>) -> bool {
    &&& part.wf()
    &&& part.spec_path() == src.spec_path()
    &&& key_seq(part.spec_columns()) == distinct_headers(names)
    &&& key_seq(part.spec_states()) == distinct_headers(names)
    &&& forall|k: int|
        0 <= k < part.spec_states().len() ==> #[trigger] part.spec_states()[k].1
            == ColumnState::Available
    &&& forall|k: int|
        #![trigger part.spec_columns()[k]]
        0 <= k < part.spec_columns().len() ==> (src.column_of(part.spec_columns()[k].0) matches Some(
            d,
        ) && rows_selected(d, rows, part.spec_columns()[k].1))
}

/// `r` is what splitting `t` on the columns `names` gives, with the first
/// `train_rows` positions of the rows shuffled by `seed` in the train table
/// and the rest in the test table: the error of the first name that cannot be
/// split, or the two tables.
pub open spec fn split_outcome(
    t: Table,
    train_rows: usize,
    seed: u64,
    names: Seq<Seq<char>>,
    r: Result<(Table, Table), TableError>,
) -> bool {
    let shuffled = seeded_shuffle(row_positions(t.spec_row_count()), seed);
    match split_failure(t, names) {
        Some((n, true)) => r matches Err(TableError::ColumnNotAvailable { name }) && name@ == n,
        Some((n, false)) => r matches Err(TableError::ColumnNotFound { name }) && name@ == n,
        None => r matches Ok((train, test)) && split_part(
            train,
            t,
            names,
            shuffled.take(train_rows as int),
        ) && split_part(test, t, names, shuffled.skip(train_rows as int)),
    }
}

/// A name occurs among the names of a list of entries exactly when some entry
/// has it.
proof fn lemma_key_seq_has_key<V>(entries: Seq<(Seq<char>, V)>, key: Seq<char>)
    ensures
        has_key(entries, key) == key_seq(entries).contains(key),
{
    if has_key(entries, key) {
        let j = choose|j: int| 0 <= j < entries.len() && #[trigger] entries[j].0 == key;
        assert(key_seq(entries)[j] == key);
    }
    if key_seq(entries).contains(key) {
        let j = choose|j: int| 0 <= j < key_seq(entries).len() && key_seq(entries)[j] == key;
        assert(entries[j].0 == key);
    }
}

impl Table {
    /// Puts `data` under `name` as an available column, replacing a column of
    /// the same name.
    fn put_available(&mut self, name: String, data: ColumnData)
        requires
            old(self).wf(),
            key_seq(old(self).spec_columns()) == key_seq(old(self).spec_states()),
            forall|k: int|
                0 <= k < old(self).spec_states().len() ==> #[trigger] old(self).spec_states()[k].1
                    == ColumnState::Available,
        ensures
            final(self).wf(),
            final(self).spec_path() == old(self).spec_path(),
            key_seq(final(self).spec_columns()) == key_seq(final(self).spec_states()),
            forall|k: int|
                0 <= k < final(self).spec_states().len() ==> #[trigger] final(self).spec_states()[k].1
                    == ColumnState::Available,
            has_key(old(self).spec_columns(), name@) ==> key_seq(final(self).spec_columns())
                == key_seq(old(self).spec_columns()),
            !has_key(old(self).spec_columns(), name@) ==> key_seq(final(self).spec_columns())
                == key_seq(old(self).spec_columns()).push(name@),
            forall|k: int|
                #![trigger final(self).spec_columns()[k]]
                0 <= k < final(self).spec_columns().len() ==> if final(self).spec_columns()[k].0
                    == name@ {
                    final(self).spec_columns()[k].1 == data
                } else {
                    k < old(self).spec_columns().len() && final(self).spec_columns()[k]
                        == old(self).spec_columns()[k]
                },
    {
        let ghost before = *self;
        let ghost cols = self.spec_columns();
        let ghost states = self.spec_states();
        assert(key_seq(cols).len() == cols.len());
        assert(key_seq(states).len() == states.len());
        assert forall|k: int| 0 <= k < states.len() implies states[k].0 == cols[k].0 by {
            assert(key_seq(cols)[k] == cols[k].0);
            assert(key_seq(states)[k] == states[k].0);
        }
        match find_key(&self.data, name.as_str()) {
            Some(k) => {
                proof {
                    lemma_update_entry(cols, k as int, data);
                }
                self.data.set(k, (name, data));
                assert(self.spec_columns() =~= cols.update(k as int, (cols[k as int].0, data)));
                assert forall|j: int|
                    #![trigger self.spec_columns()[j]]
                    0 <= j < self.spec_columns().len() && self.spec_columns()[j].0 != name@ implies j
                    != k as int by {}
            },
            None => {
                assert(!has_key(states, name@)) by {
                    if has_key(states, name@) {
                        let j = choose|j: int| 0 <= j < states.len() && #[trigger] states[j].0 == name@;
                        assert(cols[j].0 == name@);
                    }
                }
                proof {
                    lemma_push_entry(cols, name@, data);
                    lemma_push_entry(states, name@, ColumnState::Available);
                }
                let state_name = name.clone();
                self.data.push((name, data));
                self.checkouts.push((state_name, ColumnState::Available));
                assert(self.spec_columns() =~= cols.push((name@, data)));
                assert(self.spec_states() =~= states.push((name@, ColumnState::Available)));
                assert(key_seq(self.spec_columns()) =~= key_seq(cols).push(name@));
                assert(key_seq(self.spec_states()) =~= key_seq(states).push(name@));
            },
        }
        let ghost now_cols = self.spec_columns();
        let ghost now_states = self.spec_states();
        assert(key_seq(now_cols).len() == now_cols.len());
        assert(key_seq(now_states).len() == now_states.len());
        assert forall|n: Seq<char>|
            has_key(now_cols, n) <==> (has_key(now_states, n) && value_of_key(now_states, n)
                == ColumnState::Available) by {
            if has_key(now_cols, n) {
                let j = choose|j: int| 0 <= j < now_cols.len() && #[trigger] now_cols[j].0 == n;
                assert(key_seq(now_cols)[j] == n);
                assert(now_states[j].0 == key_seq(now_states)[j]);
                lemma_index_of_key(now_states, n, j);
            }
            if has_key(now_states, n) {
                let j = choose|j: int| 0 <= j < now_states.len() && #[trigger] now_states[j].0 == n;
                assert(key_seq(now_states)[j] == n);
                assert(now_cols[j].0 == key_seq(now_cols)[j]);
            }
        }
    }

    /// Splits the rows into a new train table and a new test table, leaving
    /// this table untouched. The row positions are shuffled deterministically
    /// from `seed`; the first `train_rows` shuffled positions go to the train
    /// table and the rest to the test table. `columns` selects the columns to
    /// copy; `None` means every column the table knows, so a checked-out column
    /// makes the split fail.
    #[verifier::rlimit(40)]
    pub fn train_test_split(
        &self,
        train_rows: usize,
        seed: u64,
        columns: Option<Vec<String>>,
    ) -> (r: Result<(Table, Table), TableError>)
        requires
            self.wf(),
            train_rows <= self.spec_row_count(),
            split_lengths_ok(*self, split_names(*self, columns)),
        ensures
            seeded_shuffle(row_positions(self.spec_row_count()), seed).to_multiset()
                == row_positions(self.spec_row_count()).to_multiset(),
            split_outcome(*self, train_rows, seed, split_names(*self, columns), r),
    {
        let row_count = self.row_count();
        let mut indices: Vec<usize> = Vec::new();
        while indices.len() < row_count
            invariant
                indices@.len() <= row_count,
                indices@ == row_positions(indices@.len()),
            decreases row_count - indices@.len(),
        {
            let ghost before = indices@;
            indices.push(indices.len());
            assert(indices@ =~= row_positions(indices@.len()));
        }
        let ghost ordered = indices@;
        assert(ordered == row_positions(row_count as nat));
        shuffle_with_seed(&mut indices, seed);
        assert(seeded_shuffle(row_positions(self.spec_row_count()), seed).to_multiset()
            == row_positions(self.spec_row_count()).to_multiset());
        assert(all_below(indices@, row_count as nat)) by {
            broadcast use vstd::seq_lib::group_to_multiset_ensures;

            assert forall|k: int| 0 <= k < indices@.len() implies indices@[k] < row_count by {
                assert(indices@.to_multiset().count(indices@[k]) > 0);
                assert(ordered.contains(indices@[k]));
                let j = choose|j: int| 0 <= j < ordered.len() && ordered[j] == indices@[k];
            }
        }
        assert(indices@.len() == ordered.len()) by {
            broadcast use vstd::seq_lib::group_to_multiset_ensures;

            assert(indices@.to_multiset().len() == indices@.len());
            assert(ordered.to_multiset().len() == ordered.len());
        }
        let split_point = train_rows;
        let train_indices = &indices.as_slice()[0..split_point];
        let test_indices = &indices.as_slice()[split_point..indices.len()];
        assert(train_indices@ =~= indices@.take(train_rows as int));
        assert(test_indices@ =~= indices@.skip(train_rows as int));
        let mut train_table = Table::new();
        let mut test_table = Table::new();
        train_table.file_path = self.file_path.clone();
        test_table.file_path = self.file_path.clone();
        let column_names: Vec<String> = match columns {
            Some(names) => names,
            None => self.column_names(),
        };
        let ghost names = strings_view(column_names@);
        assert(names == split_names(*self, columns));
        assert(names.skip(0) =~= names);
        assert(names.take(0) =~= Seq::<Seq<char>>::empty());
        assert(key_seq(train_table.spec_columns()) =~= Seq::<Seq<char>>::empty());
        assert(key_seq(train_table.spec_states()) =~= Seq::<Seq<char>>::empty());
        assert(key_seq(test_table.spec_columns()) =~= Seq::<Seq<char>>::empty());
        assert(key_seq(test_table.spec_states()) =~= Seq::<Seq<char>>::empty());
        let mut i: usize = 0;
        while i < column_names.len()
            invariant
                i <= column_names@.len(),
                names == strings_view(column_names@),
                names == split_names(*self, columns),
                self.wf(),
                all_below(indices@, row_count as nat),
                indices@.len() == row_count,
                row_count == self.spec_row_count(),
                seeded_shuffle(row_positions(self.spec_row_count()), seed).to_multiset()
                    == row_positions(self.spec_row_count()).to_multiset(),
                train_indices@ == indices@.take(train_rows as int),
                test_indices@ == indices@.skip(train_rows as int),
                train_rows <= row_count,
                split_lengths_ok(*self, names),
                forall|j: int|
                    0 <= j < i ==> self.state_of(#[trigger] names[j]) == Some(
                        ColumnState::Available,
                    ),
                split_failure(*self, names) == split_failure(*self, names.skip(i as int)),
                split_part(train_table, *self, names.take(i as int), train_indices@),
                split_part(test_table, *self, names.take(i as int), test_indices@),
            decreases column_names@.len() - i,
        {
            assert(names.skip(i as int)[0] == column_names@[i as int]@);
            assert(names.skip(i as int).drop_first() =~= names.skip(i as int + 1));
            let name = &column_names[i];
            let ghost prefix = names.take(i as int);
            assert(names.take(i as int + 1).drop_last() =~= prefix);
            assert(names.take(i as int + 1).last() == name@);
            match self.column_state(name.as_str()) {
                Some(ColumnState::CheckedOut) => {
                    return Err(TableError::ColumnNotAvailable { name: name.clone() });
                },
                None => {
                    return Err(TableError::ColumnNotFound { name: name.clone() });
                },
                Some(ColumnState::Available) => {},
            }
            assert(names[i as int] == name@);
            assert(self.column_of(names[i as int])->0.spec_len() >= self.spec_row_count());
            let data = self.column_data(name.as_str()).unwrap();
            assert(all_below(train_indices@, data.spec_len())) by {
                assert forall|k: int| 0 <= k < train_indices@.len() implies train_indices@[k]
                    < data.spec_len() by {
                    assert(train_indices@[k] == indices@[k]);
                }
            }
            assert(all_below(test_indices@, data.spec_len())) by {
                assert forall|k: int| 0 <= k < test_indices@.len() implies test_indices@[k]
                    < data.spec_len() by {
                    assert(test_indices@[k] == indices@[k + train_rows]);
                }
            }
            let train_data = data.select_rows(train_indices);
            let test_data = data.select_rows(test_indices);
            proof {
                lemma_distinct_headers(prefix);
                lemma_distinct_headers(names.take(i as int + 1));
            }
            let ghost train_before = train_table;
            let ghost test_before = test_table;
            assert(has_key(train_table.spec_columns(), name@) == distinct_headers(prefix).contains(
                name@,
            )) by {
                lemma_key_seq_has_key(train_table.spec_columns(), name@);
            }
            assert(has_key(test_table.spec_columns(), name@) == distinct_headers(prefix).contains(
                name@,
            )) by {
                lemma_key_seq_has_key(test_table.spec_columns(), name@);
            }
            train_table.put_available(name.clone(), train_data);
            test_table.put_available(name.clone(), test_data);
            assert(key_seq(train_table.spec_columns()) =~= distinct_headers(
                names.take(i as int + 1),
            ));
            assert(key_seq(test_table.spec_columns()) =~= distinct_headers(
                names.take(i as int + 1),
            ));
            assert forall|k: int|
                #![trigger train_table.spec_columns()[k]]
                0 <= k < train_table.spec_columns().len() implies (self.column_of(
                train_table.spec_columns()[k].0,
            ) matches Some(d) && rows_selected(d, train_indices@, train_table.spec_columns()[k].1)) by {
                if train_table.spec_columns()[k].0 != name@ {
                    assert(train_before.spec_columns()[k] == train_table.spec_columns()[k]);
                }
            }
            assert forall|k: int|
                #![trigger test_table.spec_columns()[k]]
                0 <= k < test_table.spec_columns().len() implies (self.column_of(
                test_table.spec_columns()[k].0,
            ) matches Some(d) && rows_selected(d, test_indices@, test_table.spec_columns()[k].1)) by {
                if test_table.spec_columns()[k].0 != name@ {
                    assert(test_before.spec_columns()[k] == test_table.spec_columns()[k]);
                }
            }
            i = i + 1;
        }
        assert(names.take(i as int) =~= names);
        assert(names.skip(i as int) =~= Seq::<Seq<char>>::empty());
        Ok((train_table, test_table))
    }
}

} // verus!
