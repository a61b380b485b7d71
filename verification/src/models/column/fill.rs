use vstd::prelude::*;

use super::{all_below, update_positions, applies_updates, Column, ColumnError};
use crate::text::to_owned_string;

verus! {

/// The positions of the missing (`None`) cells of `cells`, in increasing order.
pub open spec fn missing_positions<T>(cells: Seq<Option<T>>) -> Seq<usize>
    decreases cells.len(),
{
    if cells.len() == 0 {
        Seq::empty()
    } else if cells.last() is None {
        missing_positions(cells.drop_last()).push((cells.len() - 1) as usize)
    } else {
        missing_positions(cells.drop_last())
    }
}

/// The missing positions of a prefix of the cells are increasing, below the
/// prefix length, and are exactly the missing cells of the prefix.
proof fn lemma_missing_positions<T>(cells: Seq<Option<T>>)
    requires
        cells.len() <= usize::MAX,
    ensures
        forall|a: int, b: int|
            0 <= a < b < missing_positions(cells).len() ==> missing_positions(cells)[a]
                < missing_positions(cells)[b],
        forall|k: int|
            0 <= k < missing_positions(cells).len() ==> missing_positions(cells)[k] < cells.len()
                && cells[missing_positions(cells)[k] as int] is None,
        forall|i: int|
            0 <= i < cells.len() && cells[i] is None ==> missing_positions(cells).contains(
                i as usize,
            ),
    decreases cells.len(),
{
    if cells.len() > 0 {
        let prefix = cells.drop_last();
        lemma_missing_positions(prefix);
        let mp = missing_positions(prefix);
        let full = missing_positions(cells);
        assert forall|k: int| 0 <= k < mp.len() implies cells[mp[k] as int] is None by {
            assert(prefix[mp[k] as int] == cells[mp[k] as int]);
        }
        if cells.last() is None {
            assert(full == mp.push((cells.len() - 1) as usize));
            assert forall|a: int, b: int| 0 <= a < b < full.len() implies full[a] < full[b] by {
                if b == mp.len() {
                    assert(full[a] == mp[a]);
                }
            }
            assert forall|i: int|
                0 <= i < cells.len() && cells[i] is None implies missing_positions(
                cells,
            ).contains(i as usize) by {
                if i < cells.len() - 1 {
                    assert(prefix[i] == cells[i]);
                    let k = choose|k: int| 0 <= k < mp.len() && mp[k] == i as usize;
                    assert(missing_positions(cells)[k] == i as usize);
                } else {
                    assert(missing_positions(cells)[mp.len() as int] == i as usize);
                }
            }
        } else {
            assert forall|i: int|
                0 <= i < cells.len() && cells[i] is None implies missing_positions(
                cells,
            ).contains(i as usize) by {
                assert(prefix[i] == cells[i]);
            }
        }
    }
}

/// `after` is `before` with every missing cell holding a clone of `value` and
/// every present cell kept.
pub open spec fn filled_with<T: Clone>(before: Seq<Option<T>>, after: Seq<Option<T>>, value: T) -> bool {
    &&& after.len() == before.len()
    &&& forall|i: int| 0 <= i < before.len() && before[i] is Some ==> after[i] == before[i]
    &&& forall|i: int|
        #![trigger after[i]]
        0 <= i < before.len() && before[i] is None ==> (after[i] matches Some(c) && cloned(value, c))
}

impl<T> Column<T> {
    /// The positions of the missing cells, in increasing order.
    pub fn missing_indices(&self) -> (r: Vec<usize>)
        ensures
            r@ == missing_positions(self@),
    {
        let mut out: Vec<usize> = Vec::new();
        let mut i: usize = 0;
        while i < self.len()
            invariant
                i <= self@.len(),
                out@ == missing_positions(self@.take(i as int)),
            decreases self@.len() - i,
        {
            assert(self@.take(i as int + 1).drop_last() =~= self@.take(i as int));
            match self.get(i) {
                Some(cell) => {
                    if cell.is_none() {
                        out.push(i);
                    }
                },
                None => {},
            }
            i = i + 1;
        }
        assert(self@.take(i as int) =~= self@);
        out
    }

    /// Fills every missing cell with a clone of `value`; present cells are left
    /// as they are.
    pub fn fill_with(&mut self, value: T) -> (r: Result<String, ColumnError>)
        where
            T: Clone,
        ensures
            r matches Ok(msg) && msg@ == "Missing elements were filled."@,
            filled_with(old(self)@, final(self)@, value),
            final(self).spec_name() == old(self).spec_name(),
            final(self).spec_behaviors() == old(self).spec_behaviors(),
    {
        let missing_indices = self.missing_indices();
        let column_len = self.len();
        proof {
            lemma_missing_positions(self@);
        }
        let mut new_elements: Vec<(usize, Option<T>)> = Vec::new();
        let mut k: usize = 0;
        while k < missing_indices.len()
            invariant
                k <= missing_indices@.len(),
                missing_indices@ == missing_positions(self@),
                new_elements@.len() == k,
                forall|j: int|
                    0 <= j < k ==> new_elements@[j].0 == missing_indices@[j] && (
                    new_elements@[j].1 matches Some(c) && cloned(value, c)),
            decreases missing_indices@.len() - k,
        {
            let copy = value.clone();
            new_elements.push((missing_indices[k], Some(copy)));
            k = k + 1;
        }
        let ghost updates = new_elements@;
        let ghost before = self@;
        assert(before.len() == column_len);
        assert(update_positions(updates) =~= missing_indices@);
        assert(all_below(update_positions(updates), before.len()));
        assert(update_positions(updates).no_duplicates()) by {
            assert forall|a: int, b: int|
                0 <= a < update_positions(updates).len() && 0 <= b < update_positions(
                    updates,
                ).len() && a != b implies update_positions(updates)[a] != update_positions(
                updates,
            )[b] by {
                if a < b {
                    assert(missing_indices@[a] < missing_indices@[b]);
                } else {
                    assert(missing_indices@[b] < missing_indices@[a]);
                }
            }
        }
        let update_result = self.update_element(new_elements);
        assert(applies_updates(before, self@, updates));
        assert forall|i: int|
            0 <= i < before.len() && before[i] is None implies (self@[i] matches Some(c) && cloned(
                value,
                c,
            )) by {
            assert(missing_indices@.contains(i as usize));
            let k = choose|k: int|
                0 <= k < missing_indices@.len() && missing_indices@[k] == i as usize;
            assert(updates[k].0 == i as usize);
            assert(self@[updates[k].0 as int] == updates[k].1);
        }
        assert forall|i: int|
            0 <= i < before.len() && before[i] is Some implies self@[i] == before[i] by {
            assert forall|k: int| 0 <= k < updates.len() implies updates[k].0 != i by {
                assert(updates[k].0 == missing_indices@[k]);
            }
        }
        match update_result {
            Err(e) => Err(e),
            _ => Ok(to_owned_string("Missing elements were filled.")),
        }
    }
}

} // verus!
