mod fill;

pub use fill::{filled_with, missing_positions};

use std::collections::HashSet;
use vstd::prelude::*;

use crate::models::cell::{
    duplicate_cell, CellValue, parse_raw_cells, parse_raw_cells_with, parse_cells, parsed_with, rejected_by, view_cells, ParseCell,
};
use crate::scalar::Real;
use crate::text::{concat3, concat5, str_eq, to_owned_string};

verus! {

broadcast use vstd::std_specs::hash::group_hash_axioms;

/// Maximum number of characters allowed in a [`Column`]'s name.
pub const MAX_NAME_LEN: usize = 200;

/// Errors that can occur while creating or mutating a [`Column`].
#[derive(Debug)]
pub enum ColumnError {
    /// The provided column name was empty.
    EmptyName,
    /// The provided column name exceeded [`MAX_NAME_LEN`] characters.
    NameTooLong { max: usize, actual: usize },
    /// A raw cell could not be parsed into the column's element type; `raw` is
    /// the first cell that failed.
    ParseFailed { raw: String },
    /// A behavior is already registered under `name`.
    BehaviorAlreadyRegistered { name: String },
    /// No behavior is registered under `name`.
    BehaviorNotFound { name: String },
    /// An index was outside the column (`max` is the column's length).
    IndexOutOfBounds { max: usize },
    /// The same index appeared more than once.
    DuplicatedIndices,
    /// Every element of the column is missing.
    AllMissingElements,
    /// Every present element of the column holds the same value.
    FilledElementsEqual,
}

/// The result of running a registered behavior via [`Column::call_behavior`].
#[derive(Debug)]
pub enum BehaviorResult {
    Float(Real),
    Int(i64),
    Text(String),
    Bool(bool),
    /// Any other result, in a textual form chosen by the behavior.
    Custom(String),
}

/// A named computation over a column's cells, registered on a [`Column`] and
/// run on demand through [`Column::call_behavior`].
///
/// An implementation states in `spec_run` what `run` computes; `run` must give
/// exactly that. `spec_run` is read by the verifier only and never called.
pub trait Behavior<T> {
    /// What the behavior computes from the cells `data`.
    spec fn spec_run(&self, data: Seq<Option<T>>) -> BehaviorResult;

    fn run(&self, data: &Vec<Option<T>>) -> (r: BehaviorResult)
        ensures
            r == self.spec_run(data@),
    ;
}

/// Whether `name` is acceptable as a column name: non-empty and at most
/// [`MAX_NAME_LEN`] characters.
pub open spec fn valid_name(name: Seq<char>) -> bool {
    0 < name.len() <= MAX_NAME_LEN
}

/// The outcome of validating a column name.
pub open spec fn name_check(name: Seq<char>) -> Result<(), ColumnError> {
    if name.len() == 0 {
        Err(ColumnError::EmptyName)
    } else if name.len() > MAX_NAME_LEN {
        Err(ColumnError::NameTooLong { max: MAX_NAME_LEN, actual: name.len() as usize })
    } else {
        Ok(())
    }
}

/// Number of missing (`None`) cells in `cells`.
pub open spec fn count_missing<T>(cells: Seq<Option<T>>) -> nat
    decreases cells.len(),
{
    if cells.len() == 0 {
        0
    } else {
        count_missing(cells.drop_last()) + if cells.last() is None { 1nat } else { 0nat }
    }
}

/// The cells of `cells` whose positions do not occur in `removed`, from
/// position `from` on, in the order they hold.
pub open spec fn kept_from<A>(cells: Seq<A>, removed: Seq<usize>, from: int) -> Seq<A>
    decreases cells.len() - from,
{
    if from < 0 || from >= cells.len() {
        Seq::empty()
    } else if removed.contains(from as usize) {
        kept_from(cells, removed, from + 1)
    } else {
        seq![cells[from]] + kept_from(cells, removed, from + 1)
    }
}

/// The cells of `cells` whose positions do not occur in `removed`.
pub open spec fn without_positions<A>(cells: Seq<A>, removed: Seq<usize>) -> Seq<A> {
    kept_from(cells, removed, 0)
}

/// The positions named by a list of `(position, value)` updates.
pub open spec fn update_positions<T>(updates: Seq<(usize, Option<T>)>) -> Seq<usize> {
    updates.map_values(|u: (usize, Option<T>)| u.0)
}

/// Every position in `positions` is below `len`.
pub open spec fn all_below(positions: Seq<usize>, len: nat) -> bool {
    forall|k: int| 0 <= k < positions.len() ==> positions[k] < len
}

/// `new` is `old` with each `(position, value)` of `updates` written in: the
/// named cells hold their new values and every other cell is unchanged.
pub open spec fn applies_updates<T>(
    old: Seq<Option<T>>,
    new: Seq<Option<T>>,
    updates: Seq<(usize, Option<T>)>,
) -> bool {
    &&& new.len() == old.len()
    &&& forall|k: int| 0 <= k < updates.len() ==> new[updates[k].0 as int] == updates[k].1
    &&& forall|i: int|
        0 <= i < old.len() && (forall|k: int| 0 <= k < updates.len() ==> updates[k].0 != i)
            ==> new[i] == old[i]
}

/// A single typed column of data, storing each cell as `Option<T>` so that
/// missing values are explicit.
///
/// A column also carries its own name and a registry of named behaviors that
/// can be run against its data on demand.
#[verifier::reject_recursive_types(T)]
pub struct Column<T> {
    data: Vec<Option<T>>,
    name: String,
    behaviors: Vec<(String, Box<dyn Behavior<T>>)>,
}

impl<T> View for Column<T> {
    type V = Seq<Option<T>>;

    closed spec fn view(&self) -> Seq<Option<T>> {
        self.data@
    }
}

impl<T> Column<T> {
    /// The column's name.
    pub closed spec fn spec_name(&self) -> Seq<char> {
        self.name@
    }

    /// The names of the registered behaviors, in registration order.
    pub closed spec fn spec_behaviors(&self) -> Seq<Seq<char>> {
        self.behaviors@.map_values(|e: (String, Box<dyn Behavior<T>>)| e.0@)
    }

    /// What the behavior at position `k` of the registry computes from the
    /// cells `data`.
    pub closed spec fn spec_run_at(&self, k: int, data: Seq<Option<T>>) -> BehaviorResult {
        self.behaviors@[k].1.spec_run(data)
    }

    /// The behavior at position `k` computes what `f` computes.
    pub open spec fn runs_as<B: Behavior<T>>(&self, k: int, f: B) -> bool {
        forall|data: Seq<Option<T>>| #[trigger] self.spec_run_at(k, data) == f.spec_run(data)
    }

    /// The behavior at position `k` computes what the behavior at position `j`
    /// of `other` computes.
    pub open spec fn runs_like(&self, k: int, other: &Self, j: int) -> bool {
        forall|data: Seq<Option<T>>| #[trigger] self.spec_run_at(k, data) == other.spec_run_at(j, data)
    }

    #[verifier::type_invariant]
    closed spec fn inv(&self) -> bool {
        &&& valid_name(self.name@)
        &&& self.spec_behaviors().no_duplicates()
    }

    /// Creates a new column from already-typed data.
    pub fn new_from_parsed(data: Vec<Option<T>>, name: String) -> (r: Result<Self, ColumnError>)
        ensures
            match name_check(name@) {
                Err(e) => r == Err::<Self, ColumnError>(e),
                Ok(_) => r matches Ok(c) && c@ == data@ && c.spec_name() == name@
                    && c.spec_behaviors() == Seq::<Seq<char>>::empty(),
            },
    {
        match validate_name(name.as_str()) {
            Err(e) => Err(e),
            Ok(()) => {
                let c = Column { data, name, behaviors: Vec::new() };
                assert(c.spec_behaviors() =~= Seq::<Seq<char>>::empty());
                Ok(c)
            },
        }
    }

    /// Returns the column's name.
    pub fn name(&self) -> (r: &str)
        ensures
            r@ == self.spec_name(),
    {
        self.name.as_str()
    }

    /// Renames the column; on failure the existing name is left untouched.
    pub fn update_name(&mut self, name: String) -> (r: Result<String, ColumnError>)
        ensures
            match name_check(name@) {
                Err(e) => r == Err::<String, ColumnError>(e) && *final(self) == *old(self),
                Ok(_) => r matches Ok(msg) && msg@ == "Name of the column changed from '"@
                    + old(self).spec_name() + "' to '"@ + name@ + "'."@
                    && final(self).spec_name() == name@ && final(self)@ == old(self)@
                    && final(self).spec_behaviors() == old(self).spec_behaviors(),
            },
    {
        proof {
            use_type_invariant(&*self);
        }
        match validate_name(name.as_str()) {
            Err(e) => Err(e),
            Ok(()) => {
                let msg = concat5(
                    "Name of the column changed from '",
                    self.name.as_str(),
                    "' to '",
                    name.as_str(),
                    "'.",
                );
                self.name = name;
                Ok(msg)
            },
        }
    }

    /// Whether the column has no cells at all.
    pub fn is_empty(&self) -> (r: bool)
        ensures
            r == (self@.len() == 0),
    {
        self.data.len() == 0
    }

    /// The number of cells, missing ones included.
    pub fn len(&self) -> (r: usize)
        ensures
            r == self@.len(),
    {
        self.data.len()
    }

    /// The number of missing (`None`) cells.
    pub fn missing_count(&self) -> (r: usize)
        ensures
            r == count_missing(self@),
    {
        let mut count: usize = 0;
        let mut i: usize = 0;
        while i < self.data.len()
            invariant
                i <= self.data@.len(),
                count == count_missing(self.data@.take(i as int)),
                count <= i,
            decreases self.data@.len() - i,
        {
            assert(self.data@.take(i as int + 1).drop_last() =~= self.data@.take(i as int));
            if self.data[i].is_none() {
                count = count + 1;
            }
            i = i + 1;
        }
        assert(self.data@.take(i as int) =~= self.data@);
        count
    }

    /// The cell at `index`: `None` when `index` is out of bounds; otherwise the
    /// cell itself, which is `None` when the value is missing.
    pub fn get(&self, index: usize) -> (r: Option<&Option<T>>)
        ensures
            index < self@.len() ==> r == Some(&self@[index as int]),
            index >= self@.len() ==> r is None,
    {
        if index < self.data.len() {
            Some(&self.data[index])
        } else {
            None
        }
    }

    /// The cells at positions `start..end`, or `None` when the range is not
    /// within the column.
    pub fn get_range(&self, start: usize, end: usize) -> (r: Option<&[Option<T>]>)
        ensures
            start <= end <= self@.len() ==> (r matches Some(s) && s@ == self@.subrange(
                start as int,
                end as int,
            )),
            !(start <= end <= self@.len()) ==> r is None,
    {
        if start <= end && end <= self.data.len() {
            Some(&self.data.as_slice()[start..end])
        } else {
            None
        }
    }

    /// Replaces the cells at the given `(index, value)` positions. The update is
    /// atomic: if any index is out of bounds or repeated, nothing changes.
    pub fn update_element(&mut self, new_elements: Vec<(usize, Option<T>)>) -> (r: Result<
        String,
        ColumnError,
    >)
        ensures
            !all_below(update_positions(new_elements@), old(self)@.len()) ==> r
                == Err::<String, ColumnError>(
                ColumnError::IndexOutOfBounds { max: old(self)@.len() as usize },
            ) && *final(self) == *old(self),
            all_below(update_positions(new_elements@), old(self)@.len()) && !update_positions(
                new_elements@,
            ).no_duplicates() ==> r == Err::<String, ColumnError>(ColumnError::DuplicatedIndices)
                && *final(self) == *old(self),
            all_below(update_positions(new_elements@), old(self)@.len()) && update_positions(
                new_elements@,
            ).no_duplicates() ==> (r matches Ok(msg) && msg@ == "Elements are changed."@
                && applies_updates(old(self)@, final(self)@, new_elements@)
                && final(self).spec_name() == old(self).spec_name()
                && final(self).spec_behaviors() == old(self).spec_behaviors()),
    {
        proof {
            use_type_invariant(&*self);
        }
        if !check_len_limit(&new_elements, self.data.len()) {
            return Err(ColumnError::IndexOutOfBounds { max: self.data.len() });
        }
        if !check_duplicate_indices(&new_elements) {
            return Err(ColumnError::DuplicatedIndices);
        }
        let ghost updates = new_elements@;
        assert forall|k: int| 0 <= k < updates.len() implies updates[k].0 < self.data@.len() by {
            assert(update_positions(updates)[k] == updates[k].0);
        }
        let ghost before = self.data@;
        let mut data: Vec<Option<T>> = Vec::new();
        std::mem::swap(&mut data, &mut self.data);
        let mut pending = new_elements;
        while pending.len() > 0
            invariant
                pending@ == updates.take(pending@.len() as int),
                pending@.len() <= updates.len(),
                forall|k: int| 0 <= k < updates.len() ==> updates[k].0 < before.len(),
                update_positions(updates).no_duplicates(),
                data@.len() == before.len(),
                forall|k: int|
                    pending@.len() <= k < updates.len() ==> data@[updates[k].0 as int]
                        == updates[k].1,
                forall|i: int|
                    0 <= i < before.len() && (forall|k: int|
                        pending@.len() <= k < updates.len() ==> updates[k].0 != i)
                        ==> data@[i] == before[i],
            decreases pending@.len(),
        {
            let ghost n = pending@.len() as int;
            let (index, element) = pending.pop().unwrap();
            assert(updates[n - 1] == (index, element));
            assert(update_positions(updates)[n - 1] == index);
            assert forall|k: int| n <= k < updates.len() implies updates[k].0 != index by {
                assert(update_positions(updates)[k] == updates[k].0);
                assert(update_positions(updates)[n - 1] == updates[n - 1].0);
            }
            data.set(index, element);
            assert(pending@ =~= updates.take(n - 1));
        }
        self.data = data;
        Ok(to_owned_string("Elements are changed."))
    }

    /// Removes the cells at the given indices, shifting later cells down. The
    /// removal is atomic: if any index is repeated or out of bounds, nothing
    /// changes.
    pub fn remove_element(&mut self, indices: Vec<usize>) -> (r: Result<String, ColumnError>)
        ensures
            !indices@.no_duplicates() ==> r == Err::<String, ColumnError>(
                ColumnError::DuplicatedIndices,
            ) && *final(self) == *old(self),
            indices@.no_duplicates() && !all_below(indices@, old(self)@.len()) ==> r
                == Err::<String, ColumnError>(
                ColumnError::IndexOutOfBounds { max: old(self)@.len() as usize },
            ) && *final(self) == *old(self),
            indices@.no_duplicates() && all_below(indices@, old(self)@.len()) ==> (r matches Ok(
                msg,
            ) && msg@ == "Elements removed from the column '"@ + old(self).spec_name() + "'"@
                && final(self)@ == without_positions(old(self)@, indices@)
                && final(self).spec_name() == old(self).spec_name()
                && final(self).spec_behaviors() == old(self).spec_behaviors()),
    {
        proof {
            use_type_invariant(&*self);
        }
        if !check_duplicate_indices(&indices) {
            return Err(ColumnError::DuplicatedIndices);
        }
        let max_data_len = self.data.len();
        if !check_len_limit(&indices, max_data_len) {
            return Err(ColumnError::IndexOutOfBounds { max: max_data_len });
        }
        let mut marked: Vec<bool> = vec![false; max_data_len];
        let mut k: usize = 0;
        while k < indices.len()
            invariant
                k <= indices@.len(),
                marked@.len() == max_data_len,
                all_below(indices@, max_data_len as nat),
                forall|p: int|
                    0 <= p < max_data_len ==> marked@[p] == indices@.take(k as int).contains(
                        p as usize,
                    ),
            decreases indices@.len() - k,
        {
            let ghost prev = marked@;
            let index = indices[k];
            marked.set(index, true);
            assert forall|p: int| 0 <= p < max_data_len implies marked@[p] == indices@.take(
                k as int + 1,
            ).contains(p as usize) by {
                broadcast use vstd::seq_lib::lemma_seq_contains_after_push;
                assert(indices@.take(k as int + 1) =~= indices@.take(k as int).push(index));
                if p != index as int {
                    assert(marked@[p] == prev[p]);
                }
            }
            k = k + 1;
        }
        assert(indices@.take(k as int) =~= indices@);
        let ghost before = self.data@;
        let mut data: Vec<Option<T>> = Vec::new();
        std::mem::swap(&mut data, &mut self.data);
        let mut pos: usize = max_data_len;
        while pos > 0
            invariant
                pos <= max_data_len,
                before.len() == max_data_len,
                marked@.len() == max_data_len,
                forall|p: int| 0 <= p < max_data_len ==> marked@[p] == indices@.contains(p as usize),
                data@ == before.take(pos as int) + kept_from(before, indices@, pos as int),
            decreases pos,
        {
            let p = pos - 1;
            if marked[p] {
                assert(before.take(p as int) + kept_from(before, indices@, p as int) =~= (
                before.take(pos as int) + kept_from(before, indices@, pos as int)).remove(
                    p as int,
                ));
                data.remove(p);
            } else {
                assert(before.take(p as int) + kept_from(before, indices@, p as int) =~= before.take(
                    pos as int,
                ) + kept_from(before, indices@, pos as int));
            }
            pos = p;
        }
        assert(before.take(0) + kept_from(before, indices@, 0) =~= without_positions(
            before,
            indices@,
        ));
        self.data = data;
        Ok(concat3("Elements removed from the column '", self.name.as_str(), "'"))
    }
}

impl<T> Column<T> {
    /// The position of the behavior registered under `name`, if any.
    fn find_behavior(&self, name: &str) -> (r: Option<usize>)
        ensures
            r matches Some(k) ==> k < self.spec_behaviors().len() && self.spec_behaviors()[k as int]
                == name@,
            r is None ==> !self.spec_behaviors().contains(name@),
    {
        let mut i: usize = 0;
        while i < self.behaviors.len()
            invariant
                i <= self.behaviors@.len(),
                forall|j: int| 0 <= j < i ==> self.spec_behaviors()[j] != name@,
            decreases self.behaviors@.len() - i,
        {
            if str_eq(self.behaviors[i].0.as_str(), name) {
                return Some(i);
            }
            i = i + 1;
        }
        None
    }

    /// Registers a new named behavior, to be run later via
    /// [`Column::call_behavior`]. Fails if `name` is already registered.
    pub fn register_behavior<B: Behavior<T> + 'static>(&mut self, name: &str, f: B) -> (r: Result<
        String,
        ColumnError,
    >)
        ensures
            old(self).spec_behaviors().contains(name@) ==> (r matches Err(
                ColumnError::BehaviorAlreadyRegistered { name: n },
            ) && n@ == name@ && *final(self) == *old(self)),
            !old(self).spec_behaviors().contains(name@) ==> (r matches Ok(msg) && msg@
                == "Behavior '"@ + name@ + "' added."@ && final(self).spec_behaviors()
                == old(self).spec_behaviors().push(name@) && final(self)@ == old(self)@
                && final(self).spec_name() == old(self).spec_name() && final(self).runs_as(
                old(self).spec_behaviors().len() as int,
                f,
            ) && forall|k: int|
                0 <= k < old(self).spec_behaviors().len() ==> #[trigger] final(self).runs_like(
                    k,
                    &*old(self),
                    k,
                )),
    {
        proof {
            use_type_invariant(&*self);
        }
        if let Some(_) = self.find_behavior(name) {
            return Err(ColumnError::BehaviorAlreadyRegistered { name: to_owned_string(name) });
        }
        let boxed = boxed_behavior(f);
        let mut behaviors: Vec<(String, Box<dyn Behavior<T>>)> = Vec::new();
        std::mem::swap(&mut behaviors, &mut self.behaviors);
        let ghost before = behaviors@;
        let key = to_owned_string(name);
        let entry = (key, boxed);
        assert(entry.0@ == name@);
        behaviors.push(entry);
        assert(behaviors@.len() == before.len() + 1);
        assert(behaviors@.last().0@ == name@);
        assert forall|j: int| 0 <= j < before.len() implies behaviors@[j] == before[j] by {}
        assert(behaviors@.map_values(|e: (String, Box<dyn Behavior<T>>)| e.0@) =~= before.map_values(
            |e: (String, Box<dyn Behavior<T>>)| e.0@,
        ).push(name@));
        proof {
            broadcast use vstd::seq_lib::lemma_seq_contains_after_push;

        }
        self.behaviors = behaviors;
        assert(self.runs_as(before.len() as int, f));
        assert forall|k: int| 0 <= k < before.len() implies #[trigger] self.runs_like(
            k,
            &*old(self),
            k,
        ) by {
            assert(self.behaviors@[k] == old(self).behaviors@[k]);
        }
        Ok(concat3("Behavior '", name, "' added."))
    }

    /// Replaces the behavior registered under `name`. Fails if `name` is not
    /// registered.
    pub fn update_behavior<B: Behavior<T> + 'static>(&mut self, name: &str, f: B) -> (r: Result<
        String,
        ColumnError,
    >)
        ensures
            !old(self).spec_behaviors().contains(name@) ==> (r matches Err(
                ColumnError::BehaviorNotFound { name: n },
            ) && n@ == name@ && *final(self) == *old(self)),
            old(self).spec_behaviors().contains(name@) ==> (r matches Ok(msg) && msg@
                == "Behavior '"@ + name@ + "' updated."@ && final(self).spec_behaviors()
                == old(self).spec_behaviors() && final(self)@ == old(self)@
                && final(self).spec_name() == old(self).spec_name() && forall|k: int|
                0 <= k < old(self).spec_behaviors().len() ==> if old(self).spec_behaviors()[k]
                    == name@ {
                    final(self).runs_as(k, f)
                } else {
                    final(self).runs_like(k, &*old(self), k)
                }),
    {
        proof {
            use_type_invariant(&*self);
        }
        match self.find_behavior(name) {
            None => Err(ColumnError::BehaviorNotFound { name: to_owned_string(name) }),
            Some(k) => {
                let boxed = boxed_behavior(f);
                let mut behaviors: Vec<(String, Box<dyn Behavior<T>>)> = Vec::new();
                std::mem::swap(&mut behaviors, &mut self.behaviors);
                let ghost before = behaviors@;
                let key = to_owned_string(name);
                assert(k < before.len());
                let entry = (key, boxed);
                assert(entry.0@ == name@);
                behaviors.set(k, entry);
                assert(behaviors@ == before.update(k as int, entry));
                assert(behaviors@[k as int].0@ == name@);
                assert(before[k as int].0@ == name@);
                assert(behaviors@.map_values(|e: (String, Box<dyn Behavior<T>>)| e.0@)
                    =~= before.map_values(|e: (String, Box<dyn Behavior<T>>)| e.0@));
                self.behaviors = behaviors;
                assert forall|j: int| 0 <= j < before.len() implies if old(self).spec_behaviors()[j]
                    == name@ {
                    self.runs_as(j, f)
                } else {
                    self.runs_like(j, &*old(self), j)
                } by {
                    if j != k {
                        assert(self.behaviors@[j] == old(self).behaviors@[j]);
                        assert(old(self).spec_behaviors()[j] == before[j].0@);
                        assert(old(self).spec_behaviors()[k as int] == before[k as int].0@);
                        assert(old(self).spec_behaviors().no_duplicates());
                    } else {
                        assert(self.runs_as(j, f));
                    }
                }
                Ok(concat3("Behavior '", name, "' updated."))
            },
        }
    }

    /// Removes the behavior registered under `name`. Fails if `name` is not
    /// registered.
    pub fn remove_behavior(&mut self, name: &str) -> (r: Result<String, ColumnError>)
        ensures
            !old(self).spec_behaviors().contains(name@) ==> (r matches Err(
                ColumnError::BehaviorNotFound { name: n },
            ) && n@ == name@ && *final(self) == *old(self)),
            old(self).spec_behaviors().contains(name@) ==> (r matches Ok(msg) && msg@
                == "Behavior '"@ + name@ + "' removed."@ && (exists|k: int|
                0 <= k < old(self).spec_behaviors().len() && old(self).spec_behaviors()[k]
                    == name@ && final(self).spec_behaviors() == old(self).spec_behaviors().remove(
                    k,
                ) && forall|j: int|
                    #![trigger final(self).spec_behaviors()[j]]
                    0 <= j < final(self).spec_behaviors().len() ==> final(self).runs_like(
                        j,
                        &*old(self),
                        if j < k {
                            j
                        } else {
                            j + 1
                        },
                    )) && !final(self).spec_behaviors().contains(name@) && final(self)@ == old(self)@
                && final(self).spec_name() == old(self).spec_name()),
    {
        proof {
            use_type_invariant(&*self);
        }
        match self.find_behavior(name) {
            None => Err(ColumnError::BehaviorNotFound { name: to_owned_string(name) }),
            Some(k) => {
                let ghost names = self.spec_behaviors();
                let mut behaviors: Vec<(String, Box<dyn Behavior<T>>)> = Vec::new();
                std::mem::swap(&mut behaviors, &mut self.behaviors);
                let ghost before = behaviors@;
                behaviors.remove(k);
                assert(behaviors@.map_values(|e: (String, Box<dyn Behavior<T>>)| e.0@)
                    =~= names.remove(k as int));
                assert forall|j: int|
                    0 <= j < names.len() - 1 implies names.remove(k as int)[j] != name@ by {
                    if j < k {
                        assert(names.remove(k as int)[j] == names[j]);
                    } else {
                        assert(names.remove(k as int)[j] == names[j + 1]);
                    }
                }
                self.behaviors = behaviors;
                assert forall|j: int|
                    #![trigger self.spec_behaviors()[j]]
                    0 <= j < self.spec_behaviors().len() implies self.runs_like(
                    j,
                    &*old(self),
                    if j < k {
                        j
                    } else {
                        j + 1
                    },
                ) by {
                    if j < k {
                        assert(self.behaviors@[j] == before[j]);
                    } else {
                        assert(self.behaviors@[j] == before[j + 1]);
                    }
                }
                Ok(concat3("Behavior '", name, "' removed."))
            },
        }
    }

    /// Runs the behavior registered under `name` against the column's cells,
    /// or returns `None` when no behavior is registered under that name.
    pub fn call_behavior(&self, name: &str) -> (r: Option<BehaviorResult>)
        ensures
            r is Some <==> self.spec_behaviors().contains(name@),
            forall|k: int|
                0 <= k < self.spec_behaviors().len() && #[trigger] self.spec_behaviors()[k]
                    == name@ ==> r == Some(self.spec_run_at(k, self@)),
    {
        proof {
            use_type_invariant(self);
        }
        match self.find_behavior(name) {
            Some(k) => Some(self.behaviors[k].1.run(&self.data)),
            None => None,
        }
    }

    /// Creates a new column from raw cells, parsing each present cell with
    /// `parse`. Missing cells stay missing. Fails with the text of the first
    /// present cell for which `parse` returns `None`.
    pub fn new_from_raw_with<F: Fn(&String) -> Option<T>>(
        raw: Vec<Option<String>>,
        name: String,
        parse: F,
    ) -> (r: Result<Self, ColumnError>)
        requires
            forall|s: &String| call_requires(parse, (s,)),
        ensures
            name_check(name@) matches Err(e) ==> r == Err::<Self, ColumnError>(e),
            name_check(name@) is Ok && r is Ok ==> (r matches Ok(c) && parsed_with(parse, raw@, c@)
                && c.spec_name() == name@ && c.spec_behaviors() == Seq::<Seq<char>>::empty()),
            name_check(name@) is Ok && r is Err ==> (r matches Err(ColumnError::ParseFailed { raw: text })
                && rejected_by(parse, raw@, text@)),
    {
        validate_name(name.as_str())?;
        match parse_raw_cells_with(&raw, &parse) {
            Err(text) => Err(ColumnError::ParseFailed { raw: text }),
            Ok(data) => {
                let c = Column { data, name, behaviors: Vec::new() };
                assert(c.spec_behaviors() =~= Seq::<Seq<char>>::empty());
                Ok(c)
            },
        }
    }

    /// The present values, in order.
    pub fn present_values(&self) -> (r: Vec<&T>)
        ensures
            r@.len() <= self@.len(),
            r@.map_values(|v: &T| Some(*v)) == self@.filter(|c: Option<T>| c is Some),
    {
        let mut out: Vec<&T> = Vec::new();
        let mut i: usize = 0;
        while i < self.data.len()
            invariant
                i <= self.data@.len(),
                out@.len() <= i,
                out@.map_values(|v: &T| Some(*v)) == self.data@.take(i as int).filter(
                    |c: Option<T>| c is Some,
                ),
            decreases self.data@.len() - i,
        {
            let ghost prev = out@;
            assert(self.data@.take(i as int + 1).drop_last() =~= self.data@.take(i as int));
            reveal_with_fuel(Seq::filter, 1);
            match &self.data[i] {
                Some(v) => {
                    out.push(v);
                    assert(out@.map_values(|v: &T| Some(*v)) =~= prev.map_values(
                        |v: &T| Some(*v),
                    ).push(self.data@[i as int]));
                },
                None => {},
            }
            i = i + 1;
        }
        assert(self.data@.take(i as int) =~= self.data@);
        out
    }
}

impl<T: CellValue> Column<T> {
    /// A new column holding copies of the cells at `indices`, in that order,
    /// under the same name and with no behaviors.
    pub fn select_rows(&self, indices: &[usize]) -> (r: Column<T>)
        requires
            all_below(indices@, self@.len()),
        ensures
            r@ == indices@.map_values(|i: usize| self@[i as int]),
            r.spec_name() == self.spec_name(),
            r.spec_behaviors() == Seq::<Seq<char>>::empty(),
    {
        proof {
            use_type_invariant(self);
        }
        let mut data: Vec<Option<T>> = Vec::new();
        let mut k: usize = 0;
        while k < indices.len()
            invariant
                k <= indices@.len(),
                all_below(indices@, self.data@.len()),
                data@ == indices@.take(k as int).map_values(|i: usize| self.data@[i as int]),
            decreases indices@.len() - k,
        {
            let cell = duplicate_cell(&self.data[indices[k]]);
            data.push(cell);
            assert(indices@.take(k as int + 1).map_values(|i: usize| self.data@[i as int])
                =~= indices@.take(k as int).map_values(|i: usize| self.data@[i as int]).push(cell));
            k = k + 1;
        }
        assert(indices@.take(k as int) =~= indices@);
        let c = Column { data, name: self.name.clone(), behaviors: Vec::new() };
        assert(c.spec_behaviors() =~= Seq::<Seq<char>>::empty());
        c
    }
}

impl<T: ParseCell> Column<T> {
    /// Like [`Column::new_from_raw`], reading the raw cells in place.
    pub(crate) fn new_from_raw_cells(raw: &Vec<Option<String>>, name: String) -> (r: Result<
        Self,
        ColumnError,
    >)
        ensures
            name_check(name@) matches Err(e) ==> r == Err::<Self, ColumnError>(e),
            name_check(name@) is Ok ==> match parse_cells::<T>(raw@) {
                Ok(cells) => r matches Ok(c) && view_cells(c@) == cells && c.spec_name() == name@
                    && c.spec_behaviors() == Seq::<Seq<char>>::empty(),
                Err(text) => r matches Err(ColumnError::ParseFailed { raw: bad }) && bad@ == text,
            },
    {
        validate_name(name.as_str())?;
        match parse_raw_cells::<T>(raw) {
            Err(text) => Err(ColumnError::ParseFailed { raw: text }),
            Ok(data) => {
                let c = Column { data, name, behaviors: Vec::new() };
                assert(c.spec_behaviors() =~= Seq::<Seq<char>>::empty());
                Ok(c)
            },
        }
    }

    /// Creates a new column from raw cells, parsing each present cell as a `T`.
    /// The name is checked first; then the first cell that does not parse, if
    /// any, is reported.
    pub fn new_from_raw(raw: Vec<Option<String>>, name: String) -> (r: Result<Self, ColumnError>)
        ensures
            name_check(name@) matches Err(e) ==> r == Err::<Self, ColumnError>(e),
            name_check(name@) is Ok ==> match parse_cells::<T>(raw@) {
                Ok(cells) => r matches Ok(c) && view_cells(c@) == cells && c.spec_name() == name@
                    && c.spec_behaviors() == Seq::<Seq<char>>::empty(),
                Err(text) => r matches Err(ColumnError::ParseFailed { raw: bad }) && bad@ == text,
            },
    {
        Self::new_from_raw_cells(&raw, name)
    }
}

/// Boxes a behavior for storage in a column's registry.
///
/// The call is `Box::new` with the coercion of the box to a trait object.
/// The contract states what dynamic dispatch gives: the boxed object computes
/// what `f` computes, on all cells.
#[verifier::external_body]
fn boxed_behavior<T, B: Behavior<T> + 'static>(f: B) -> (r: Box<dyn Behavior<T>>)
    ensures
        forall|data: Seq<Option<T>>| #[trigger] r.spec_run(data) == f.spec_run(data),
{
    return Box::new(f);
}

/// Checks `name` against the column-name rules.
fn validate_name(name: &str) -> (r: Result<(), ColumnError>)
    ensures
        r == name_check(name@),
{
    if name.is_empty() {
        return Err(ColumnError::EmptyName);
    }
    let chars_count: usize = name.unicode_len();
    if chars_count > MAX_NAME_LEN {
        return Err(ColumnError::NameTooLong { max: MAX_NAME_LEN, actual: chars_count });
    }
    Ok(())
}

/// A list of column positions, possibly paired with values.
trait Duplicates {
    spec fn positions(&self) -> Seq<usize>;

    fn check_duplicate(&self) -> (r: bool)
        ensures
            r == self.positions().no_duplicates(),
    ;
}

impl Duplicates for Vec<usize> {
    spec fn positions(&self) -> Seq<usize> {
        self@
    }

    fn check_duplicate(&self) -> (r: bool) {
        let mut seen: HashSet<usize> = HashSet::with_capacity(self.len());
        let mut i: usize = 0;
        while i < self.len()
            invariant
                i <= self@.len(),
                forall|x: usize| seen@.contains(x) <==> self@.take(i as int).contains(x),
                self@.take(i as int).no_duplicates(),
            decreases self@.len() - i,
        {
            let index = self[i];
            let ghost prefix = self@.take(i as int);
            assert(self@.take(i as int + 1) =~= prefix.push(index));
            if !seen.insert(index) {
                let ghost j = choose|j: int| 0 <= j < prefix.len() && prefix[j] == index;
                assert(self@[j] == self@[i as int]);
                return false;
            }
            proof {
                broadcast use vstd::seq_lib::lemma_seq_contains_after_push;
            }
            i = i + 1;
        }
        assert(self@.take(i as int) =~= self@);
        true
    }
}

impl<T> Duplicates for Vec<(usize, Option<T>)> {
    spec fn positions(&self) -> Seq<usize> {
        update_positions(self@)
    }

    fn check_duplicate(&self) -> (r: bool) {
        let ghost ps = update_positions(self@);
        let mut seen: HashSet<usize> = HashSet::with_capacity(self.len());
        let mut i: usize = 0;
        while i < self.len()
            invariant
                i <= self@.len(),
                ps == update_positions(self@),
                forall|x: usize| seen@.contains(x) <==> ps.take(i as int).contains(x),
                ps.take(i as int).no_duplicates(),
            decreases self@.len() - i,
        {
            let index = self[i].0;
            let ghost prefix = ps.take(i as int);
            assert(ps[i as int] == index);
            assert(ps.take(i as int + 1) =~= prefix.push(index));
            if !seen.insert(index) {
                let ghost j = choose|j: int| 0 <= j < prefix.len() && prefix[j] == index;
                assert(ps[j] == ps[i as int]);
                return false;
            }
            proof {
                broadcast use vstd::seq_lib::lemma_seq_contains_after_push;
            }
            i = i + 1;
        }
        assert(ps.take(i as int) =~= ps);
        true
    }
}

/// Whether no position occurs twice.
fn check_duplicate_indices<D: Duplicates>(index_element_pairs: &D) -> (r: bool)
    ensures
        r == index_element_pairs.positions().no_duplicates(),
{
    index_element_pairs.check_duplicate()
}

/// A list of column positions, possibly paired with values.
trait Limits {
    spec fn listed(&self) -> Seq<usize>;

    fn check_limits(&self, column_len: usize) -> (r: bool)
        ensures
            r == all_below(self.listed(), column_len as nat),
    ;
}

impl Limits for Vec<usize> {
    spec fn listed(&self) -> Seq<usize> {
        self@
    }

    fn check_limits(&self, column_len: usize) -> (r: bool) {
        let mut i: usize = 0;
        while i < self.len()
            invariant
                i <= self@.len(),
                forall|k: int| 0 <= k < i ==> self@[k] < column_len,
            decreases self@.len() - i,
        {
            if self[i] >= column_len {
                return false;
            }
            i = i + 1;
        }
        true
    }
}

impl<T> Limits for Vec<(usize, Option<T>)> {
    spec fn listed(&self) -> Seq<usize> {
        update_positions(self@)
    }

    fn check_limits(&self, column_len: usize) -> (r: bool) {
        let mut i: usize = 0;
        while i < self.len()
            invariant
                i <= self@.len(),
                forall|k: int| 0 <= k < i ==> update_positions(self@)[k] < column_len,
            decreases self@.len() - i,
        {
            if self[i].0 >= column_len {
                assert(update_positions(self@)[i as int] == self@[i as int].0);
                return false;
            }
            i = i + 1;
        }
        true
    }
}

/// Whether every listed position is below `column_len`.
fn check_len_limit<L: Limits>(index_element_pairs: &L, column_len: usize) -> (r: bool)
    ensures
        r == all_below(index_element_pairs.listed(), column_len as nat),
{
    index_element_pairs.check_limits(column_len)
}

} // verus!
