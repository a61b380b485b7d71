mod drift;
mod snapshot;

use std::time::SystemTime;
use vstd::prelude::*;

use crate::clock::now;
use crate::keyed::{distinct_keys, has_key, index_of_key, lemma_index_of_key, value_of_key};
use crate::models::table::{ColumnData, TableError};
use crate::text::to_owned_string;
pub use drift::{numeric_values_of, present_cells};
pub use snapshot::{
    compute_snapshot_id, entry_bytes, find_snapshot, first_repeat, hex_char, hex_digest, hex_of, label_view,
    lemma_snapshot_message_injective, rebuilt_column, repeats_earlier, sha256, snapshot_id_of,
    snapshot_message, with_snapshot, Snapshot, SnapshotId,
};

verus! {

/// The smallest allowed cap on the number of versions kept per feature: the
/// first version and at least one more recent one.
pub const MIN_MAX_VERSIONS: usize = 2;

/// Errors that can occur while creating or using a [`FeatureStore`].
#[derive(Debug)]
pub enum FeatureStoreError {
    /// The cap on versions per feature is below `min`.
    MaxVersionsTooLow { min: usize, actual: usize },
    /// Raw cells carry no name to commit under.
    RawColumnExists,
    /// The feature has no version with this number (never committed, or pruned).
    VersionNotFound { name: String, version: usize },
    /// The feature was never committed.
    FeatureNotFound { name: String },
    /// No snapshot has this identifier.
    SnapshotNotFound { id: SnapshotId },
    /// A snapshot may name each feature only once.
    DuplicateFeatureInSnapshot { name: String },
    /// A reconstructed column could not be added to the new table.
    TableBuildFailed(TableError),
    /// Drift is only measured on integer, float and boolean features.
    NonNumericFeature { name: String },
    /// The version has no present value.
    AllValuesMissing { name: String, version: usize },
}

/// What was done to produce a committed version, as told by the caller.
pub enum Transformation {
    FillWith,
    FillMean,
    ForwardFill,
    BackwardFill,
    MinMaxScale,
    ZScoreStandardization,
    /// Any other transformation.
    Custom(String),
}

/// One committed, immutable version of a feature.
pub struct ColumnVersion {
    data: ColumnData,
    version_number: usize,
    name: String,
    transformation: Transformation,
    timestamp: SystemTime,
}

impl ColumnVersion {
    /// The committed data.
    pub closed spec fn spec_data(&self) -> ColumnData {
        self.data
    }

    /// The version's number.
    pub closed spec fn spec_number(&self) -> usize {
        self.version_number
    }

    /// The feature's name.
    pub closed spec fn spec_name(&self) -> Seq<char> {
        self.name@
    }

    /// The transformation recorded with the version.
    pub closed spec fn spec_transformation(&self) -> Transformation {
        self.transformation
    }

    /// The time recorded when the version was committed.
    pub closed spec fn spec_timestamp(&self) -> SystemTime {
        self.timestamp
    }

    /// The version's number.
    pub fn version_number(&self) -> (r: usize)
        ensures
            r == self.spec_number(),
    {
        self.version_number
    }

    /// The feature's name.
    pub fn name(&self) -> (r: &str)
        ensures
            r@ == self.spec_name(),
    {
        self.name.as_str()
    }

    /// The committed data.
    pub fn data(&self) -> (r: &ColumnData)
        ensures
            *r == self.spec_data(),
    {
        &self.data
    }

    /// The transformation recorded with the version.
    pub fn transformation(&self) -> (r: &Transformation)
        ensures
            *r == self.spec_transformation(),
    {
        &self.transformation
    }

    /// When the version was committed.
    pub fn timestamp(&self) -> (r: SystemTime)
        ensures
            r == self.spec_timestamp(),
    {
        self.timestamp
    }
}

/// A feature's history as the store keeps it: between one and `max` versions,
/// numbered upwards from 1, all of the feature `name`, and none of raw cells.
pub open spec fn valid_history(name: Seq<char>, history: Seq<ColumnVersion>, max: nat) -> bool {
    &&& 0 < history.len() <= max
    &&& history[0].spec_number() == 1
    &&& forall|i: int, j: int|
        0 <= i < j < history.len() ==> #[trigger] history[i].spec_number()
            < #[trigger] history[j].spec_number()
    &&& forall|k: int|
        0 <= k < history.len() ==> #[trigger] history[k].spec_name() == name
            && history[k].spec_data().spec_name() == Some(name)
}

/// The first version of `history` numbered `version`, if any.
pub open spec fn find_version(history: Seq<ColumnVersion>, version: usize) -> Option<ColumnVersion>
    decreases history.len(),
{
    if history.len() == 0 {
        None
    } else if history[0].spec_number() == version {
        Some(history[0])
    } else {
        find_version(history.drop_first(), version)
    }
}

/// `versions` with the oldest version after the first dropped when there are
/// more than `max`.
pub open spec fn pruned(versions: Seq<ColumnVersion>, max: nat) -> Seq<ColumnVersion> {
    if versions.len() > max {
        versions.remove(1)
    } else {
        versions
    }
}

/// Appending a new version, one past the last, to a valid (or empty)
/// history and pruning it keeps it valid, with the new version last.
proof fn lemma_pruned_valid(
    name: Seq<char>,
    history: Seq<ColumnVersion>,
    added: ColumnVersion,
    max: nat,
)
    requires
        max >= MIN_MAX_VERSIONS,
        history.len() == 0 || valid_history(name, history, max),
        history.len() == 0 ==> added.spec_number() == 1,
        history.len() > 0 ==> added.spec_number() == history.last().spec_number() + 1,
        added.spec_name() == name,
        added.spec_data().spec_name() == Some(name),
    ensures
        valid_history(name, pruned(history.push(added), max), max),
        pruned(history.push(added), max).last() == added,
{
    let p = history.push(added);
    assert forall|k: int| 0 <= k < p.len() implies (#[trigger] p[k].spec_name() == name
        && p[k].spec_data().spec_name() == Some(name)) by {
        if k < history.len() {
            assert(p[k] == history[k]);
        }
    }
    assert(p[0].spec_number() == 1) by {
        if history.len() > 0 {
            assert(p[0] == history[0]);
        }
    }
    assert forall|i: int, j: int| 0 <= i < j < p.len() implies #[trigger] p[i].spec_number()
        < #[trigger] p[j].spec_number() by {
        if j == history.len() {
            if i < history.len() - 1 {
                assert(history[i].spec_number() < history[history.len() - 1].spec_number());
            }
        }
    }
    if p.len() > max {
        let q = p.remove(1);
        assert forall|i: int, j: int| 0 <= i < j < q.len() implies #[trigger] q[i].spec_number()
            < #[trigger] q[j].spec_number() by {
            let i2 = if i < 1 { i } else { i + 1 };
            let j2 = if j < 1 { j } else { j + 1 };
            assert(q[i] == p[i2]);
            assert(q[j] == p[j2]);
        }
        assert forall|k: int| 0 <= k < q.len() implies (#[trigger] q[k].spec_name() == name
            && q[k].spec_data().spec_name() == Some(name)) by {
            let k2 = if k < 1 { k } else { k + 1 };
            assert(q[k] == p[k2]);
            assert(0 <= k2 < p.len());
            assert(p[k2].spec_name() == name);
            assert(p[k2].spec_data().spec_name() == Some(name));
        }
        assert(q[0] == p[0]);
        assert(q.last() == p.last());
        assert(valid_history(name, q, max));
    } else {
        assert(valid_history(name, p, max));
    }
}

/// A version store for features (columns), with content-addressed snapshots
/// of feature combinations.
pub struct FeatureStore {
    versions: Vec<(String, Vec<ColumnVersion>)>,
    max_versions: usize,
    snapshots: Vec<Snapshot>,
}

impl FeatureStore {
    /// Each committed feature with its history, in order of first commit.
    pub closed spec fn spec_histories(&self) -> Seq<(Seq<char>, Seq<ColumnVersion>)> {
        self.versions@.map_values(|e: (String, Vec<ColumnVersion>)| (e.0@, e.1@))
    }

    /// The cap on versions kept per feature.
    pub closed spec fn spec_max_versions(&self) -> nat {
        self.max_versions as nat
    }

    /// The snapshots, in order of first creation.
    pub closed spec fn spec_snapshots(&self) -> Seq<Snapshot> {
        self.snapshots@
    }

    /// The store's internal consistency.
    pub open spec fn wf(&self) -> bool {
        &&& self.spec_max_versions() >= MIN_MAX_VERSIONS
        &&& distinct_keys(self.spec_histories())
        &&& forall|k: int|
            0 <= k < self.spec_histories().len() ==> valid_history(
                #[trigger] self.spec_histories()[k].0,
                self.spec_histories()[k].1,
                self.spec_max_versions(),
            )
        &&& forall|i: int, j: int|
            0 <= i < j < self.spec_snapshots().len() ==> #[trigger] self.spec_snapshots()[i].spec_id()
                != #[trigger] self.spec_snapshots()[j].spec_id()
        &&& forall|i: int|
            0 <= i < self.spec_snapshots().len() ==> #[trigger] self.spec_snapshots()[i].names_distinct()
    }

    /// Whether the feature `name` was ever committed.
    pub open spec fn has_feature(&self, name: Seq<char>) -> bool {
        has_key(self.spec_histories(), name)
    }

    /// The history of the feature `name`: empty when it was never committed.
    pub open spec fn history(&self, name: Seq<char>) -> Seq<ColumnVersion> {
        if self.has_feature(name) {
            value_of_key(self.spec_histories(), name)
        } else {
            Seq::empty()
        }
    }

    /// The highest version number of the feature `name`, or 0.
    pub open spec fn latest_number(&self, name: Seq<char>) -> nat {
        if self.history(name).len() == 0 {
            0
        } else {
            self.history(name).last().spec_number() as nat
        }
    }

    /// Creates an empty store that keeps at most `max_versions` versions of
    /// each feature. Fails when `max_versions` is below 2.
    pub fn new(max_versions: usize) -> (r: Result<FeatureStore, FeatureStoreError>)
        ensures
            max_versions < MIN_MAX_VERSIONS ==> (r matches Err(
                FeatureStoreError::MaxVersionsTooLow { min, actual },
            ) && min == MIN_MAX_VERSIONS && actual == max_versions),
            max_versions >= MIN_MAX_VERSIONS ==> (r matches Ok(s) && s.wf()
                && s.spec_max_versions() == max_versions && s.spec_histories().len() == 0
                && s.spec_snapshots().len() == 0),
    {
        if max_versions < MIN_MAX_VERSIONS {
            return Err(
                FeatureStoreError::MaxVersionsTooLow { min: MIN_MAX_VERSIONS, actual: max_versions },
            );
        }
        let s = FeatureStore { versions: Vec::new(), max_versions, snapshots: Vec::new() };
        assert(s.spec_histories() =~= Seq::<(Seq<char>, Seq<ColumnVersion>)>::empty());
        Ok(s)
    }

    /// The cap on versions kept per feature.
    pub fn max_versions(&self) -> (r: usize)
        ensures
            r == self.spec_max_versions(),
    {
        self.max_versions
    }

    /// The number of features ever committed.
    pub fn feature_count(&self) -> (r: usize)
        ensures
            r == self.spec_histories().len(),
    {
        self.versions.len()
    }

    /// The number of snapshots.
    pub fn snapshot_count(&self) -> (r: usize)
        ensures
            r == self.spec_snapshots().len(),
    {
        self.snapshots.len()
    }

    /// The versions kept of the feature `name`, oldest first, or `None` when
    /// it was never committed.
    pub fn versions_of(&self, name: &str) -> (r: Option<&Vec<ColumnVersion>>)
        requires
            self.wf(),
        ensures
            self.has_feature(name@) ==> (r matches Some(v) && v@ == self.history(name@)),
            !self.has_feature(name@) ==> r is None,
    {
        match crate::keyed::find_key(&self.versions, name) {
            Some(k) => {
                proof {
                    self.lemma_entry(k as int);
                }
                Some(&self.versions[k].1)
            },
            None => {
                proof {
                    self.lemma_no_entry(name@);
                }
                None
            },
        }
    }

    /// The entry at position `k` is the feature's history.
    proof fn lemma_entry(&self, k: int)
        requires
            self.wf(),
            0 <= k < self.versions@.len(),
        ensures
            self.spec_histories()[k].0 == self.versions@[k].0@,
            self.spec_histories()[k].1 == self.versions@[k].1@,
            self.has_feature(self.versions@[k].0@),
            self.history(self.versions@[k].0@) == self.versions@[k].1@,
            valid_history(self.versions@[k].0@, self.versions@[k].1@, self.spec_max_versions()),
    {
        lemma_index_of_key(self.spec_histories(), self.versions@[k].0@, k);
    }

    /// A name that no entry holds has no history.
    proof fn lemma_no_entry(&self, name: Seq<char>)
        requires
            forall|j: int|
                0 <= j < self.versions@.len() ==> crate::keyed::entries_view(self.versions@)[j].0
                    != name,
        ensures
            !self.has_feature(name),
    {
        if self.has_feature(name) {
            let j = choose|j: int|
                0 <= j < self.spec_histories().len() && #[trigger] self.spec_histories()[j].0
                    == name;
            assert(crate::keyed::entries_view(self.versions@)[j].0 == name);
        }
    }

    /// Records `data` as a new version of the feature named by the column
    /// itself, with `transformation` and the current time, and returns the new
    /// version's number: one more than the feature's highest, starting at 1.
    /// When the feature then has more than the cap of versions, the oldest one
    /// after the first is dropped. Raw cells carry no name and are refused.
    pub fn commit(&mut self, data: ColumnData, transformation: Transformation) -> (r: Result<
        usize,
        FeatureStoreError,
    >)
        requires
            old(self).wf(),
            data.spec_name() matches Some(n) ==> old(self).latest_number(n) < usize::MAX,
        ensures
            final(self).wf(),
            match data.spec_name() {
                None => r matches Err(FeatureStoreError::RawColumnExists) && *final(self) == *old(
                    self,
                ),
                Some(n) => {
                    let number = old(self).latest_number(n) + 1;
                    let added = final(self).history(n).last();
                    &&& r == Ok::<usize, FeatureStoreError>(number as usize)
                    &&& final(self).has_feature(n)
                    &&& added.spec_number() == number
                    &&& added.spec_name() == n
                    &&& added.spec_data() == data
                    &&& added.spec_transformation() == transformation
                    &&& final(self).history(n) == pruned(
                        old(self).history(n).push(added),
                        old(self).spec_max_versions(),
                    )
                    &&& forall|other: Seq<char>|
                        other != n ==> (final(self).has_feature(other) == old(self).has_feature(
                            other,
                        ) && final(self).history(other) == old(self).history(other))
                    &&& final(self).spec_max_versions() == old(self).spec_max_versions()
                    &&& final(self).spec_snapshots() == old(self).spec_snapshots()
                },
            },
    {
        let name: String = match data.extract_name() {
            Some(n) => to_owned_string(n),
            None => {
                return Err(FeatureStoreError::RawColumnExists);
            },
        };
        let ghost n = name@;
        let ghost before = *self;
        let k: usize = match crate::keyed::find_key(&self.versions, name.as_str()) {
            Some(k) => {
                proof {
                    self.lemma_entry(k as int);
                }
                k
            },
            None => {
                proof {
                    self.lemma_no_entry(n);
                    crate::keyed::lemma_push_entry(
                        before.spec_histories(),
                        n,
                        Seq::<ColumnVersion>::empty(),
                    );
                }
                self.versions.push((to_owned_string(name.as_str()), Vec::new()));
                assert(self.spec_histories() =~= before.spec_histories().push(
                    (n, Seq::<ColumnVersion>::empty()),
                ));
                (self.versions.len() - 1) as usize
            },
        };
        let ghost mid = *self;
        let ghost history = self.versions@[k as int].1@;
        let ghost max = self.spec_max_versions();
        assert(mid.spec_histories()[k as int] == (n, history));
        proof {
            lemma_index_of_key(mid.spec_histories(), n, k as int);
        }
        assert(history == before.history(n));
        assert(history.len() == 0 || valid_history(n, history, max));
        let mut max_version: usize = 0;
        let mut i: usize = 0;
        while i < self.versions[k].1.len()
            invariant
                k < self.versions@.len(),
                self.versions@[k as int].1@ == history,
                i <= history.len(),
                i == 0 ==> max_version == 0,
                i > 0 ==> max_version == history[i - 1].spec_number(),
                history.len() > 0 ==> history[0].spec_number() == 1,
                forall|a: int, b: int|
                    0 <= a < b < history.len() ==> #[trigger] history[a].spec_number()
                        < #[trigger] history[b].spec_number(),
            decreases history.len() - i,
        {
            let v = self.versions[k].1[i].version_number;
            if v > max_version {
                max_version = v;
            }
            i = i + 1;
        }
        assert(max_version == before.latest_number(n));
        let number = max_version + 1;
        let version = ColumnVersion {
            data,
            version_number: number,
            name,
            transformation,
            timestamp: now(),
        };
        let ghost added = version;
        let mut kept: Vec<ColumnVersion> = Vec::new();
        std::mem::swap(&mut kept, &mut self.versions[k].1);
        kept.push(version);
        if kept.len() > self.max_versions {
            kept.remove(1);
        }
        let ghost new_hist = kept@;
        assert(new_hist == pruned(history.push(added), max));
        proof {
            lemma_pruned_valid(n, history, added, max);
            crate::keyed::lemma_update_entry(mid.spec_histories(), k as int, new_hist);
        }
        std::mem::swap(&mut kept, &mut self.versions[k].1);
        assert(self.versions@[k as int].0 == mid.versions@[k as int].0);
        assert(self.versions@[k as int].1@ == new_hist);
        assert(forall|j: int| 0 <= j < self.versions@.len() && j != k ==> self.versions@[j] == mid.versions@[j]);
        assert(self.spec_histories() =~= mid.spec_histories().update(k as int, (n, new_hist)));
        proof {
            let h = self.spec_histories();
            lemma_index_of_key(h, n, k as int);
            assert forall|j: int| 0 <= j < h.len() implies valid_history(
                #[trigger] h[j].0,
                h[j].1,
                max,
            ) by {
                if j != k {
                    assert(h[j] == mid.spec_histories()[j]);
                    if j < before.spec_histories().len() {
                        assert(mid.spec_histories()[j] == before.spec_histories()[j]);
                    }
                }
            }
            assert forall|other: Seq<char>| other != n implies (self.has_feature(other)
                == before.has_feature(other) && self.history(other) == before.history(other)) by {
                assert(self.has_feature(other) == mid.has_feature(other));
                if mid.has_feature(other) {
                    assert(self.history(other) == mid.history(other));
                }
            }
        }
        assert(self.spec_snapshots() == before.spec_snapshots());
        assert(self.spec_max_versions() == before.spec_max_versions());
        assert(distinct_keys(self.spec_histories()));
        Ok(number)
    }

    /// The version numbered `version` of the feature `name`. Fails when the
    /// feature was never committed or has no such version (never made, or
    /// pruned).
    pub fn get_version(&self, name: &str, version: usize) -> (r: Result<
        &ColumnVersion,
        FeatureStoreError,
    >)
        requires
            self.wf(),
        ensures
            match find_version(self.history(name@), version) {
                Some(v) => r matches Ok(x) && *x == v,
                None => r matches Err(FeatureStoreError::VersionNotFound { name: n, version: w })
                    && n@ == name@ && w == version,
            },
    {
        match crate::keyed::find_key(&self.versions, name) {
            None => {
                proof {
                    self.lemma_no_entry(name@);
                }
                Err(FeatureStoreError::VersionNotFound { name: to_owned_string(name), version })
            },
            Some(k) => {
                proof {
                    self.lemma_entry(k as int);
                }
                let versions = &self.versions[k].1;
                let ghost h = versions@;
                assert(crate::keyed::entries_view(self.versions@)[k as int].0 == self.versions@[k as int].0@);
                assert(h == self.history(name@));
                let mut i: usize = 0;
                assert(h.skip(0) =~= h);
                while i < versions.len()
                    invariant
                        h == versions@,
                        h == self.history(name@),
                        i <= h.len(),
                        find_version(h, version) == find_version(h.skip(i as int), version),
                    decreases h.len() - i,
                {
                    assert(h.skip(i as int)[0] == h[i as int]);
                    assert(h.skip(i as int).drop_first() =~= h.skip(i as int + 1));
                    if versions[i].version_number == version {
                        assert(find_version(h.skip(i as int), version) == Some(h[i as int]));
                        assert(find_version(self.history(name@), version) == Some(h[i as int]));
                        return Ok(&versions[i]);
                    }
                    i = i + 1;
                }
                assert(h.skip(i as int) =~= Seq::<ColumnVersion>::empty());
                Err(FeatureStoreError::VersionNotFound { name: to_owned_string(name), version })
            },
        }
    }

    /// The most recent version of the feature `name`: the one with the highest
    /// number. Fails when the feature was never committed.
    pub fn get_latest_version(&self, name: &str) -> (r: Result<&ColumnVersion, FeatureStoreError>)
        requires
            self.wf(),
        ensures
            self.has_feature(name@) ==> (r matches Ok(x) && *x == self.history(name@).last()),
            !self.has_feature(name@) ==> (r matches Err(FeatureStoreError::FeatureNotFound { name: n })
                && n@ == name@),
    {
        let versions = match self.versions_of(name) {
            Some(versions) => versions,
            None => {
                return Err(FeatureStoreError::FeatureNotFound { name: to_owned_string(name) });
            },
        };
        let ghost h = versions@;
        proof {
            let k = index_of_key(self.spec_histories(), name@);
            assert(valid_history(self.spec_histories()[k].0, self.spec_histories()[k].1, self.spec_max_versions()));
        }
        let mut max_version: usize = 0;
        let mut i: usize = 0;
        while i < versions.len()
            invariant
                h == versions@,
                i <= h.len(),
                i == 0 ==> max_version == 0,
                i > 0 ==> max_version == h[i - 1].spec_number(),
                forall|a: int, b: int|
                    0 <= a < b < h.len() ==> #[trigger] h[a].spec_number()
                        < #[trigger] h[b].spec_number(),
            decreases h.len() - i,
        {
            let v = versions[i].version_number;
            if v > max_version {
                max_version = v;
            }
            i = i + 1;
        }
        proof {
            lemma_find_last(h);
        }
        self.get_version(name, max_version)
    }
}

/// In a history numbered strictly upwards, the version found under the last
/// number is the last one.
pub(crate) proof fn lemma_find_last(history: Seq<ColumnVersion>)
    requires
        history.len() > 0,
        forall|a: int, b: int|
            0 <= a < b < history.len() ==> #[trigger] history[a].spec_number()
                < #[trigger] history[b].spec_number(),
    ensures
        find_version(history, history.last().spec_number()) == Some(history.last()),
    decreases history.len(),
{
    if history.len() > 1 {
        let rest = history.drop_first();
        assert(history[0].spec_number() < history[history.len() - 1].spec_number());
        assert forall|a: int, b: int| 0 <= a < b < rest.len() implies #[trigger] rest[a].spec_number()
            < #[trigger] rest[b].spec_number() by {
            assert(rest[a] == history[a + 1]);
            assert(rest[b] == history[b + 1]);
        }
        assert(rest.last() == history.last());
        lemma_find_last(rest);
    }
}

} // verus!
