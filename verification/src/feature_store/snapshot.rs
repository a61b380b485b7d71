use sha2::{Digest, Sha256};
use std::time::SystemTime;
use vstd::bytes::{lemma_auto_spec_u64_to_from_le_bytes, spec_u64_to_le_bytes, u64_to_le_bytes};
use vstd::prelude::*;
use vstd::string::{StrSliceExecFns, StringSliceAdditionalSpecFns};
use vstd::utf8::encode_utf8;

use super::{find_version, valid_history, ColumnVersion, FeatureStore, FeatureStoreError};
use crate::keyed::has_key;
use crate::models::table::{row_positions, rows_selected, ColumnData, ColumnState, Table, TableError};
use crate::clock::now;
use crate::keyed::{distinct_keys, entries_view};
use crate::text::str_eq;

verus! {

/// A content-addressed snapshot identifier: the lowercase hex SHA-256 digest
/// of the snapshot's `(name, version)` pairs, in order.
#[derive(Debug, Clone, PartialEq, Eq, Hash)]
pub struct SnapshotId(pub String);

/// An ordered combination of feature versions, as pinned by
/// [`FeatureStore::create_snapshot`].
pub struct Snapshot {
    id: SnapshotId,
    ordered_features: Vec<(String, usize)>,
    timestamp: SystemTime,
    label: Option<String>,
}

/// The view of an optional string.
pub open spec fn label_view(label: Option<String>) -> Option<Seq<char>> {
    match label {
        Some(s) => Some(s@),
        None => None,
    }
}

impl Snapshot {
    /// The identifier's text.
    pub closed spec fn spec_id(&self) -> Seq<char> {
        self.id.0@
    }

    /// The `(name, version)` pairs, in the order given at creation.
    pub closed spec fn spec_features(&self) -> Seq<(Seq<char>, usize)> {
        entries_view(self.ordered_features@)
    }

    /// The label given at creation.
    pub closed spec fn spec_label(&self) -> Option<Seq<char>> {
        label_view(self.label)
    }

    /// The time recorded when the snapshot was created.
    pub closed spec fn spec_timestamp(&self) -> SystemTime {
        self.timestamp
    }

    /// No feature is named twice.
    pub open spec fn names_distinct(&self) -> bool {
        distinct_keys(self.spec_features())
    }

    /// This snapshot's identifier.
    pub fn id(&self) -> (r: &SnapshotId)
        ensures
            r.0@ == self.spec_id(),
    {
        &self.id
    }

    /// The `(name, version)` pairs, in the order given at creation.
    pub fn ordered_features(&self) -> (r: &[(String, usize)])
        ensures
            entries_view(r@) == self.spec_features(),
    {
        self.ordered_features.as_slice()
    }

    /// When the snapshot was created.
    pub fn timestamp(&self) -> (r: SystemTime)
        ensures
            r == self.spec_timestamp(),
    {
        self.timestamp
    }

    /// The label given at creation, if any.
    pub fn label(&self) -> (r: Option<&str>)
        ensures
            match self.spec_label() {
                Some(l) => r matches Some(s) && s@ == l,
                None => r is None,
            },
    {
        match &self.label {
            Some(l) => Some(l.as_str()),
            None => None,
        }
    }
}

/// The bytes hashed for one `(name, version)` pair: the length in bytes of the
/// UTF-8 name as a little-endian `u64`, the name's UTF-8 bytes, and the
/// version as a little-endian `u64`.
pub open spec fn entry_bytes(name: Seq<char>, version: usize) -> Seq<u8> {
    spec_u64_to_le_bytes(encode_utf8(name).len() as u64) + encode_utf8(name)
        + spec_u64_to_le_bytes(version as u64)
}

/// The bytes hashed for a list of pairs: each pair's bytes, in order.
pub open spec fn snapshot_message(features: Seq<(Seq<char>, usize)>) -> Seq<u8>
    decreases features.len(),
{
    if features.len() == 0 {
        Seq::empty()
    } else {
        entry_bytes(features[0].0, features[0].1) + snapshot_message(features.drop_first())
    }
}

/// The SHA-256 digest of `message`, as computed by `sha2`'s `Sha256`.
pub uninterp spec fn sha256(message: Seq<u8>) -> Seq<u8>;

/// The lowercase hexadecimal digit for `d`, below 16.
pub open spec fn hex_char(d: int) -> char {
    "0123456789abcdef"@[d]
}

/// Two lowercase hexadecimal digits per byte, high digit first.
pub open spec fn hex_of(bytes: Seq<u8>) -> Seq<char>
    decreases bytes.len(),
{
    if bytes.len() == 0 {
        Seq::empty()
    } else {
        hex_of(bytes.drop_last()).push(hex_char(bytes.last() as int / 16)).push(
            hex_char(bytes.last() as int % 16),
        )
    }
}

/// The identifier text of a snapshot of `features`.
pub open spec fn snapshot_id_of(features: Seq<(Seq<char>, usize)>) -> Seq<char> {
    hex_of(sha256(snapshot_message(features)))
}

/// The SHA-256 digest of `message`, from `sha2`'s `Sha256::digest`. The
/// contract names the digest and states its length, 32 bytes, which the
/// output type of `Sha256` fixes.
#[verifier::external_body]
fn sha256_digest(message: &[u8]) -> (r: Vec<u8>)
    ensures
        r@ == sha256(message@),
        r@.len() == 32,
{
    Sha256::digest(message).to_vec()
}

/// The message of a list extended by one pair is the old message followed by
/// that pair's bytes.
proof fn lemma_message_push(features: Seq<(Seq<char>, usize)>, name: Seq<char>, version: usize)
    ensures
        snapshot_message(features.push((name, version))) == snapshot_message(features)
            + entry_bytes(name, version),
    decreases features.len(),
{
    let p = features.push((name, version));
    if features.len() == 0 {
        assert(p.drop_first() =~= Seq::<(Seq<char>, usize)>::empty());
        assert(p[0] == (name, version));
        assert(snapshot_message(p.drop_first()) == Seq::<u8>::empty());
        assert(snapshot_message(p) =~= entry_bytes(name, version));
    } else {
        assert(p.drop_first() =~= features.drop_first().push((name, version)));
        lemma_message_push(features.drop_first(), name, version);
        assert(snapshot_message(p) =~= snapshot_message(features) + entry_bytes(name, version));
    }
}

/// The bytes of one pair: eight length bytes, the name, eight version bytes.
proof fn lemma_entry_bytes(name: Seq<char>, version: usize)
    ensures
        entry_bytes(name, version).len() == encode_utf8(name).len() + 16,
        entry_bytes(name, version).subrange(0, 8) == spec_u64_to_le_bytes(
            encode_utf8(name).len() as u64,
        ),
        entry_bytes(name, version).subrange(8, 8 + encode_utf8(name).len() as int) == encode_utf8(
            name,
        ),
        entry_bytes(name, version).subrange(
            8 + encode_utf8(name).len() as int,
            16 + encode_utf8(name).len() as int,
        ) == spec_u64_to_le_bytes(version as u64),
{
    lemma_auto_spec_u64_to_from_le_bytes();
    let e = entry_bytes(name, version);
    let u = encode_utf8(name);
    let l = spec_u64_to_le_bytes(u.len() as u64);
    let v = spec_u64_to_le_bytes(version as u64);
    assert(e.subrange(0, 8) =~= l);
    assert(e.subrange(8, 8 + u.len() as int) =~= u);
    assert(e.subrange(8 + u.len() as int, 16 + u.len() as int) =~= v);
}

/// The message of a list of pairs determines the list: two lists hashed from
/// the same bytes hold the same names and versions in the same order. (Names
/// whose UTF-8 form has more than `u64::MAX` bytes cannot occur in memory.)
pub proof fn lemma_snapshot_message_injective(
    a: Seq<(Seq<char>, usize)>,
    b: Seq<(Seq<char>, usize)>,
)
    requires
        snapshot_message(a) == snapshot_message(b),
        forall|k: int| 0 <= k < a.len() ==> encode_utf8(#[trigger] a[k].0).len() <= u64::MAX,
        forall|k: int| 0 <= k < b.len() ==> encode_utf8(#[trigger] b[k].0).len() <= u64::MAX,
    ensures
        a == b,
    decreases a.len(),
{
    lemma_auto_spec_u64_to_from_le_bytes();
    if a.len() == 0 {
        assert(snapshot_message(a).len() == 0);
        if b.len() > 0 {
            lemma_entry_bytes(b[0].0, b[0].1);
            assert(snapshot_message(b) == entry_bytes(b[0].0, b[0].1) + snapshot_message(
                b.drop_first(),
            ));
            assert(snapshot_message(b).len() >= 16);
        }
        assert(a =~= b);
    } else if b.len() == 0 {
        assert(snapshot_message(b).len() == 0);
        lemma_entry_bytes(a[0].0, a[0].1);
        assert(snapshot_message(a) == entry_bytes(a[0].0, a[0].1) + snapshot_message(
            a.drop_first(),
        ));
        assert(snapshot_message(a).len() >= 16);
    } else {
        let m = snapshot_message(a);
        let ua = encode_utf8(a[0].0);
        let ub = encode_utf8(b[0].0);
        let ra = snapshot_message(a.drop_first());
        let rb = snapshot_message(b.drop_first());
        let ea = entry_bytes(a[0].0, a[0].1);
        let eb = entry_bytes(b[0].0, b[0].1);
        lemma_entry_bytes(a[0].0, a[0].1);
        lemma_entry_bytes(b[0].0, b[0].1);
        assert(m == ea + ra);
        assert(m == eb + rb);
        assert(m.subrange(0, 8) =~= ea.subrange(0, 8));
        assert(m.subrange(0, 8) =~= eb.subrange(0, 8));
        assert(ua.len() as u64 == ub.len() as u64);
        assert(ua.len() == ub.len());
        let n = ua.len() as int;
        assert(m.subrange(8, 8 + n) =~= ea.subrange(8, 8 + n));
        assert(m.subrange(8, 8 + n) =~= eb.subrange(8, 8 + n));
        assert(ua == ub);
        assert(a[0].0 == b[0].0) by {
            vstd::utf8::encode_utf8_decode_utf8(a[0].0);
            vstd::utf8::encode_utf8_decode_utf8(b[0].0);
        }
        assert(m.subrange(8 + n, 16 + n) =~= ea.subrange(8 + n, 16 + n));
        assert(m.subrange(8 + n, 16 + n) =~= eb.subrange(8 + n, 16 + n));
        assert(a[0].1 as u64 == b[0].1 as u64);
        assert(a[0].1 == b[0].1);
        assert(ra =~= m.subrange(16 + n, m.len() as int));
        assert(rb =~= m.subrange(16 + n, m.len() as int));
        assert forall|k: int| 0 <= k < a.drop_first().len() implies encode_utf8(
            #[trigger] a.drop_first()[k].0,
        ).len() <= u64::MAX by {
            assert(a.drop_first()[k] == a[k + 1]);
        }
        assert forall|k: int| 0 <= k < b.drop_first().len() implies encode_utf8(
            #[trigger] b.drop_first()[k].0,
        ).len() <= u64::MAX by {
            assert(b.drop_first()[k] == b[k + 1]);
        }
        lemma_snapshot_message_injective(a.drop_first(), b.drop_first());
        assert(a =~= b) by {
            assert forall|k: int| 0 <= k < a.len() implies a[k] == b[k] by {
                if k > 0 {
                    assert(a[k] == a.drop_first()[k - 1]);
                    assert(b[k] == b.drop_first()[k - 1]);
                }
            }
        }
    }
}

/// The bytes hashed for `features`.
fn snapshot_message_bytes(features: &[(String, usize)]) -> (r: Vec<u8>)
    ensures
        r@ == snapshot_message(entries_view(features@)),
{
    let ghost view = entries_view(features@);
    let mut out: Vec<u8> = Vec::new();
    let mut k: usize = 0;
    assert(view.take(0) =~= Seq::<(Seq<char>, usize)>::empty());
    while k < features.len()
        invariant
            k <= features@.len(),
            view == entries_view(features@),
            out@ == snapshot_message(view.take(k as int)),
        decreases features@.len() - k,
    {
        let name = features[k].0.as_str();
        let version = features[k].1;
        let ghost before = out@;
        let mut name_bytes = name.as_bytes_vec();
        let mut len_bytes = u64_to_le_bytes(name_bytes.len() as u64);
        let mut version_bytes = u64_to_le_bytes(version as u64);
        out.append(&mut len_bytes);
        out.append(&mut name_bytes);
        out.append(&mut version_bytes);
        proof {
            assert(view.take(k as int + 1) =~= view.take(k as int).push(view[k as int]));
            lemma_message_push(view.take(k as int), name@, version);
            assert(name.spec_bytes() == encode_utf8(name@));
            assert(out@ =~= before + entry_bytes(name@, version));
        }
        k = k + 1;
    }
    assert(view.take(k as int) =~= view);
    out
}

/// The lowercase hexadecimal text of `bytes`, two digits per byte.
pub fn hex_digest(bytes: &[u8]) -> (r: String)
    ensures
        r@ == hex_of(bytes@),
{
    let digits = "0123456789abcdef";
    proof {
        reveal_strlit("0123456789abcdef");
    }
    let mut out = String::new();
    let mut k: usize = 0;
    while k < bytes.len()
        invariant
            k <= bytes@.len(),
            digits@ == "0123456789abcdef"@,
            digits@.len() == 16,
            out@ == hex_of(bytes@.take(k as int)),
        decreases bytes@.len() - k,
    {
        let b = bytes[k];
        let high = (b / 16) as usize;
        let low = (b % 16) as usize;
        out.append(digits.substring_char(high, high + 1));
        out.append(digits.substring_char(low, low + 1));
        proof {
            let t = bytes@.take(k as int + 1);
            assert(t.drop_last() =~= bytes@.take(k as int));
            assert(t.last() == b);
            assert(digits@.subrange(high as int, high + 1) =~= seq![hex_char(high as int)]);
            assert(digits@.subrange(low as int, low + 1) =~= seq![hex_char(low as int)]);
            assert(out@ =~= hex_of(t));
        }
        k = k + 1;
    }
    assert(bytes@.take(k as int) =~= bytes@);
    out
}

/// The identifier of a snapshot of `ordered_features`: the lowercase hex
/// SHA-256 digest of their bytes (see [`snapshot_message`]).
pub fn compute_snapshot_id(ordered_features: &[(String, usize)]) -> (r: SnapshotId)
    ensures
        r.0@ == snapshot_id_of(entries_view(ordered_features@)),
{
    let message = snapshot_message_bytes(ordered_features);
    let digest = sha256_digest(message.as_slice());
    SnapshotId(hex_digest(digest.as_slice()))
}

/// Whether pair `k` names the same feature as an earlier pair.
pub open spec fn repeats_earlier(features: Seq<(Seq<char>, usize)>, k: int) -> bool {
    exists|j: int| 0 <= j < k && #[trigger] features[j].0 == features[k].0
}

/// The first pair, from position `from` on, that repeats the name of an
/// earlier pair.
pub open spec fn first_repeat(features: Seq<(Seq<char>, usize)>, from: int) -> Option<int>
    decreases features.len() - from,
{
    if from < 0 || from >= features.len() {
        None
    } else if repeats_earlier(features, from) {
        Some(from)
    } else {
        first_repeat(features, from + 1)
    }
}

/// When no pair from `from` on repeats a name, none does.
proof fn lemma_no_repeat_from(features: Seq<(Seq<char>, usize)>, from: int)
    requires
        0 <= from,
        first_repeat(features, from) is None,
    ensures
        forall|k: int| from <= k < features.len() ==> !repeats_earlier(features, k),
    decreases features.len() - from,
{
    if from < features.len() {
        lemma_no_repeat_from(features, from + 1);
    }
}

/// `snapshots` with `s` stored under its identifier: in place of the snapshot
/// with the same identifier, or appended when there is none.
pub open spec fn with_snapshot(snapshots: Seq<Snapshot>, s: Snapshot) -> Seq<Snapshot> {
    if exists|j: int| 0 <= j < snapshots.len() && #[trigger] snapshots[j].spec_id() == s.spec_id() {
        snapshots.update(
            choose|j: int| 0 <= j < snapshots.len() && #[trigger] snapshots[j].spec_id() == s.spec_id(),
            s,
        )
    } else {
        snapshots.push(s)
    }
}

/// The first snapshot in `snapshots` with the identifier `id`, if any.
pub open spec fn find_snapshot(snapshots: Seq<Snapshot>, id: Seq<char>) -> Option<Snapshot>
    decreases snapshots.len(),
{
    if snapshots.len() == 0 {
        None
    } else if snapshots[0].spec_id() == id {
        Some(snapshots[0])
    } else {
        find_snapshot(snapshots.drop_first(), id)
    }
}

/// `to` is a fresh copy of the typed column `from`: the same kind, cells and
/// name, and no behaviors.
pub open spec fn rebuilt_column(from: ColumnData, to: ColumnData) -> bool {
    match (from, to) {
        (ColumnData::Int(a), ColumnData::Int(b)) => b@ == a@ && b.spec_name() == a.spec_name()
            && b.spec_behaviors() == Seq::<Seq<char>>::empty(),
        (ColumnData::Float(a), ColumnData::Float(b)) => b@ == a@ && b.spec_name() == a.spec_name()
            && b.spec_behaviors() == Seq::<Seq<char>>::empty(),
        (ColumnData::Text(a), ColumnData::Text(b)) => b@ == a@ && b.spec_name() == a.spec_name()
            && b.spec_behaviors() == Seq::<Seq<char>>::empty(),
        (ColumnData::Bool(a), ColumnData::Bool(b)) => b@ == a@ && b.spec_name() == a.spec_name()
            && b.spec_behaviors() == Seq::<Seq<char>>::empty(),
        _ => false,
    }
}

/// Selecting every row of a column in order copies it.
proof fn lemma_full_selection(from: ColumnData, to: ColumnData)
    requires
        rows_selected(from, row_positions(from.spec_len()), to),
        !(from is Raw),
        from.spec_len() <= usize::MAX,
    ensures
        rebuilt_column(from, to),
{
    let positions = row_positions(from.spec_len());
    assert forall|k: int| 0 <= k < positions.len() implies positions[k] as int == k by {}
    match (from, to) {
        (ColumnData::Int(a), ColumnData::Int(b)) => assert(b@ =~= a@),
        (ColumnData::Float(a), ColumnData::Float(b)) => assert(b@ =~= a@),
        (ColumnData::Text(a), ColumnData::Text(b)) => assert(b@ =~= a@),
        (ColumnData::Bool(a), ColumnData::Bool(b)) => assert(b@ =~= a@),
        _ => {},
    }
}

/// Pairs without a repeated name have distinct names.
proof fn lemma_no_repeats(features: Seq<(Seq<char>, usize)>)
    requires
        forall|k: int| 0 <= k < features.len() ==> !repeats_earlier(features, k),
    ensures
        distinct_keys(features),
{
    assert forall|i: int, j: int|
        0 <= i < features.len() && 0 <= j < features.len() && i != j implies #[trigger] features[i].0
        != #[trigger] features[j].0 by {
        if i < j {
            assert(!repeats_earlier(features, j));
        } else {
            assert(!repeats_earlier(features, i));
        }
    }
}

impl FeatureStore {
    /// The data of version `version` of the feature `name`, if kept.
    pub open spec fn version_data(&self, name: Seq<char>, version: usize) -> Option<ColumnData> {
        match find_version(self.history(name), version) {
            Some(v) => Some(v.spec_data()),
            None => None,
        }
    }

    /// The first pair, from position `from` on, whose version is not kept.
    pub open spec fn first_missing_version(
        &self,
        features: Seq<(Seq<char>, usize)>,
        from: int,
    ) -> Option<int>
        decreases features.len() - from,
    {
        if from < 0 || from >= features.len() {
            None
        } else if self.version_data(features[from].0, features[from].1) is None {
            Some(from)
        } else {
            self.first_missing_version(features, from + 1)
        }
    }

    /// The length of the column a rebuilt table starts with.
    pub open spec fn first_length(&self, features: Seq<(Seq<char>, usize)>) -> nat {
        self.version_data(features[0].0, features[0].1)->0.spec_len()
    }

    /// Whether pair `k` keeps a table from being rebuilt from `features`: its
    /// version is not kept, or its length differs from that of the first
    /// column.
    pub open spec fn rebuild_fails_at(&self, features: Seq<(Seq<char>, usize)>, k: int) -> bool {
        ||| self.version_data(features[k].0, features[k].1) is None
        ||| (k > 0 && self.version_data(
            features[k].0,
            features[k].1,
        )->0.spec_len() != self.first_length(features))
    }

    /// The first pair, from position `from` on, that keeps a table from being
    /// rebuilt from `features`.
    pub open spec fn first_rebuild_failure(&self, features: Seq<(Seq<char>, usize)>, from: int) -> Option<
        int,
    >
        decreases features.len() - from,
    {
        if from < 0 || from >= features.len() {
            None
        } else if self.rebuild_fails_at(features, from) {
            Some(from)
        } else {
            self.first_rebuild_failure(features, from + 1)
        }
    }

    /// `t` is a new table holding a fresh copy of each version named by
    /// `features`, in order, under the feature's name, all available.
    pub open spec fn rebuilt_table(&self, t: Table, features: Seq<(Seq<char>, usize)>) -> bool {
        &&& t.wf()
        &&& t.spec_path() == Seq::<char>::empty()
        &&& t.spec_columns().len() == features.len()
        &&& forall|k: int|
            #![trigger t.spec_columns()[k]]
            0 <= k < features.len() ==> t.spec_columns()[k].0 == features[k].0 && rebuilt_column(
                self.version_data(features[k].0, features[k].1)->0,
                t.spec_columns()[k].1,
            )
        &&& forall|n: Seq<char>|
            #![trigger t.state_of(n)]
            t.state_of(n) == if has_key(features, n) {
                Some(ColumnState::Available)
            } else {
                None::<ColumnState>
            }
    }

    /// `r` is what rebuilding a table from the snapshot with the identifier
    /// `id` gives: `SnapshotNotFound` when there is none; else the error of
    /// the first pair that fails (a version no longer kept, or a length that
    /// differs from that of the first column); else the rebuilt table.
    pub open spec fn reconstruct_outcome(&self, id: Seq<char>, r: Result<Table, FeatureStoreError>) -> bool {
        match find_snapshot(self.spec_snapshots(), id) {
            None => r matches Err(FeatureStoreError::SnapshotNotFound { id: i }) && i.0@ == id,
            Some(s) => {
                let f = s.spec_features();
                match self.first_rebuild_failure(f, 0) {
                    Some(k) => if self.version_data(f[k].0, f[k].1) is None {
                        r matches Err(FeatureStoreError::VersionNotFound { name, version })
                            && name@ == f[k].0 && version == f[k].1
                    } else {
                        r matches Err(
                            FeatureStoreError::TableBuildFailed(
                                TableError::ColumnLengthMismatch { length },
                            ),
                        ) && length == self.first_length(f)
                    },
                    None => r matches Ok(t) && self.rebuilt_table(t, f),
                }
            },
        }
    }

    /// Pins `ordered_features`, a list of `(feature name, version)` pairs, as
    /// one snapshot with an optional `label`, and returns its identifier,
    /// computed from the pairs in their order. A snapshot with the same
    /// identifier is replaced. Fails, leaving the store unchanged: first, over
    /// all pairs, at the first pair that repeats an earlier name; then at the
    /// first pair that names a version that is not kept.
    pub fn create_snapshot(&mut self, ordered_features: Vec<(String, usize)>, label: Option<String>) -> (r:
        Result<SnapshotId, FeatureStoreError>)
        requires
            old(self).wf(),
        ensures
            final(self).wf(),
            ({
                let f = entries_view(ordered_features@);
                match (first_repeat(f, 0), old(self).first_missing_version(f, 0)) {
                    (Some(k), _) => *final(self) == *old(self) && (r matches Err(
                        FeatureStoreError::DuplicateFeatureInSnapshot { name },
                    ) && name@ == f[k].0),
                    (None, Some(k)) => *final(self) == *old(self) && (r matches Err(
                        FeatureStoreError::VersionNotFound { name, version },
                    ) && name@ == f[k].0 && version == f[k].1),
                    (None, None) => r matches Ok(id) && id.0@ == snapshot_id_of(f)
                        && final(self).spec_histories() == old(self).spec_histories()
                        && final(self).spec_max_versions() == old(self).spec_max_versions()
                        && exists|s: Snapshot|
                        s.spec_id() == id.0@ && s.spec_features() == f && s.spec_label()
                            == label_view(label) && final(self).spec_snapshots() == with_snapshot(
                            old(self).spec_snapshots(),
                            s,
                        ),
                }
            }),
    {
        let ghost f = entries_view(ordered_features@);
        let mut k: usize = 0;
        assert(first_repeat(f, 0) == first_repeat(f, k as int));
        while k < ordered_features.len()
            invariant
                k <= ordered_features@.len(),
                f == entries_view(ordered_features@),
                self.wf(),
                *self == *old(self),
                first_repeat(f, 0) == first_repeat(f, k as int),
            decreases ordered_features@.len() - k,
        {
            let name = &ordered_features[k].0;
            assert(f[k as int].0 == name@);
            let mut j: usize = 0;
            while j < k
                invariant
                    j <= k,
                    k < ordered_features@.len(),
                    f == entries_view(ordered_features@),
                    name@ == f[k as int].0,
                    forall|i: int| 0 <= i < j ==> f[i].0 != f[k as int].0,
                    self.wf(),
                    *self == *old(self),
                    first_repeat(f, 0) == first_repeat(f, k as int),
                decreases k - j,
            {
                assert(f[j as int].0 == ordered_features@[j as int].0@);
                if str_eq(ordered_features[j].0.as_str(), name.as_str()) {
                    assert(repeats_earlier(f, k as int));
                    assert(first_repeat(f, k as int) == Some(k as int));
                    return Err(FeatureStoreError::DuplicateFeatureInSnapshot { name: name.clone() });
                }
                j = j + 1;
            }
            assert(!repeats_earlier(f, k as int));
            k = k + 1;
        }
        proof {
            lemma_no_repeat_from(f, 0);
            lemma_no_repeats(f);
        }
        let mut k: usize = 0;
        assert(self.first_missing_version(f, 0) == self.first_missing_version(f, k as int));
        while k < ordered_features.len()
            invariant
                k <= ordered_features@.len(),
                f == entries_view(ordered_features@),
                self.wf(),
                *self == *old(self),
                first_repeat(f, 0) is None,
                self.first_missing_version(f, 0) == self.first_missing_version(f, k as int),
            decreases ordered_features@.len() - k,
        {
            let name = &ordered_features[k].0;
            let version = ordered_features[k].1;
            assert(f[k as int] == (name@, version));
            if let Err(e) = self.get_version(name.as_str(), version) {
                assert(self.first_missing_version(f, k as int) == Some(k as int));
                return Err(e);
            }
            k = k + 1;
        }
        let id = compute_snapshot_id(ordered_features.as_slice());
        let snapshot = Snapshot {
            id: SnapshotId(id.0.clone()),
            ordered_features,
            timestamp: now(),
            label,
        };
        let ghost s = snapshot;
        let ghost before = self.spec_snapshots();
        let mut i: usize = 0;
        while i < self.snapshots.len()
            invariant
                i <= self.snapshots@.len(),
                self.snapshots@ == before,
                self.wf(),
                *self == *old(self),
                forall|j: int| 0 <= j < i ==> before[j].spec_id() != s.spec_id(),
                s == snapshot,
                first_repeat(f, 0) is None,
                self.first_missing_version(f, 0) is None,
                f == entries_view(ordered_features@),
                id.0@ == snapshot_id_of(f),
                s.spec_id() == id.0@,
                s.spec_features() == f,
                s.spec_label() == label_view(label),
                distinct_keys(f),
            decreases self.snapshots@.len() - i,
        {
            assert(before[i as int].spec_id() == self.snapshots@[i as int].id.0@);
            if str_eq(self.snapshots[i].id.0.as_str(), id.0.as_str()) {
                assert(before[i as int].spec_id() == s.spec_id());
                proof {
                    let w = choose|j: int|
                        0 <= j < before.len() && #[trigger] before[j].spec_id() == s.spec_id();
                    if w > i {
                        assert(self.spec_snapshots()[i as int].spec_id()
                            != self.spec_snapshots()[w].spec_id());
                    }
                    assert(w == i);
                }
                self.snapshots.set(i, snapshot);
                assert(self.spec_snapshots() =~= before.update(i as int, s));
                proof {
                    let now_all = self.spec_snapshots();
                    assert forall|a: int|
                        #![trigger now_all[a]]
                        0 <= a < now_all.len() implies (now_all[a].spec_id()
                        == before[a].spec_id() && now_all[a].names_distinct()) by {
                        if a != i {
                            assert(now_all[a] == before[a]);
                            assert(old(self).spec_snapshots()[a].names_distinct());
                        } else {
                            assert(now_all[a] == s);
                            assert(s.names_distinct());
                        }
                    }
                    assert forall|a: int, b: int| 0 <= a < b < now_all.len() implies #[trigger] now_all[a].spec_id()
                        != #[trigger] now_all[b].spec_id() by {
                        assert(old(self).spec_snapshots()[a].spec_id() != old(self).spec_snapshots()[b].spec_id());
                    }
                }
                assert(self.spec_snapshots() == with_snapshot(before, s));
                return Ok(id);
            }
            i = i + 1;
        }
        self.snapshots.push(snapshot);
        assert(self.spec_snapshots() == with_snapshot(before, s));
        Ok(id)
    }

    /// The snapshot with the identifier `id`. Fails when there is none.
    pub fn get_snapshot(&self, id: &SnapshotId) -> (r: Result<&Snapshot, FeatureStoreError>)
        requires
            self.wf(),
        ensures
            match find_snapshot(self.spec_snapshots(), id.0@) {
                Some(s) => r matches Ok(x) && *x == s,
                None => r matches Err(FeatureStoreError::SnapshotNotFound { id: i }) && i.0@
                    == id.0@,
            },
    {
        let ghost all = self.spec_snapshots();
        let mut i: usize = 0;
        assert(all.skip(0) =~= all);
        while i < self.snapshots.len()
            invariant
                all == self.spec_snapshots(),
                i <= all.len(),
                find_snapshot(all, id.0@) == find_snapshot(all.skip(i as int), id.0@),
            decreases all.len() - i,
        {
            assert(all.skip(i as int)[0] == all[i as int]);
            assert(all.skip(i as int).drop_first() =~= all.skip(i as int + 1));
            if str_eq(self.snapshots[i].id.0.as_str(), id.0.as_str()) {
                assert(find_snapshot(all.skip(i as int), id.0@) == Some(all[i as int]));
                return Ok(&self.snapshots[i]);
            }
            i = i + 1;
        }
        assert(all.skip(i as int) =~= Seq::<Snapshot>::empty());
        Err(FeatureStoreError::SnapshotNotFound { id: SnapshotId(id.0.clone()) })
    }

    /// Rebuilds a new table from the snapshot with the identifier `id`: for
    /// each of its pairs in order, a fresh copy of that version of the feature
    /// is added as a column under the feature's name. Fails when there is no
    /// such snapshot, when a pinned version is no longer kept, or when a
    /// column's length differs from that of the first column.
    pub fn reconstruct_table(&self, id: &SnapshotId) -> (r: Result<Table, FeatureStoreError>)
        requires
            self.wf(),
        ensures
            self.reconstruct_outcome(id.0@, r),
    {
        let snapshot = match self.get_snapshot(id) {
            Ok(s) => s,
            Err(e) => {
                return Err(e);
            },
        };
        let ghost f = snapshot.spec_features();
        proof {
            lemma_find_snapshot_member(self.spec_snapshots(), id.0@);
            let j = choose|j: int|
                0 <= j < self.spec_snapshots().len() && #[trigger] self.spec_snapshots()[j]
                    == *snapshot;
            assert(self.spec_snapshots()[j].names_distinct());
        }
        assert(distinct_keys(f));
        let features = snapshot.ordered_features();
        let mut table = Table::new();
        let mut k: usize = 0;
        assert(self.first_rebuild_failure(f, 0) == self.first_rebuild_failure(f, k as int));
        while k < features.len()
            invariant
                entries_view(features@) == f,
                f == snapshot.spec_features(),
                find_snapshot(self.spec_snapshots(), id.0@) == Some(*snapshot),
                distinct_keys(f),
                self.wf(),
                k <= f.len(),
                self.first_rebuild_failure(f, 0) == self.first_rebuild_failure(f, k as int),
                table.wf(),
                table.spec_path() == Seq::<char>::empty(),
                table.spec_columns().len() == k,
                forall|j: int| 0 <= j < k ==> self.version_data(f[j].0, f[j].1) is Some,
                forall|j: int|
                    #![trigger table.spec_columns()[j]]
                    0 <= j < k ==> table.spec_columns()[j].0 == f[j].0 && rebuilt_column(
                        self.version_data(f[j].0, f[j].1)->0,
                        table.spec_columns()[j].1,
                    ),
                k == 0 ==> table.spec_row_count() == 0,
                k > 0 ==> table.spec_row_count() == self.first_length(f),
                forall|n: Seq<char>|
                    #![trigger table.state_of(n)]
                    table.state_of(n) == if has_key(f.take(k as int), n) {
                        Some(ColumnState::Available)
                    } else {
                        None::<ColumnState>
                    },
            decreases f.len() - k,
        {
            let name = &features[k].0;
            let version = features[k].1;
            assert(f[k as int] == (name@, version));
            let column_version = match self.get_version(name.as_str(), version) {
                Ok(v) => v,
                Err(e) => {
                    assert(self.first_rebuild_failure(f, k as int) == Some(k as int));
                    return Err(e);
                },
            };
            proof {
                self.lemma_kept_version(name@, version);
            }
            let data = column_version.data();
            let len = data.len();
            let mut full_indices: Vec<usize> = Vec::new();
            while full_indices.len() < len
                invariant
                    full_indices@.len() <= len,
                    full_indices@ == row_positions(full_indices@.len()),
                decreases len - full_indices@.len(),
            {
                full_indices.push(full_indices.len());
                assert(full_indices@ =~= row_positions(full_indices@.len()));
            }
            let owned = data.select_rows(full_indices.as_slice());
            proof {
                lemma_full_selection(*data, owned);
                assert(!has_key(f.take(k as int), name@)) by {
                    if has_key(f.take(k as int), name@) {
                        let j = choose|j: int|
                            0 <= j < f.take(k as int).len() && #[trigger] f.take(k as int)[j].0
                                == name@;
                        assert(f[j].0 == f[k as int].0);
                    }
                }
                assert(table.column_of(name@) is None) by {
                    if has_key(table.spec_columns(), name@) {
                        assert(table.state_of(name@) is Some);
                    }
                }
            }
            let ghost before = table;
            let added = match owned {
                ColumnData::Int(c) => table.add_column(c),
                ColumnData::Float(c) => table.add_column(c),
                ColumnData::Text(c) => table.add_column(c),
                ColumnData::Bool(c) => table.add_column(c),
                ColumnData::Raw(_) => {
                    // Committed data always carries a name, so it is never raw.
                    proof {
                        assert(false);
                    }
                    Ok(String::new())
                },
            };
            if let Err(e) = added {
                assert(self.rebuild_fails_at(f, k as int));
                assert(self.first_rebuild_failure(f, k as int) == Some(k as int));
                return Err(FeatureStoreError::TableBuildFailed(e));
            }
            proof {
                assert(!self.rebuild_fails_at(f, k as int));
                assert(table.spec_columns() == before.spec_columns().push((name@, owned)));
                assert(table.spec_columns()[k as int] == (name@, owned));
                assert forall|j: int|
                    #![trigger table.spec_columns()[j]]
                    0 <= j < k + 1 implies table.spec_columns()[j].0 == f[j].0 && rebuilt_column(
                        self.version_data(f[j].0, f[j].1)->0,
                        table.spec_columns()[j].1,
                    ) by {
                    if j < k {
                        assert(table.spec_columns()[j] == before.spec_columns()[j]);
                    }
                }
                assert(f.take(k as int + 1) =~= f.take(k as int).push(f[k as int]));
                assert forall|n: Seq<char>|
                    #![trigger table.state_of(n)]
                    table.state_of(n) == if has_key(f.take(k as int + 1), n) {
                        Some(ColumnState::Available)
                    } else {
                        None::<ColumnState>
                    } by {
                    let t1 = f.take(k as int + 1);
                    if n == name@ {
                        assert(t1[k as int].0 == n);
                    } else {
                        if has_key(f.take(k as int), n) {
                            let j = choose|j: int|
                                0 <= j < f.take(k as int).len() && #[trigger] f.take(k as int)[j].0
                                    == n;
                            assert(t1[j].0 == n);
                        }
                        if has_key(t1, n) {
                            let j = choose|j: int| 0 <= j < t1.len() && #[trigger] t1[j].0 == n;
                            assert(f.take(k as int)[j].0 == n);
                        }
                        assert(table.state_of(n) == before.state_of(n));
                    }
                }
                if k > 0 {
                    assert(table.spec_columns()[0] == before.spec_columns()[0]);
                }
            }
            k = k + 1;
        }
        assert(f.take(k as int) =~= f);
        Ok(table)
    }

    /// A version found for a feature is one of its kept versions, so its data
    /// carries the feature's name.
    proof fn lemma_kept_version(&self, name: Seq<char>, version: usize)
        requires
            self.wf(),
            self.version_data(name, version) is Some,
        ensures
            self.version_data(name, version)->0.spec_name() == Some(name),
            find_version(self.history(name), version)->0.spec_data() == self.version_data(name, version)->0,
    {
        let h = self.history(name);
        lemma_find_version_member(h, version);
        let j = choose|j: int| 0 <= j < h.len() && h[j] == find_version(h, version)->0;
        let k = crate::keyed::index_of_key(self.spec_histories(), name);
        assert(valid_history(self.spec_histories()[k].0, self.spec_histories()[k].1, self.spec_max_versions()));
        assert(h[j].spec_name() == name);
    }
}

/// A version found in a history is one of its entries.
proof fn lemma_find_version_member(history: Seq<ColumnVersion>, version: usize)
    requires
        find_version(history, version) is Some,
    ensures
        exists|j: int| 0 <= j < history.len() && history[j] == find_version(history, version)->0,
    decreases history.len(),
{
    if history[0].spec_number() == version {
        assert(history[0] == find_version(history, version)->0);
    } else {
        lemma_find_version_member(history.drop_first(), version);
        let j = choose|j: int|
            0 <= j < history.drop_first().len() && history.drop_first()[j] == find_version(
                history.drop_first(),
                version,
            )->0;
        assert(history[j + 1] == history.drop_first()[j]);
    }
}

/// A snapshot found by identifier is one of the stored snapshots.
proof fn lemma_find_snapshot_member(snapshots: Seq<Snapshot>, id: Seq<char>)
    ensures
        find_snapshot(snapshots, id) matches Some(s) ==> exists|j: int|
            0 <= j < snapshots.len() && #[trigger] snapshots[j] == s,
    decreases snapshots.len(),
{
    if snapshots.len() > 0 && snapshots[0].spec_id() != id {
        lemma_find_snapshot_member(snapshots.drop_first(), id);
        if let Some(s) = find_snapshot(snapshots, id) {
            let j = choose|j: int|
                0 <= j < snapshots.drop_first().len() && #[trigger] snapshots.drop_first()[j] == s;
            assert(snapshots[j + 1] == s);
        }
    } else if snapshots.len() > 0 {
        assert(snapshots[0] == find_snapshot(snapshots, id)->0);
    }
}

} // verus!
