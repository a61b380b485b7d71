use std::time::SystemTime;
use vstd::prelude::*;
use vstd::string::StrSliceExecFns;

use crate::clock::now;
use crate::feature_store::SnapshotId;
use crate::text::concat3;

verus! {

/// `std::io::Error`, carried opaquely inside [`ArtifactError`].
#[verifier::external_type_specification]
#[verifier::external_body]
pub struct ExIoError(std::io::Error);

/// `serde_json::Error`, carried opaquely inside [`ArtifactError`].
#[verifier::external_type_specification]
#[verifier::external_body]
pub struct ExJsonError(serde_json::Error);

/// The largest number of characters in a [`ModelArtifact`]'s label.
pub const MAX_LABEL_CHARACTER: usize = 64;

/// Errors that can occur while creating, saving or loading a [`ModelArtifact`].
#[derive(Debug)]
pub enum ArtifactError {
    /// The label is empty.
    EmptyLabel,
    /// The label has more than [`MAX_LABEL_CHARACTER`] characters.
    LabelTooLong,
    /// The label holds a character other than an ASCII letter or digit, `-`
    /// or `_`.
    InvalidCharacter,
    /// Writing the model's weights failed.
    WeightsSaveFailed(candle_core::Error),
    /// Creating the metadata file failed.
    FileCreationFailed(std::io::Error),
    /// Writing the metadata as JSON failed.
    SerializationFailed(serde_json::Error),
    /// Reading the metadata as JSON failed.
    DeserializationFailed(serde_json::Error),
    /// Opening the metadata file failed.
    ArtifactFileOpenFailed(std::io::Error),
    /// Reading the weights file failed.
    WeightsLoadedFailed(candle_core::Error),
    /// Rebuilding the untrained model failed.
    ModelCreationFailed(candle_core::Error),
}

/// A model's shape: what is needed to rebuild an untrained model of the same
/// shape before loading saved weights into it.
#[derive(Debug, PartialEq, Eq, Structural)]
pub enum ModelArchitecture {
    Linear { in_features: usize, out_features: usize },
}

/// A character allowed in a label: an ASCII letter or digit, `-` or `_`.
pub open spec fn valid_label_char(c: char) -> bool {
    ||| ('a' <= c && c <= 'z')
    ||| ('A' <= c && c <= 'Z')
    ||| ('0' <= c && c <= '9')
    ||| c == '-'
    ||| c == '_'
}

/// A label made only of allowed characters.
pub open spec fn valid_label(label: Seq<char>) -> bool {
    forall|i: int| 0 <= i < label.len() ==> valid_label_char(#[trigger] label[i])
}

/// The record of a trained model: its shape, the snapshot it was trained on,
/// a file-system-safe label and its creation time.
pub struct ModelArtifact {
    architecture: ModelArchitecture,
    snapshot_id: SnapshotId,
    label: String,
    timestamp: SystemTime,
}

/// Whether `c` is an ASCII letter or digit, `-` or `_`.
fn is_label_char(c: char) -> (r: bool)
    ensures
        r == valid_label_char(c),
{
    ('a' <= c && c <= 'z') || ('A' <= c && c <= 'Z') || ('0' <= c && c <= '9') || c == '-' || c
        == '_'
}

/// The names of the two files an artifact is saved to: the weights file
/// `{snapshot_id}_{label}.safetensors` and the metadata file
/// `{snapshot_id}_{label}.json`.
pub fn artifact_file_names(snapshot_id: &SnapshotId, label: &str) -> (r: (String, String))
    ensures
        r.0@ == snapshot_id.0@ + "_"@ + label@ + ".safetensors"@,
        r.1@ == snapshot_id.0@ + "_"@ + label@ + ".json"@,
{
    let stem = concat3(snapshot_id.0.as_str(), "_", label);
    let weights = concat3(stem.as_str(), ".safetensors", "");
    let metadata = concat3(stem.as_str(), ".json", "");
    proof {
        reveal_strlit("");
        assert(weights@ =~= snapshot_id.0@ + "_"@ + label@ + ".safetensors"@);
        assert(metadata@ =~= snapshot_id.0@ + "_"@ + label@ + ".json"@);
    }
    (weights, metadata)
}

impl ModelArtifact {
    /// The model's shape.
    pub closed spec fn spec_architecture(&self) -> ModelArchitecture {
        self.architecture
    }

    /// The identifier's text of the snapshot the model was trained on.
    pub closed spec fn spec_snapshot_id(&self) -> Seq<char> {
        self.snapshot_id.0@
    }

    /// The label.
    pub closed spec fn spec_label(&self) -> Seq<char> {
        self.label@
    }

    /// The time recorded when the record was created.
    pub closed spec fn spec_timestamp(&self) -> SystemTime {
        self.timestamp
    }

    /// Creates the record of a model trained on the snapshot `snapshot_id`,
    /// stamped with the current time. The label becomes part of file names,
    /// so it must be non-empty, have at most [`MAX_LABEL_CHARACTER`]
    /// characters, and hold only ASCII letters and digits, `-` and `_`; it is
    /// checked in that order.
    pub fn new(architecture: ModelArchitecture, snapshot_id: SnapshotId, label: String) -> (r:
        Result<ModelArtifact, ArtifactError>)
        ensures
            label@.len() == 0 ==> r matches Err(ArtifactError::EmptyLabel),
            0 < label@.len() && label@.len() > MAX_LABEL_CHARACTER ==> r matches Err(
                ArtifactError::LabelTooLong,
            ),
            0 < label@.len() <= MAX_LABEL_CHARACTER && !valid_label(label@) ==> r matches Err(
                ArtifactError::InvalidCharacter,
            ),
            0 < label@.len() <= MAX_LABEL_CHARACTER && valid_label(label@) ==> (r matches Ok(a)
                && a.spec_architecture() == architecture && a.spec_snapshot_id()
                == snapshot_id.0@ && a.spec_label() == label@),
    {
        let count = label.as_str().unicode_len();
        if count == 0 {
            return Err(ArtifactError::EmptyLabel);
        }
        if count > MAX_LABEL_CHARACTER {
            return Err(ArtifactError::LabelTooLong);
        }
        let mut i: usize = 0;
        while i < count
            invariant
                count == label@.len(),
                0 < count <= MAX_LABEL_CHARACTER,
                i <= count,
                forall|j: int| 0 <= j < i ==> valid_label_char(#[trigger] label@[j]),
            decreases count - i,
        {
            if !is_label_char(label.as_str().get_char(i)) {
                return Err(ArtifactError::InvalidCharacter);
            }
            i = i + 1;
        }
        Ok(ModelArtifact { architecture, snapshot_id, label, timestamp: now() })
    }

    /// Reassembles a record from its parts, as read back from storage.
    pub fn from_parts(
        architecture: ModelArchitecture,
        snapshot_id: SnapshotId,
        label: String,
        timestamp: SystemTime,
    ) -> (r: ModelArtifact)
        ensures
            r.spec_architecture() == architecture,
            r.spec_snapshot_id() == snapshot_id.0@,
            r.spec_label() == label@,
            r.spec_timestamp() == timestamp,
    {
        ModelArtifact { architecture, snapshot_id, label, timestamp }
    }

    /// The model's shape.
    pub fn architecture(&self) -> (r: &ModelArchitecture)
        ensures
            *r == self.spec_architecture(),
    {
        &self.architecture
    }

    /// The snapshot the model was trained on.
    pub fn snapshot_id(&self) -> (r: &SnapshotId)
        ensures
            r.0@ == self.spec_snapshot_id(),
    {
        &self.snapshot_id
    }

    /// The label.
    pub fn label(&self) -> (r: &str)
        ensures
            r@ == self.spec_label(),
    {
        self.label.as_str()
    }

    /// When the record was created.
    pub fn timestamp(&self) -> (r: SystemTime)
        ensures
            r == self.spec_timestamp(),
    {
        self.timestamp
    }
}

} // verus!
