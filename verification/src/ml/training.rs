mod artifact;

pub use artifact::{
    artifact_file_names, valid_label, valid_label_char, ArtifactError, ModelArchitecture,
    ModelArtifact, MAX_LABEL_CHARACTER,
};
