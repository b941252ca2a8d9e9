//! Everything that can stop a release, and what the user is told then.

use vstd::prelude::*;
use vstd::string::*;

use crate::text::{join, joined, texts};

verus! {

#[derive(Debug)]
pub enum VersionerError {
    NotARepository,
    ManifestNotFound,
    UnsupportedManifest(String),
    OutsideRepository(String),
    AmbiguousManifest(Vec<String>),
    InvalidManifest(String, String),
    MissingVersion(String),
    UnsupportedVersion(String, String),
    InvalidVersion(String),
    InvalidPreId(String),
    VersionOverflow,
    Backwards(String, String),
    /// The scanner's span disagrees with a real parse of the file.
    Unlocatable(String),
    TagExists(String),
    SnapshotFailed(String),
    SaveFailed(String, String),
    CommitFailed(String),
    TagFailed(String),
}

/// A [`VersionerError`] with its texts as sequences of characters.
pub enum Failure {
    NotARepository,
    ManifestNotFound,
    UnsupportedManifest(Seq<char>),
    OutsideRepository(Seq<char>),
    AmbiguousManifest(Seq<Seq<char>>),
    InvalidManifest(Seq<char>, Seq<char>),
    MissingVersion(Seq<char>),
    UnsupportedVersion(Seq<char>, Seq<char>),
    InvalidVersion(Seq<char>),
    InvalidPreId(Seq<char>),
    VersionOverflow,
    Backwards(Seq<char>, Seq<char>),
    Unlocatable(Seq<char>),
    TagExists(Seq<char>),
    SnapshotFailed(Seq<char>),
    SaveFailed(Seq<char>, Seq<char>),
    CommitFailed(Seq<char>),
    TagFailed(Seq<char>),
}

impl View for VersionerError {
    type V = Failure;

    open spec fn view(&self) -> Failure {
        match self {
            VersionerError::NotARepository => Failure::NotARepository,
            VersionerError::ManifestNotFound => Failure::ManifestNotFound,
            VersionerError::UnsupportedManifest(path) => Failure::UnsupportedManifest(path@),
            VersionerError::OutsideRepository(path) => Failure::OutsideRepository(path@),
            VersionerError::AmbiguousManifest(labels) => Failure::AmbiguousManifest(texts(labels@)),
            VersionerError::InvalidManifest(label, reason) => Failure::InvalidManifest(
                label@,
                reason@,
            ),
            VersionerError::MissingVersion(label) => Failure::MissingVersion(label@),
            VersionerError::UnsupportedVersion(label, reason) => Failure::UnsupportedVersion(
                label@,
                reason@,
            ),
            VersionerError::InvalidVersion(version) => Failure::InvalidVersion(version@),
            VersionerError::InvalidPreId(id) => Failure::InvalidPreId(id@),
            VersionerError::VersionOverflow => Failure::VersionOverflow,
            VersionerError::Backwards(current, next) => Failure::Backwards(current@, next@),
            VersionerError::Unlocatable(label) => Failure::Unlocatable(label@),
            VersionerError::TagExists(tag) => Failure::TagExists(tag@),
            VersionerError::SnapshotFailed(reason) => Failure::SnapshotFailed(reason@),
            VersionerError::SaveFailed(label, reason) => Failure::SaveFailed(label@, reason@),
            VersionerError::CommitFailed(reason) => Failure::CommitFailed(reason@),
            VersionerError::TagFailed(reason) => Failure::TagFailed(reason@),
        }
    }
}

/// The outcome of an operation, with its value and its error as the views
/// that contracts speak of.
pub open spec fn outcome<T: View>(result: Result<T, VersionerError>) -> Result<T::V, Failure> {
    match result {
        Ok(value) => Ok(value@),
        Err(error) => Err(error@),
    }
}

impl Failure {
    /// The sentence that ends a run on this error.
    pub open spec fn sentence(self) -> Seq<char> {
        match self {
            Failure::NotARepository => "not a git repository"@,
            Failure::ManifestNotFound => {
                "no package.json, Cargo.toml or pyproject.toml found between the current directory and the repository root"@
            },
            Failure::UnsupportedManifest(path) => {
                "'"@ + path
                    + "' is not a supported manifest, expected package.json, Cargo.toml or pyproject.toml"@
            },
            Failure::OutsideRepository(path) => "'"@ + path + "' is outside the repository"@,
            Failure::AmbiguousManifest(labels) => {
                "found several versioned manifests ("@ + joined(labels, ", "@)
                    + "), pick one with --manifest"@
            },
            Failure::InvalidManifest(label, reason) => "invalid "@ + label + ": "@ + reason,
            Failure::MissingVersion(label) => label + " has no version"@,
            Failure::UnsupportedVersion(label, reason) => label + ": "@ + reason,
            Failure::InvalidVersion(version) => {
                "invalid version '"@ + version + "', expected semver: x.y.z[-pre][+build]"@
            },
            Failure::InvalidPreId(id) => {
                "invalid pre-release identifier '"@ + id
                    + "', expected dot-separated [0-9A-Za-z-] parts"@
            },
            Failure::VersionOverflow => "version component would overflow"@,
            Failure::Backwards(current, next) => {
                current + " → "@ + next + " would move the version backwards"@
            },
            Failure::Unlocatable(label) => {
                "could not pin down the version text in "@ + label + " to rewrite it in place"@
            },
            Failure::TagExists(tag) => "tag '"@ + tag + "' already exists"@,
            Failure::SnapshotFailed(reason) => "could not snapshot the index: "@ + reason,
            Failure::SaveFailed(label, reason) => {
                "failed to write "@ + label + ": "@ + reason + " — changes rolled back"@
            },
            Failure::CommitFailed(reason) => reason + " — changes rolled back"@,
            Failure::TagFailed(reason) => reason + " — changes rolled back"@,
        }
    }
}

impl VersionerError {
    /// The sentence that ends the run.
    pub fn fatal(&self) -> (message: String)
        ensures
            message@ == self@.sentence(),
    {
        let mut message = String::new();
        match self {
            VersionerError::NotARepository => message.append("not a git repository"),
            VersionerError::ManifestNotFound => message.append(
                "no package.json, Cargo.toml or pyproject.toml found between the current directory and the repository root",
            ),
            VersionerError::UnsupportedManifest(path) => {
                message.append("'");
                message.append(path.as_str());
                message.append(
                    "' is not a supported manifest, expected package.json, Cargo.toml or pyproject.toml",
                );
            },
            VersionerError::OutsideRepository(path) => {
                message.append("'");
                message.append(path.as_str());
                message.append("' is outside the repository");
            },
            VersionerError::AmbiguousManifest(labels) => {
                message.append("found several versioned manifests (");
                let listed = join(labels.as_slice(), ", ");
                message.append(listed.as_str());
                message.append("), pick one with --manifest");
            },
            VersionerError::InvalidManifest(label, reason) => {
                message.append("invalid ");
                message.append(label.as_str());
                message.append(": ");
                message.append(reason.as_str());
            },
            VersionerError::MissingVersion(label) => {
                message.append(label.as_str());
                message.append(" has no version");
            },
            VersionerError::UnsupportedVersion(label, reason) => {
                message.append(label.as_str());
                message.append(": ");
                message.append(reason.as_str());
            },
            VersionerError::InvalidVersion(version) => {
                message.append("invalid version '");
                message.append(version.as_str());
                message.append("', expected semver: x.y.z[-pre][+build]");
            },
            VersionerError::InvalidPreId(id) => {
                message.append("invalid pre-release identifier '");
                message.append(id.as_str());
                message.append("', expected dot-separated [0-9A-Za-z-] parts");
            },
            VersionerError::VersionOverflow => message.append("version component would overflow"),
            VersionerError::Backwards(current, next) => {
                message.append(current.as_str());
                message.append(" → ");
                message.append(next.as_str());
                message.append(" would move the version backwards");
            },
            VersionerError::Unlocatable(label) => {
                message.append("could not pin down the version text in ");
                message.append(label.as_str());
                message.append(" to rewrite it in place");
            },
            VersionerError::TagExists(tag) => {
                message.append("tag '");
                message.append(tag.as_str());
                message.append("' already exists");
            },
            VersionerError::SnapshotFailed(reason) => {
                message.append("could not snapshot the index: ");
                message.append(reason.as_str());
            },
            VersionerError::SaveFailed(label, reason) => {
                message.append("failed to write ");
                message.append(label.as_str());
                message.append(": ");
                message.append(reason.as_str());
                message.append(" — changes rolled back");
            },
            VersionerError::CommitFailed(reason) => {
                message.append(reason.as_str());
                message.append(" — changes rolled back");
            },
            VersionerError::TagFailed(reason) => {
                message.append(reason.as_str());
                message.append(" — changes rolled back");
            },
        }
        assert(message@ =~= self@.sentence());
        message
    }
}

} // verus!
