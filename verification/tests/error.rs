//! The sentences that end a run.

use versioner::error::VersionerError;

#[test]
fn says_what_went_wrong() {
    let text = |text: &str| text.to_owned();
    let cases = [
        (VersionerError::NotARepository, "not a git repository"),
        (
            VersionerError::ManifestNotFound,
            "no package.json, Cargo.toml or pyproject.toml found between the current directory \
             and the repository root",
        ),
        (
            VersionerError::UnsupportedManifest(text("setup.py")),
            "'setup.py' is not a supported manifest, expected package.json, Cargo.toml or \
             pyproject.toml",
        ),
        (
            VersionerError::OutsideRepository(text("/elsewhere")),
            "'/elsewhere' is outside the repository",
        ),
        (
            VersionerError::AmbiguousManifest(vec![text("Cargo.toml"), text("package.json")]),
            "found several versioned manifests (Cargo.toml, package.json), pick one with \
             --manifest",
        ),
        (
            VersionerError::InvalidManifest(text("package.json"), text("eof")),
            "invalid package.json: eof",
        ),
        (
            VersionerError::MissingVersion(text("Cargo.toml")),
            "Cargo.toml has no version",
        ),
        (
            VersionerError::UnsupportedVersion(text("a/Cargo.toml"), text("inherited")),
            "a/Cargo.toml: inherited",
        ),
        (
            VersionerError::InvalidVersion(text("1.0.0rc1")),
            "invalid version '1.0.0rc1', expected semver: x.y.z[-pre][+build]",
        ),
        (
            VersionerError::InvalidPreId(text("b_1")),
            "invalid pre-release identifier 'b_1', expected dot-separated [0-9A-Za-z-] parts",
        ),
        (
            VersionerError::VersionOverflow,
            "version component would overflow",
        ),
        (
            VersionerError::Backwards(text("1.0.0"), text("0.9.0")),
            "1.0.0 → 0.9.0 would move the version backwards",
        ),
        (
            VersionerError::Unlocatable(text("uv.lock")),
            "could not pin down the version text in uv.lock to rewrite it in place",
        ),
        (
            VersionerError::TagExists(text("v1.0.0")),
            "tag 'v1.0.0' already exists",
        ),
        (
            VersionerError::SnapshotFailed(text("merging")),
            "could not snapshot the index: merging",
        ),
        (
            VersionerError::SaveFailed(text("Cargo.lock"), text("read-only")),
            "failed to write Cargo.lock: read-only — changes rolled back",
        ),
        (
            VersionerError::CommitFailed(text("hook")),
            "hook — changes rolled back",
        ),
        (
            VersionerError::TagFailed(text("ref")),
            "ref — changes rolled back",
        ),
    ];

    for (error, message) in cases {
        assert_eq!(error.fatal(), message);
    }
}
