//! What a user can ask for.

use vstd::prelude::*;

use crate::error::{outcome, Failure, VersionerError};
use crate::project::Explicit;
use crate::text::maybe_text;
use crate::version::{pre_id_of, Bump, BumpModel, Identifier, Level};

verus! {

/// What a run is asked for.
#[derive(Debug)]
pub struct Args {
    pub command: Commands,
    /// Show what would change without writing, committing or pushing anything
    pub dry_run: bool,
    /// Commit and tag locally, but don't push
    pub no_push: bool,
    /// Commit every change in the worktree, not just the version files
    pub all: bool,
    /// Manifest to bump, instead of the nearest one above the current directory
    pub manifest: Option<Explicit>,
    /// The components of the path of the current directory, if there is one.
    pub directory: Option<Vec<String>>,
}

/// What a bump of a level takes.
#[derive(Debug, Clone)]
pub struct Release {
    /// Commit and tag message
    pub message: String,
    /// Open a pre-release of the bumped version: `minor --pre beta` gives 1.5.0-beta.0
    pub pre: Option<String>,
}

#[derive(Debug, Clone)]
pub enum Commands {
    /// 1.4.2 → 2.0.0, or 2.0.0-rc.1 → 2.0.0
    Major(Release),
    /// 1.4.2 → 1.5.0, or 1.5.0-rc.1 → 1.5.0
    Minor(Release),
    /// 1.4.2 → 1.4.3, or 1.4.3-rc.1 → 1.4.3
    Patch(Release),
    /// Next pre-release: 1.5.0-beta.0 → 1.5.0-beta.1, or 1.4.2 → 1.4.3-<id>.0
    Pre {
        /// Commit and tag message
        message: String,
        /// Pre-release identifier; a different one than the current starts
        /// over at .0 (beta.3 → rc.0)
        id: Option<String>,
    },
}

/// The bump of a level, with a pre-release of it opened where one is asked for.
pub open spec fn level_bump(level: Level, pre: Option<Seq<char>>) -> Result<BumpModel, Failure> {
    match pre {
        Some(text) => match pre_id_of(text) {
            Ok(id) => Ok(BumpModel::Start(level, id)),
            Err(failure) => Err(failure),
        },
        None => Ok(BumpModel::Release(level)),
    }
}

/// The next pre-release, under the identifier that is asked for.
pub open spec fn next_bump(id: Option<Seq<char>>) -> Result<BumpModel, Failure> {
    match id {
        Some(text) => match pre_id_of(text) {
            Ok(id) => Ok(BumpModel::Next(Some(id))),
            Err(failure) => Err(failure),
        },
        None => Ok(BumpModel::Next(None)),
    }
}

impl Commands {
    /// The commit and tag message.
    pub open spec fn text(self) -> Seq<char> {
        match self {
            Commands::Major(release) => release.message@,
            Commands::Minor(release) => release.message@,
            Commands::Patch(release) => release.message@,
            Commands::Pre { message, .. } => message@,
        }
    }

    /// The bump that is asked for.
    pub open spec fn bumping(self) -> Result<BumpModel, Failure> {
        match self {
            Commands::Major(release) => level_bump(Level::Major, maybe_text(release.pre)),
            Commands::Minor(release) => level_bump(Level::Minor, maybe_text(release.pre)),
            Commands::Patch(release) => level_bump(Level::Patch, maybe_text(release.pre)),
            Commands::Pre { id, .. } => next_bump(maybe_text(id)),
        }
    }

    /// The commit and tag message.
    pub fn message(&self) -> (message: &str)
        ensures
            message@ == self.text(),
    {
        match self {
            Commands::Major(release) => release.message.as_str(),
            Commands::Minor(release) => release.message.as_str(),
            Commands::Patch(release) => release.message.as_str(),
            Commands::Pre { message, .. } => message.as_str(),
        }
    }

    /// The bump that is asked for.
    pub fn bump(&self) -> (bump: Result<Bump, VersionerError>)
        ensures
            outcome(bump) == self.bumping(),
    {
        let (level, release) = match self {
            Commands::Major(release) => (Level::Major, release),
            Commands::Minor(release) => (Level::Minor, release),
            Commands::Patch(release) => (Level::Patch, release),
            Commands::Pre { id, .. } => {
                return match id {
                    Some(text) => match Identifier::parse_all(text.as_str()) {
                        Ok(id) => Ok(Bump::Next(Some(id))),
                        Err(error) => Err(error),
                    },
                    None => Ok(Bump::Next(None)),
                };
            },
        };
        match &release.pre {
            Some(text) => match Identifier::parse_all(text.as_str()) {
                Ok(id) => Ok(Bump::Start(level, id)),
                Err(error) => Err(error),
            },
            None => Ok(Bump::Release(level)),
        }
    }
}

} // verus!
