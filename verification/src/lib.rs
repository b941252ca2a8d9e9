pub mod ascii;
pub mod asking;
pub mod bumping;
pub mod cli;
pub mod course;
pub mod disk;
pub mod document;
pub mod edit;
pub mod error;
pub mod finding;
pub mod git;
pub mod lockfile;
pub mod locking;
pub mod manifest;
pub mod members;
pub mod order;
pub mod precedence;
pub mod project;
pub mod pushing;
pub mod ranking;
pub mod reading;
pub mod release;
pub mod rollback;
pub mod run;
pub mod scan;
pub mod scanning;
pub mod semver;
pub mod stepping;
pub mod tagging;
pub mod text;
pub mod utf8;
pub mod version;
pub mod wording;
