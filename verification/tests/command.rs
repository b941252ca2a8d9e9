//! What a command asks for.

use versioner::cli::{Commands, Release};
use versioner::error::VersionerError;
use versioner::version::{Bump, Identifier, Level};

fn release(pre: Option<&str>) -> Release {
    Release {
        message: "feat: search".to_owned(),
        pre: pre.map(str::to_owned),
    }
}

fn next(id: Option<&str>) -> Commands {
    Commands::Pre {
        message: "beta".to_owned(),
        id: id.map(str::to_owned),
    }
}

fn id(text: &str) -> Vec<Identifier> {
    Identifier::parse_all(text).unwrap()
}

#[test]
fn every_command_carries_its_message() {
    assert_eq!(Commands::Major(release(None)).message(), "feat: search");
    assert_eq!(Commands::Minor(release(None)).message(), "feat: search");
    assert_eq!(
        Commands::Patch(release(Some("rc"))).message(),
        "feat: search"
    );
    assert_eq!(next(None).message(), "beta");
}

#[test]
fn commands_ask_for_bumps() {
    assert_eq!(
        Commands::Major(release(None)).bump().unwrap(),
        Bump::Release(Level::Major)
    );
    assert_eq!(
        Commands::Minor(release(Some("beta"))).bump().unwrap(),
        Bump::Start(Level::Minor, id("beta"))
    );
    assert_eq!(
        Commands::Patch(release(Some("rc.1"))).bump().unwrap(),
        Bump::Start(Level::Patch, id("rc.1"))
    );
    assert_eq!(next(None).bump().unwrap(), Bump::Next(None));
    assert_eq!(
        next(Some("alpha")).bump().unwrap(),
        Bump::Next(Some(id("alpha")))
    );
}

#[test]
fn commands_refuse_malformed_identifiers() {
    for text in ["b_1", "", "a..b", "01"] {
        assert!(matches!(
            Commands::Minor(release(Some(text))).bump(),
            Err(VersionerError::InvalidPreId(id)) if id == text
        ));
        assert!(matches!(
            next(Some(text)).bump(),
            Err(VersionerError::InvalidPreId(id)) if id == text
        ));
    }
}
