//! Reading, printing, ordering and bumping versions.

use versioner::error::VersionerError;
use versioner::version::{Bump, Identifier, Level, Version};

fn v(text: &str) -> Version {
    Version::parse(text).unwrap()
}

fn bumped(from: &str, bump: Bump) -> String {
    v(from).bump(&bump).unwrap().to_string()
}

fn id(text: &str) -> Vec<Identifier> {
    Identifier::parse_all(text).unwrap()
}

#[test]
fn parses_a_semver_string() {
    assert_eq!(v("10.20.30").to_string(), "10.20.30");
    assert_eq!(v("0.0.0").to_string(), "0.0.0");
}

#[test]
fn parses_pre_release_and_build_metadata() {
    assert_eq!(v("1.0.0-beta.2").to_string(), "1.0.0-beta.2");
    assert_eq!(
        v("1.0.0-rc.1+sha.5114f85").to_string(),
        "1.0.0-rc.1+sha.5114f85"
    );
    assert_eq!(v("1.0.0+20260925").to_string(), "1.0.0+20260925");
}

#[test]
fn rejects_what_semver_rejects() {
    for text in [
        "1.2",
        "1.2.3.4",
        "01.2.3",
        "1.2.3-",
        "1.2.3-01",
        "1.2.3-a..b",
        "v1.2.3",
        "",
    ] {
        assert!(Version::parse(text).is_err(), "{text} should be rejected");
    }
}

#[test]
fn rejects_components_that_overflow() {
    assert!(Version::parse("99999999999999999999.0.0").is_err());
}

#[test]
fn major_bump_resets_minor_and_patch() {
    assert_eq!(bumped("1.2.3", Bump::Release(Level::Major)), "2.0.0");
}

#[test]
fn minor_bump_resets_patch_and_keeps_major() {
    assert_eq!(bumped("1.2.3", Bump::Release(Level::Minor)), "1.3.0");
}

#[test]
fn patch_bump_keeps_major_and_minor() {
    assert_eq!(bumped("1.2.3", Bump::Release(Level::Patch)), "1.2.4");
}

#[test]
fn a_bump_drops_build_metadata() {
    assert_eq!(
        bumped("1.2.3+build.7", Bump::Release(Level::Patch)),
        "1.2.4"
    );
}

#[test]
fn a_release_bump_finalizes_a_matching_pre_release() {
    assert_eq!(bumped("2.0.0-rc.1", Bump::Release(Level::Major)), "2.0.0");
    assert_eq!(bumped("1.3.0-beta.0", Bump::Release(Level::Minor)), "1.3.0");
    assert_eq!(bumped("1.2.4-0", Bump::Release(Level::Patch)), "1.2.4");
}

#[test]
fn a_release_bump_moves_past_a_lower_level_pre_release() {
    assert_eq!(bumped("1.3.1-rc.0", Bump::Release(Level::Minor)), "1.4.0");
    assert_eq!(bumped("1.3.0-rc.0", Bump::Release(Level::Major)), "2.0.0");
}

#[test]
fn starting_a_pre_release_bumps_first() {
    assert_eq!(
        bumped("1.2.3", Bump::Start(Level::Major, id("rc"))),
        "2.0.0-rc.0"
    );
    assert_eq!(
        bumped("1.2.3", Bump::Start(Level::Minor, id("beta"))),
        "1.3.0-beta.0"
    );
    assert_eq!(
        bumped("1.2.3", Bump::Start(Level::Patch, vec![])),
        "1.2.4-0"
    );
}

#[test]
fn next_continues_the_current_pre_release() {
    assert_eq!(bumped("1.3.0-beta.0", Bump::Next(None)), "1.3.0-beta.1");
    assert_eq!(
        bumped("1.3.0-beta.9", Bump::Next(Some(id("beta")))),
        "1.3.0-beta.10"
    );
    assert_eq!(bumped("1.3.0-beta", Bump::Next(None)), "1.3.0-beta.0");
    assert_eq!(bumped("1.3.0-beta.1.x", Bump::Next(None)), "1.3.0-beta.2.x");
}

#[test]
fn next_switches_to_a_new_identifier_on_the_same_release() {
    assert_eq!(
        bumped("1.3.0-beta.4", Bump::Next(Some(id("rc")))),
        "1.3.0-rc.0"
    );
}

#[test]
fn next_opens_a_pre_release_on_the_next_patch() {
    assert_eq!(
        bumped("1.2.3", Bump::Next(Some(id("alpha")))),
        "1.2.4-alpha.0"
    );
    assert_eq!(bumped("1.2.3", Bump::Next(None)), "1.2.4-0");
}

#[test]
fn release_bumps_always_move_forward() {
    for from in ["1.2.3", "1.3.0-beta.1", "2.0.0-rc.0", "0.0.0"] {
        for level in [Level::Major, Level::Minor, Level::Patch] {
            let current = v(from);
            assert!(current < current.bump(&Bump::Release(level)).unwrap());
        }
    }
}

#[test]
fn detects_overflow_instead_of_wrapping() {
    let max = format!("{}.0.0", u64::MAX);

    assert!(matches!(
        v(&max).bump(&Bump::Release(Level::Major)),
        Err(VersionerError::VersionOverflow)
    ));
}

#[test]
fn orders_by_component_not_lexically() {
    assert!(v("1.2.3") < v("1.10.0"));
    assert!(v("2.0.0") > v("1.99.99"));
}

#[test]
fn orders_pre_releases_as_semver_specifies() {
    let ordered = [
        "1.0.0-alpha",
        "1.0.0-alpha.1",
        "1.0.0-alpha.beta",
        "1.0.0-beta",
        "1.0.0-beta.2",
        "1.0.0-beta.11",
        "1.0.0-rc.1",
        "1.0.0",
    ];

    for pair in ordered.windows(2) {
        assert!(v(pair[0]) < v(pair[1]), "{} < {}", pair[0], pair[1]);
    }
}

#[test]
fn ignores_build_metadata_when_comparing() {
    assert_eq!(v("1.0.0+a"), v("1.0.0+b"));
}

#[test]
fn validates_pre_release_identifiers() {
    assert_eq!(
        id("rc.1"),
        [Identifier::Alpha("rc".into()), Identifier::Numeric(1)]
    );

    for text in ["", "beta..1", "be ta", "01", "ß"] {
        assert!(
            Identifier::parse_all(text).is_err(),
            "{text:?} should be rejected"
        );
    }
}

#[test]
fn every_two_versions_compare_one_way() {
    let ordered = ["0.9.9", "1.0.0-0", "1.0.0-1.a", "1.0.0-a", "1.0.0", "1.0.1-a"];

    for (left, one) in ordered.iter().enumerate() {
        for (right, other) in ordered.iter().enumerate() {
            assert_eq!(v(one) < v(other), left < right, "{one} < {other}");
            assert_eq!(v(one) == v(other), left == right, "{one} == {other}");
            assert_eq!(v(one) > v(other), left > right, "{one} > {other}");
        }
    }
}

#[test]
fn only_another_identifier_can_move_backwards() {
    assert_eq!(
        bumped("1.5.0-beta.3", Bump::Next(Some(id("alpha")))),
        "1.5.0-alpha.0"
    );
    assert!(v("1.5.0-alpha.0") < v("1.5.0-beta.3"));

    for from in ["1.4.2", "1.5.0-beta.3", "0.0.0-0", "1.0.0-a+b"] {
        for bump in [
            Bump::Release(Level::Major),
            Bump::Release(Level::Minor),
            Bump::Release(Level::Patch),
            Bump::Start(Level::Patch, id("a")),
            Bump::Next(None),
        ] {
            assert!(v(from).bump(&bump).unwrap() > v(from), "{bump:?} of {from}");
        }
    }
}

#[test]
fn a_pre_release_that_is_started_leads_to_its_release() {
    for level in [Level::Major, Level::Minor, Level::Patch] {
        let released = bumped("1.4.2", Bump::Release(level));
        let started = bumped("1.4.2", Bump::Start(level, id("beta")));

        assert_eq!(started, format!("{released}-beta.0"));
        assert!(v(&started) < v(&released));
        assert_eq!(bumped(&started, Bump::Release(level)), released);
    }
}

#[test]
fn prints_what_it_parses() {
    for text in ["0.0.0", "1.2.3-0.a-b.x1", "1.2.3-a+001.-", "18446744073709551615.0.1"] {
        assert_eq!(v(text).to_string(), text);
    }
}
