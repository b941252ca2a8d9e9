//! Strings.

use versioner::order::{compare_texts, dedup, sort, Precedence};
use versioner::text::{
    contains, decimal_text, join, same_text, split, strip_prefix, strip_suffix, trim, whitespace,
};

fn list(texts: &[&str]) -> Vec<String> {
    texts.iter().map(|text| (*text).to_owned()).collect()
}

#[test]
fn whitespace_is_what_std_takes_for_it() {
    for character in '\0'..=char::MAX {
        assert_eq!(
            whitespace(character),
            character.is_whitespace(),
            "{character:?}"
        );
    }
}

#[test]
fn trims_as_std_does() {
    for text in ["", " ", "\u{2003}a b\n", "a", "\u{a0}é\u{3000}"] {
        assert_eq!(trim(text), text.trim());
    }
}

#[test]
fn orders_texts_as_std_does() {
    let texts = ["", "a", "ab", "b", "B", "é", "\u{ffff}", "\u{10000}", "-", "_"];

    for left in texts {
        for right in texts {
            let expected = if left < right {
                Precedence::Before
            } else if left == right {
                Precedence::Same
            } else {
                Precedence::After
            };

            assert_eq!(compare_texts(left, right), expected, "{left:?} {right:?}");
            assert_eq!(same_text(left, right), left == right);
        }
    }

    assert_eq!(sort(&list(&["b", "a", "b", ""])), ["", "a", "b", "b"]);
    assert_eq!(dedup(&list(&["a", "a", "b", "a"])), ["a", "b", "a"]);
}

#[test]
fn splits_and_joins() {
    assert_eq!(split("", '.'), [""]);
    assert_eq!(split("a..b.", '.'), ["a", "", "b", ""]);
    assert_eq!(join(&list(&["a", "b", ""]), ", "), "a, b, ");
    assert_eq!(join(&[], ", "), "");
}

#[test]
fn finds_prefixes_suffixes_and_parts() {
    assert_eq!(strip_prefix("package.name", "package.").as_deref(), Some("name"));
    assert_eq!(strip_prefix("pack", "package."), None);
    assert_eq!(strip_suffix("a.lock", ".lock").as_deref(), Some("a"));
    assert_eq!(strip_suffix("lock", ".lock"), None);
    assert!(contains("an editable one", "editable"));
    assert!(contains("x", ""));
    assert!(!contains("edit", "editable"));
}

#[test]
fn writes_numbers() {
    assert_eq!(decimal_text(0), "0");
    assert_eq!(decimal_text(u64::MAX), "18446744073709551615");
}
