//! How versions are written, character by character.

use vstd::prelude::*;

use crate::error::Failure;
use crate::text::{all_digits, decimal, is_digit, joined, split_at_each};
use crate::version::{
    identifier_of, is_build, is_identifier_char, is_identifier_text, lemma_identifier, pre_id_of,
    printed_each, IdentifierModel, VersionModel,
};

verus! {

/// A number below ten is its digit; any other is that of its tens with the
/// digit of what is left behind it.
pub proof fn law_numbers_in_digits(number: nat)
    ensures
        number < 10 ==> decimal(number).len() == 1 && decimal(number)[0] as u32 == 48 + number,
        number >= 10 ==> decimal(number).len() == decimal(number / 10).len() + 1 && decimal(
            number,
        ).drop_last() == decimal(number / 10) && decimal(number).last() as u32 == 48 + number
            % 10,
{
    if number < 10 {
        assert((number + 48) as char as u32 == number + 48);
    } else {
        let rest = number % 10;
        assert((rest + 48) as char as u32 == rest + 48);
        assert(decimal(number).drop_last() =~= decimal(number / 10));
    }
}

/// Whether a character is one of `[0-9A-Za-z-]`.
pub open spec fn is_word_char(character: char) -> bool {
    ||| '0' <= character <= '9'
    ||| 'A' <= character <= 'Z'
    ||| 'a' <= character <= 'z'
    ||| character == '-'
}

/// Whether texts have only characters of `[0-9A-Za-z-]`, with single dots
/// between them and none at an end.
pub open spec fn is_dotted(text: Seq<char>) -> bool {
    &&& text.len() > 0
    &&& forall|i: int|
        0 <= i < text.len() ==> is_word_char(#[trigger] text[i]) || text[i] == '.'
    &&& text[0] != '.' && text.last() != '.'
    &&& forall|i: int|
        0 < i < text.len() ==> !((#[trigger] text[i]) == '.' && text[i - 1] == '.')
}

/// How the parts of a text look that has been split at its dots so far.
proof fn lemma_dotted_so_far(text: Seq<char>)
    ensures
        ({
            let parts = split_at_each(text, '.');
            &&& parts.len() > 0
            &&& parts.last().len() == 0 <==> text.len() == 0 || text.last() == '.'
            &&& (forall|i: int| 0 <= i < parts.len() - 1 ==> is_identifier_text(#[trigger] parts[i]))
                && (forall|j: int|
                0 <= j < parts.last().len() ==> is_identifier_char(#[trigger] parts.last()[j]))
                <==> {
                &&& forall|i: int|
                    0 <= i < text.len() ==> is_word_char(#[trigger] text[i]) || text[i] 
                        == '.'
                &&& text.len() > 0 ==> text[0] != '.'
                &&& forall|i: int|
                    0 < i < text.len() ==> !((#[trigger] text[i]) == '.' && text[i
                        - 1] == '.')
            }
        }),
    decreases text.len(),
{
    let parts = split_at_each(text, '.');
    if text.len() > 0 {
        let fewer = text.drop_last();
        let earlier = split_at_each(fewer, '.');
        let last = text.last();
        lemma_dotted_so_far(fewer);
        let parts_fine = (forall|i: int|
            0 <= i < parts.len() - 1 ==> is_identifier_text(#[trigger] parts[i])) && (forall|
            j: int,
        |
            0 <= j < parts.last().len() ==> is_identifier_char(#[trigger] parts.last()[j]));
        let text_fine = {
            &&& forall|i: int|
                0 <= i < text.len() ==> is_word_char(#[trigger] text[i]) || text[i] == '.'
            &&& text.len() > 0 ==> text[0] != '.'
            &&& forall|i: int|
                0 < i < text.len() ==> !((#[trigger] text[i]) == '.' && text[i - 1] 
                    == '.')
        };
        assert(text[text.len() - 1] == last);
        if fewer.len() > 0 {
            assert(fewer.last() == text[text.len() - 2]);
        }
        if last == '.' {
            assert(parts.drop_last() =~= earlier);
            if parts_fine {
                assert forall|i: int| 0 <= i < earlier.len() - 1 implies is_identifier_text(
                    #[trigger] earlier[i],
                ) by {
                    assert(parts[i] == earlier[i]);
                }
                assert(is_identifier_text(parts[parts.len() - 2]));
                assert(parts[parts.len() - 2] == earlier.last());
                assert forall|i: int| 0 <= i < text.len() implies is_word_char(
                    #[trigger] text[i],
                ) || text[i] == '.' by {
                    if i < fewer.len() {
                        assert(fewer[i] == text[i]);
                    }
                }
                assert(text[0] == fewer[0]);
                assert forall|i: int| 0 < i < text.len() implies !((
                #[trigger] text[i]) == '.' && text[i - 1] == '.') by {
                    if i < fewer.len() {
                        assert(fewer[i] == text[i] && fewer[i - 1] == text[i - 1]);
                    }
                }
            }
            if text_fine {
                lemma_text_fine(text);
                assert(fewer.len() > 0);
                assert(earlier.last().len() > 0);
                assert forall|i: int| 0 <= i < parts.len() - 1 implies is_identifier_text(
                    #[trigger] parts[i],
                ) by {
                    assert(parts[i] == earlier[i]);
                }
            }
        } else {
            let longer = earlier.last().push(last);
            assert(parts.drop_last() =~= earlier.drop_last());
            assert(parts.last() == longer);
            assert(is_identifier_char(last) <==> is_word_char(last));
            if parts_fine {
                assert(longer[longer.len() - 1] == last);
                assert(is_identifier_char(parts.last()[longer.len() - 1]));
                assert forall|i: int| 0 <= i < earlier.len() - 1 implies is_identifier_text(
                    #[trigger] earlier[i],
                ) by {
                    assert(parts[i] == earlier[i]);
                }
                assert forall|j: int| 0 <= j < earlier.last().len() implies is_identifier_char(
                    #[trigger] earlier.last()[j],
                ) by {
                    assert(parts.last()[j] == earlier.last()[j]);
                }
                assert forall|i: int| 0 <= i < text.len() implies is_word_char(
                    #[trigger] text[i],
                ) || text[i] == '.' by {
                    if i < fewer.len() {
                        assert(fewer[i] == text[i]);
                    }
                }
                if fewer.len() > 0 {
                    assert(text[0] == fewer[0]);
                }
                assert forall|i: int| 0 < i < text.len() implies !((
                #[trigger] text[i]) == '.' && text[i - 1] == '.') by {
                    if i < fewer.len() {
                        assert(fewer[i] == text[i] && fewer[i - 1] == text[i - 1]);
                    }
                }
            }
            if text_fine {
                lemma_text_fine(text);
                assert(is_word_char(text[text.len() - 1]));
                assert forall|i: int| 0 <= i < parts.len() - 1 implies is_identifier_text(
                    #[trigger] parts[i],
                ) by {
                    assert(parts[i] == earlier[i]);
                }
                assert forall|j: int| 0 <= j < parts.last().len() implies is_identifier_char(
                    #[trigger] parts.last()[j],
                ) by {
                    if j < earlier.last().len() {
                        assert(parts.last()[j] == earlier.last()[j]);
                    }
                }
            }
        }
    }
}

/// What holds of a text holds of it without its last character.
proof fn lemma_text_fine(text: Seq<char>)
    requires
        text.len() > 0,
        forall|i: int|
            0 <= i < text.len() ==> is_word_char(#[trigger] text[i]) || text[i] == '.',
        text[0] != '.',
        forall|i: int|
            0 < i < text.len() ==> !((#[trigger] text[i]) == '.' && text[i - 1] 
                == '.'),
    ensures
        ({
            let fewer = text.drop_last();
            &&& forall|i: int|
                0 <= i < fewer.len() ==> is_word_char(#[trigger] fewer[i]) || fewer[i] 
                    == '.'
            &&& fewer.len() > 0 ==> fewer[0] != '.'
            &&& forall|i: int|
                0 < i < fewer.len() ==> !((#[trigger] fewer[i]) == '.' && fewer[i
                    - 1] == '.')
        }),
{
    let fewer = text.drop_last();
    assert forall|i: int| 0 <= i < fewer.len() implies is_word_char(#[trigger] fewer[i])
        || fewer[i] == '.' by {
        assert(fewer[i] == text[i]);
    }
    assert forall|i: int| 0 < i < fewer.len() implies !((#[trigger] fewer[i]) == '.'
        && fewer[i - 1] == '.') by {
        assert(fewer[i] == text[i] && fewer[i - 1] == text[i - 1]);
    }
}

/// Build metadata is words of `[0-9A-Za-z-]` with single dots between them.
pub proof fn law_build_metadata(build: Seq<char>)
    ensures
        is_build(build) <==> is_dotted(build),
{
    lemma_dotted_so_far(build);
    let parts = split_at_each(build, '.');
    if is_build(build) {
        assert(is_identifier_text(parts[parts.len() - 1]));
        assert(build.last() != '.');
        assert(is_dotted(build));
    }
    if is_dotted(build) {
        assert forall|i: int| 0 <= i < parts.len() implies is_identifier_text(
            #[trigger] parts[i],
        ) by {
            if i == parts.len() - 1 {
                assert(parts[i] == parts.last());
            }
        }
    }
}

/// A version is valid exactly where its texts are words: an identifier that is
/// no number has at least one character of `[A-Za-z-]` and else digits, and
/// build metadata is words with single dots between them.
pub proof fn law_valid_versions(version: VersionModel)
    ensures
        version.valid() <==> {
            &&& forall|i: int|
                0 <= i < version.pre.len() ==> ((
                #[trigger] version.pre[i]) matches IdentifierModel::Alpha(text) ==> (forall|
                    j: int,
                |
                    0 <= j < text.len() ==> is_word_char(#[trigger] text[j])) && exists|j: int|
                    0 <= j < text.len() && !('0' <= #[trigger] text[j] <= '9'))
            &&& version.build matches Some(build) ==> is_dotted(build)
        },
{
    if let Some(build) = version.build {
        law_build_metadata(build);
    }
    assert forall|i: int| 0 <= i < version.pre.len() implies ((
    #[trigger] version.pre[i]).valid() <==> (version.pre[i] matches IdentifierModel::Alpha(text)
        ==> (forall|j: int| 0 <= j < text.len() ==> is_word_char(#[trigger] text[j])) && exists|
        j: int,
    |
        0 <= j < text.len() && !('0' <= #[trigger] text[j] <= '9'))) by {
        if let IdentifierModel::Alpha(text) = version.pre[i] {
            if version.pre[i].valid() {
                assert forall|j: int| 0 <= j < text.len() implies is_word_char(
                    #[trigger] text[j],
                ) by {
                    assert(is_identifier_char(text[j]));
                }
            } else if (forall|j: int| 0 <= j < text.len() ==> is_word_char(#[trigger] text[j]))
                && exists|j: int|
                0 <= j < text.len() && !('0' <= #[trigger] text[j] <= '9') {
                let k = choose|j: int|
                    0 <= j < text.len() && !('0' <= #[trigger] text[j] <= '9');
                assert(!is_digit(text[k]));
                assert forall|j: int| 0 <= j < text.len() implies is_identifier_char(
                    #[trigger] text[j],
                ) by {
                    assert(is_word_char(text[j]));
                }
            }
        }
    }
}

/// A release is its three numbers with dots between them.
pub proof fn law_releases_are_three_numbers(version: VersionModel)
    requires
        version.pre.len() == 0,
        version.build is None,
    ensures
        version.printed() == decimal(version.major as nat) + seq!['.'] + decimal(
            version.minor as nat,
        ) + seq!['.'] + decimal(version.patch as nat),
{
}

/// A pre-release follows behind a `-`, and each further identifier behind a dot.
pub proof fn law_pre_releases_follow(version: VersionModel, longer: VersionModel)
    requires
        version.build is None,
        longer.build is None,
        longer.major == version.major,
        longer.minor == version.minor,
        longer.patch == version.patch,
        longer.pre.len() == version.pre.len() + 1,
        longer.pre.drop_last() == version.pre,
    ensures
        longer.printed() == version.printed() + seq![
            if version.pre.len() == 0 {
                '-'
            } else {
                '.'
            },
        ] + (match longer.pre.last() {
            IdentifierModel::Numeric(number) => decimal(number as nat),
            IdentifierModel::Alpha(text) => text,
        }),
{
    let parts = printed_each(longer.pre);
    assert(parts.drop_last() =~= printed_each(version.pre));
    assert(parts.last() == longer.pre.last().printed());
    assert(longer.printed_core() == version.printed_core());
    if version.pre.len() == 0 {
        assert(joined(parts, seq!['.']) == parts[0]);
    } else {
        assert(joined(parts, seq!['.']) == joined(printed_each(version.pre), seq!['.'])
            + seq!['.'] + parts.last());
        assert(longer.printed() =~= version.printed() + seq!['.'] + parts.last());
    }
}

/// Build metadata follows behind a `+`.
pub proof fn law_build_metadata_follows(version: VersionModel, built: VersionModel)
    requires
        version.build is None,
        built.build is Some,
        built.major == version.major,
        built.minor == version.minor,
        built.patch == version.patch,
        built.pre == version.pre,
    ensures
        built.printed() == version.printed() + seq!['+'] + built.build->0,
{
}

/// A list of identifiers is read exactly where it is words of `[0-9A-Za-z-]`
/// with single dots between them, and no word of digits only starts with a 0
/// and goes on, or is too large.
pub proof fn law_identifiers_are_read(text: Seq<char>)
    ensures
        match pre_id_of(text) {
            Ok(identifiers) => {
                &&& is_dotted(text)
                &&& identifiers.len() == split_at_each(text, '.').len()
                &&& forall|i: int|
                    0 <= i < identifiers.len() ==> ({
                        let part = split_at_each(text, '.')[i];
                        match #[trigger] identifiers[i] {
                            IdentifierModel::Alpha(word) => word == part && exists|j: int|
                                0 <= j < part.len() && !('0' <= #[trigger] part[j] <= '9'),
                            IdentifierModel::Numeric(number) => part == decimal(number as nat),
                        }
                    })
            },
            Err(failure) => failure == Failure::InvalidPreId(text),
        },
        is_dotted(text) && (forall|i: int|
            0 <= i < split_at_each(text, '.').len() ==> ({
                let part = #[trigger] split_at_each(text, '.')[i];
                (exists|j: int| 0 <= j < part.len() && !('0' <= #[trigger] part[j] <= '9'))
                    || (exists|number: u64| part == #[trigger] decimal(number as nat))
            })) ==> pre_id_of(text) is Ok,
{
    let parts = split_at_each(text, '.');
    law_build_metadata(text);
    if let Ok(identifiers) = pre_id_of(text) {
        assert forall|i: int| 0 <= i < parts.len() implies is_identifier_text(
            #[trigger] parts[i],
        ) by {
            assert(identifier_of(parts[i]) is Some);
        }
        assert forall|i: int| 0 <= i < identifiers.len() implies ({
            let part = split_at_each(text, '.')[i];
            match #[trigger] identifiers[i] {
                IdentifierModel::Alpha(word) => word == part && exists|j: int|
                    0 <= j < part.len() && !('0' <= #[trigger] part[j] <= '9'),
                IdentifierModel::Numeric(number) => part == decimal(number as nat),
            }
        }) by {
            assert(identifier_of(parts[i]) is Some);
            lemma_identifier(parts[i], identifiers[i]);
            if let IdentifierModel::Alpha(word) = identifiers[i] {
                assert(!all_digits(word));
                let j = choose|j: int|
                    0 <= j < word.len() && !is_digit(#[trigger] word[j]);
                assert(!('0' <= parts[i][j] <= '9'));
            }
        }
    }
    if is_dotted(text) && (forall|i: int|
        0 <= i < parts.len() ==> ({
            let part = #[trigger] parts[i];
            (exists|j: int| 0 <= j < part.len() && !('0' <= #[trigger] part[j] <= '9')) || (
            exists|number: u64| part == #[trigger] decimal(number as nat))
        })) {
        assert forall|i: int| 0 <= i < parts.len() implies identifier_of(
            #[trigger] parts[i],
        ) is Some by {
            let part = parts[i];
            assert(is_identifier_text(part));
            if exists|j: int| 0 <= j < part.len() && !('0' <= #[trigger] part[j] <= '9') {
                let j = choose|j: int|
                    0 <= j < part.len() && !('0' <= #[trigger] part[j] <= '9');
                assert(!is_digit(part[j]));
            } else {
                let number = choose|number: u64| part == #[trigger] decimal(number as nat);
                lemma_identifier(part, IdentifierModel::Numeric(number));
            }
        }
    }
}

} // verus!
