//! How JSON and TOML text is taken apart, byte for byte.

use vstd::prelude::*;
use vstd::string::*;

use crate::document::json_text;
use crate::scan::{in_json, in_toml};
use crate::text::is_whitespace;
use crate::utf8::text_between;

verus! {

/// Whether `part` stands in `bytes` at `at`.
pub open spec fn stands_in(bytes: Seq<u8>, at: int, part: Seq<u8>) -> bool {
    0 <= at && at + part.len() <= bytes.len() && bytes.subrange(at, at + part.len()) == part
}

/// Characters of a string in double quotes: each a byte that is neither a quote
/// nor a backslash, or a backslash with the byte behind it.
pub open spec fn is_escaped(units: Seq<Seq<u8>>) -> bool {
    forall|i: int|
        0 <= i < units.len() ==> {
            ||| (#[trigger] units[i]).len() == 1 && units[i][0] != 34u8 && units[i][0] != 92u8
            ||| units[i].len() == 2 && units[i][0] == 92u8
        }
}

/// Characters one after the other.
pub open spec fn written_units(units: Seq<Seq<u8>>) -> Seq<u8>
    decreases units.len(),
{
    if units.len() == 0 {
        Seq::empty()
    } else {
        units[0] + written_units(units.drop_first())
    }
}

proof fn lemma_units(bytes: Seq<u8>, at: int, units: Seq<Seq<u8>>)
    requires
        units.len() > 0,
        stands_in(bytes, at, written_units(units)),
    ensures
        stands_in(bytes, at, units[0]),
        stands_in(bytes, at + units[0].len(), written_units(units.drop_first())),
        units[0].len() > 0 ==> bytes[at] == units[0][0],
{
    let whole = written_units(units);
    let first = units[0];
    let rest = written_units(units.drop_first());
    let middle = at + first.len();
    assert forall|i: int| 0 <= i < first.len() implies bytes[at + i] == first[i] by {
        assert(bytes.subrange(at, at + whole.len())[i] == whole[i]);
    }
    assert(bytes.subrange(at, middle) =~= first);
    assert forall|i: int| 0 <= i < rest.len() implies bytes[middle + i] == rest[i] by {
        assert(bytes.subrange(at, at + whole.len())[first.len() + i] == whole[first.len() + i]);
    }
    assert(bytes.subrange(middle, middle + rest.len()) =~= rest);
}

// ---------------------------------------------------------------------------
// JSON

/// A JSON string ends at the first quote that is not escaped. It has no end
/// where the text ends first.
pub proof fn law_json_strings(bytes: Seq<u8>, at: int, units: Seq<Seq<u8>>)
    requires
        is_escaped(units),
        stands_in(bytes, at, written_units(units)),
    ensures
        ({
            let end = at + written_units(units).len();
            &&& end < bytes.len() && bytes[end] == 34u8 ==> in_json::closing_quote(bytes, at)
                == Some(end)
            &&& end == bytes.len() ==> in_json::closing_quote(bytes, at) is None
            &&& end + 1 == bytes.len() && bytes[end] == 92u8 ==> in_json::closing_quote(bytes, at)
                is None
        }),
    decreases units.len(),
{
    if units.len() > 0 {
        lemma_units(bytes, at, units);
        let rest = units.drop_first();
        assert forall|i: int| 0 <= i < rest.len() implies {
            ||| (#[trigger] rest[i]).len() == 1 && rest[i][0] != 34u8 && rest[i][0] != 92u8
            ||| rest[i].len() == 2 && rest[i][0] == 92u8
        } by {
            assert(rest[i] == units[i + 1]);
        }
        law_json_strings(bytes, at + units[0].len(), rest);
    } else if at + 1 == bytes.len() && bytes[at] == 92u8 {
        assert(in_json::closing_quote(bytes, at + 2) is None);
    }
}

/// What the bytes between JSON values are.
pub proof fn law_json_bytes(byte: u8)
    ensures
        in_json::is_space(byte) <==> byte == 32u8 || byte == 9u8 || byte == 10u8 || byte == 13u8,
        in_json::opens(byte) <==> byte == 123u8 || byte == 91u8,
        in_json::closes(byte) <==> byte == 125u8 || byte == 93u8,
        in_json::ends_scalar(byte) <==> byte == 44u8 || byte == 125u8 || byte == 93u8 || byte
            == 32u8 || byte == 9u8 || byte == 10u8 || byte == 13u8,
{
}

/// JSON whitespace is passed over up to the first other byte.
pub proof fn law_json_blanks(bytes: Seq<u8>, from: int)
    requires
        0 <= from <= bytes.len(),
    ensures
        ({
            let end = in_json::spaces_end(bytes, from);
            &&& from <= end <= bytes.len()
            &&& forall|i: int|
                from <= i < end ==> (#[trigger] bytes[i]) == 32u8 || bytes[i] == 9u8 || bytes[i]
                    == 10u8 || bytes[i] == 13u8
            &&& end < bytes.len() ==> bytes[end] != 32u8 && bytes[end] != 9u8 && bytes[end]
                != 10u8 && bytes[end] != 13u8
        }),
{
    in_json::lemma_spaces_end(bytes, from);
}

/// Brackets of either kind count up and down outside strings, and the one that
/// brings the count to nothing ends the value.
pub proof fn law_json_brackets(bytes: Seq<u8>, at: int, depth: int)
    requires
        0 <= at < bytes.len(),
        depth > 0,
    ensures
        ({
            let end = in_json::brackets_end(bytes, at, depth);
            let byte = bytes[at];
            &&& byte == 123u8 || byte == 91u8 ==> end == in_json::brackets_end(
                bytes,
                at + 1,
                depth + 1,
            )
            &&& (byte == 125u8 || byte == 93u8) && depth > 1 ==> end == in_json::brackets_end(
                bytes,
                at + 1,
                depth - 1,
            )
            &&& (byte == 125u8 || byte == 93u8) && depth == 1 ==> end == Some(at + 1)
            &&& byte == 34u8 ==> match in_json::closing_quote(bytes, at + 1) {
                Some(quote) => end == in_json::brackets_end(bytes, quote + 1, depth),
                None => end is None,
            }
            &&& byte != 123u8 && byte != 91u8 && byte != 125u8 && byte != 93u8 && byte != 34u8
                ==> end == in_json::brackets_end(bytes, at + 1, depth)
        }),
        in_json::brackets_end(bytes, bytes.len() as int, depth) is None,
{
}

/// Of the members of an object the first of the name counts. One that is named
/// otherwise is passed over with its value and the comma behind it.
pub proof fn law_json_members(bytes: Seq<u8>, at: int, quote: int, key: Seq<char>, name: Seq<char>)
    requires
        0 <= at < bytes.len(),
        bytes[at] == 34u8,
        in_json::closing_quote(bytes, at + 1) == Some(quote),
        json_text(text_between(bytes, at, quote + 1)) == Some(name),
    ensures
        ({
            let colon = in_json::spaces_end(bytes, quote + 1);
            let value = in_json::spaces_end(bytes, colon + 1);
            let found = in_json::member_from(bytes, at, key);
            if !(colon < bytes.len() && bytes[colon] == 58u8) {
                found is None
            } else if name == key {
                found == Some(value)
            } else {
                match in_json::value_end(bytes, value) {
                    None => found is None,
                    Some(end) => {
                        let comma = in_json::spaces_end(bytes, end);
                        let next = if comma < bytes.len() && bytes[comma] == 44u8 {
                            in_json::spaces_end(bytes, comma + 1)
                        } else {
                            comma
                        };
                        found == in_json::member_from(bytes, next, key)
                    },
                }
            }
        }),
{
    in_json::lemma_closing_quote(bytes, at + 1);
    in_json::lemma_spaces_end(bytes, quote + 1);
    let colon = in_json::spaces_end(bytes, quote + 1);
    if colon < bytes.len() {
        in_json::lemma_spaces_end(bytes, colon + 1);
        let value = in_json::spaces_end(bytes, colon + 1);
        in_json::lemma_value_end(bytes, value);
        if let Some(end) = in_json::value_end(bytes, value) {
            in_json::lemma_spaces_end(bytes, end);
        }
    }
}

/// A path of keys leads from the top-level object into one object after the
/// other, and to the contents of the string at its end.
pub proof fn law_json_paths(bytes: Seq<u8>, open: int, path: Seq<Seq<char>>, key: Seq<char>)
    ensures
        in_json::value_at(bytes, open, Seq::empty()) == Some(open),
        match in_json::value_at(bytes, open, path) {
            None => in_json::value_at(bytes, open, path.push(key)) is None,
            Some(object) => in_json::value_at(bytes, open, path.push(key)) == if 0 <= object
                < bytes.len() && bytes[object] == 123u8 {
                in_json::member_from(bytes, in_json::spaces_end(bytes, object + 1), key)
            } else {
                None
            },
        },
        in_json::contents_at(bytes, path) matches Some((start, end)) ==> path.len() > 0
            && in_json::value_at(bytes, in_json::spaces_end(bytes, 0), path) == Some(start - 1)
            && bytes[start - 1] == 34u8 && in_json::closing_quote(bytes, start) == Some(end),
        in_json::contents_at(bytes, path) is None && path.len() > 0 ==> (in_json::value_at(
            bytes,
            in_json::spaces_end(bytes, 0),
            path,
        ) matches Some(value) ==> !(0 <= value < bytes.len() && bytes[value] == 34u8
            && in_json::closing_quote(bytes, value + 1) is Some)),
{
    assert(path.push(key).drop_last() =~= path);
}

/// A JSON value is a string, whatever brackets enclose, or what comes before
/// the next comma, closing bracket or blank.
pub proof fn law_json_values(bytes: Seq<u8>, start: int, end: int)
    requires
        0 <= start < bytes.len(),
    ensures
        bytes[start] == 34u8 ==> match in_json::closing_quote(bytes, start + 1) {
            Some(quote) => in_json::value_end(bytes, start) == Some(quote + 1),
            None => in_json::value_end(bytes, start) is None,
        },
        bytes[start] == 123u8 || bytes[start] == 91u8 ==> in_json::value_end(bytes, start)
            == in_json::brackets_end(bytes, start + 1, 1),
        bytes[start] != 34u8 && bytes[start] != 123u8 && bytes[start] != 91u8 && start <= end
            <= bytes.len() && (forall|i: int|
            start <= i < end ==> !in_json::ends_scalar(#[trigger] bytes[i])) && (end < bytes.len()
            ==> in_json::ends_scalar(bytes[end])) ==> in_json::value_end(bytes, start) == Some(
            end,
        ),
{
    if start <= end <= bytes.len() && (forall|i: int|
        start <= i < end ==> !in_json::ends_scalar(#[trigger] bytes[i])) && (end < bytes.len()
        ==> in_json::ends_scalar(bytes[end])) {
        lemma_scalar(bytes, start, end);
    }
}

proof fn lemma_scalar(bytes: Seq<u8>, at: int, end: int)
    requires
        0 <= at <= end <= bytes.len(),
        forall|i: int| at <= i < end ==> !in_json::ends_scalar(#[trigger] bytes[i]),
        end < bytes.len() ==> in_json::ends_scalar(bytes[end]),
    ensures
        in_json::scalar_end(bytes, at) == end,
    decreases end - at,
{
    if at < end {
        assert(!in_json::ends_scalar(bytes[at]));
        lemma_scalar(bytes, at + 1, end);
    }
}

/// What does not start with a name in quotes is no member.
pub proof fn law_json_no_members(bytes: Seq<u8>, at: int, key: Seq<char>)
    ensures
        !(0 <= at < bytes.len() && bytes[at] == 34u8) ==> in_json::member_from(bytes, at, key)
            is None,
        0 <= at < bytes.len() && in_json::closing_quote(bytes, at + 1) is None
            ==> in_json::member_from(bytes, at, key) is None,
{
}

// ---------------------------------------------------------------------------
// TOML

/// A TOML string in double quotes ends behind the first quote that is not
/// escaped. Without one it ends with its line.
pub proof fn law_toml_strings(bytes: Seq<u8>, at: int, units: Seq<Seq<u8>>)
    requires
        is_escaped(units),
        forall|i: int| 0 <= i < units.len() ==> (#[trigger] units[i])[0] != 10u8,
        stands_in(bytes, at, written_units(units)),
    ensures
        ({
            let end = at + written_units(units).len();
            &&& end < bytes.len() && bytes[end] == 34u8 ==> in_toml::single_end(bytes, at, 34u8)
                == end + 1
            &&& end < bytes.len() && bytes[end] == 10u8 ==> in_toml::single_end(bytes, at, 34u8)
                == end
            &&& end == bytes.len() ==> in_toml::single_end(bytes, at, 34u8) == end
        }),
    decreases units.len(),
{
    if units.len() > 0 {
        lemma_units(bytes, at, units);
        let rest = units.drop_first();
        assert(units[0][0] != 10u8);
        assert forall|i: int| 0 <= i < rest.len() implies ({
            ||| (#[trigger] rest[i]).len() == 1 && rest[i][0] != 34u8 && rest[i][0] != 92u8
            ||| rest[i].len() == 2 && rest[i][0] == 92u8
        }) && rest[i][0] != 10u8 by {
            assert(rest[i] == units[i + 1]);
        }
        law_toml_strings(bytes, at + units[0].len(), rest);
    }
}

/// A TOML string in single quotes ends behind the next one, and a backslash
/// means nothing in it. Without one it ends with its line.
pub proof fn law_toml_literal_strings(bytes: Seq<u8>, at: int, end: int)
    requires
        0 <= at <= end <= bytes.len(),
        forall|i: int| at <= i < end ==> (#[trigger] bytes[i]) != 39u8 && bytes[i] != 10u8,
    ensures
        end < bytes.len() && bytes[end] == 39u8 ==> in_toml::single_end(bytes, at, 39u8) == end + 1,
        end < bytes.len() && bytes[end] == 10u8 ==> in_toml::single_end(bytes, at, 39u8) == end,
        end == bytes.len() ==> in_toml::single_end(bytes, at, 39u8) == end,
    decreases end - at,
{
    if at < end {
        assert(bytes[at] != 39u8 && bytes[at] != 10u8);
        law_toml_literal_strings(bytes, at + 1, end);
    }
}

/// A string over several lines ends behind the first run of three quotes, or of
/// four or five, of which the last three close it. A backslash takes the byte
/// behind it along, in double quotes only.
pub proof fn law_toml_long_strings(bytes: Seq<u8>, at: int, quote: u8)
    requires
        0 <= at < bytes.len(),
        quote == 34u8 || quote == 39u8,
    ensures
        ({
            let end = in_toml::triple_end(bytes, at, quote);
            let three = at + 3 <= bytes.len() && bytes[at] == quote && bytes[at + 1] == quote
                && bytes[at + 2] == quote;
            let fourth = at + 3 < bytes.len() && bytes[at + 3] == quote;
            let fifth = fourth && at + 4 < bytes.len() && bytes[at + 4] == quote;
            &&& quote == 34u8 && bytes[at] == 92u8 ==> end == in_toml::triple_end(
                bytes,
                at + 2,
                quote,
            )
            &&& three ==> end == at + if fifth {
                5int
            } else if fourth {
                4int
            } else {
                3int
            }
            &&& !three && !(quote == 34u8 && bytes[at] == 92u8) ==> end == in_toml::triple_end(
                bytes,
                at + 1,
                quote,
            )
        }),
        in_toml::triple_end(bytes, bytes.len() as int, quote) == bytes.len(),
{
}

/// Three quotes open a string over several lines, one or two do not.
pub proof fn law_toml_quotes(bytes: Seq<u8>, start: int)
    requires
        0 <= start < bytes.len(),
        bytes[start] == 34u8 || bytes[start] == 39u8,
    ensures
        ({
            let quote = bytes[start];
            let three = start + 3 <= bytes.len() && bytes[start + 1] == quote && bytes[start + 2]
                == quote;
            let end = in_toml::value_end(bytes, start);
            &&& three ==> end == in_toml::triple_end(bytes, start + 3, quote)
            &&& three ==> in_toml::quoted(bytes, start, end) is None
            &&& !three ==> end == in_toml::single_end(bytes, start + 1, quote)
            &&& !three && end >= start + 2 && bytes[end - 1] == quote ==> in_toml::quoted(
                bytes,
                start,
                end,
            ) == Some((start + 1, end - 1))
            &&& end < start + 2 || bytes[end - 1] != quote ==> in_toml::quoted(bytes, start, end)
                is None
        }),
{
}

/// A value that is no string and opens no bracket ends with its line or before
/// a comment, and is no string.
pub proof fn law_toml_bare_values(bytes: Seq<u8>, start: int, end: int)
    requires
        0 <= start <= end <= bytes.len(),
        forall|i: int|
            start <= i < end ==> (#[trigger] bytes[i]) != 10u8 && bytes[i] != 13u8 && bytes[i]
                != 35u8,
        end < bytes.len() ==> bytes[end] == 10u8 || bytes[end] == 13u8 || bytes[end] == 35u8,
        start < bytes.len() ==> bytes[start] != 34u8 && bytes[start] != 39u8 && bytes[start]
            != 91u8 && bytes[start] != 123u8,
    ensures
        in_toml::value_end(bytes, start) == end,
        in_toml::quoted(bytes, start, end) is None,
{
    lemma_bare(bytes, start, end);
}

proof fn lemma_bare(bytes: Seq<u8>, at: int, end: int)
    requires
        0 <= at <= end <= bytes.len(),
        forall|i: int|
            at <= i < end ==> (#[trigger] bytes[i]) != 10u8 && bytes[i] != 13u8 && bytes[i]
                != 35u8,
        end < bytes.len() ==> bytes[end] == 10u8 || bytes[end] == 13u8 || bytes[end] == 35u8,
    ensures
        in_toml::bare_end(bytes, at) == end,
    decreases end - at,
{
    if at < end {
        assert(bytes[at] != 10u8);
        lemma_bare(bytes, at + 1, end);
    }
}

/// Brackets of either kind count up and down outside strings and comments, and
/// the one that brings the count to nothing ends the value.
pub proof fn law_toml_brackets(bytes: Seq<u8>, at: int, depth: int)
    requires
        0 <= at < bytes.len(),
        depth > 0,
    ensures
        ({
            let end = in_toml::brackets_end(bytes, at, depth);
            let byte = bytes[at];
            &&& byte == 123u8 || byte == 91u8 ==> end == in_toml::brackets_end(
                bytes,
                at + 1,
                depth + 1,
            )
            &&& (byte == 125u8 || byte == 93u8) && depth > 1 ==> end == in_toml::brackets_end(
                bytes,
                at + 1,
                depth - 1,
            )
            &&& (byte == 125u8 || byte == 93u8) && depth == 1 ==> end == at + 1
            &&& byte == 34u8 || byte == 39u8 ==> end == in_toml::brackets_end(
                bytes,
                in_toml::value_end(bytes, at),
                depth,
            )
            &&& byte == 35u8 ==> end == in_toml::brackets_end(
                bytes,
                in_toml::line_end_from(bytes, at),
                depth,
            )
            &&& byte != 123u8 && byte != 91u8 && byte != 125u8 && byte != 93u8 && byte != 34u8
                && byte != 39u8 && byte != 35u8 ==> end == in_toml::brackets_end(
                bytes,
                at + 1,
                depth,
            )
        }),
        (bytes[at] == 123u8 || bytes[at] == 91u8) ==> in_toml::value_end(bytes, at)
            == in_toml::brackets_end(bytes, at + 1, 1),
{
}

/// A line goes up to its line feed, or to the end of the text.
pub proof fn law_toml_lines(bytes: Seq<u8>, from: int, end: int)
    requires
        0 <= from <= end <= bytes.len(),
        forall|i: int| from <= i < end ==> (#[trigger] bytes[i]) != 10u8,
        end < bytes.len() ==> bytes[end] == 10u8,
    ensures
        in_toml::line_end_from(bytes, from) == end,
    decreases end - from,
{
    if from < end {
        assert(bytes[from] != 10u8);
        law_toml_lines(bytes, from + 1, end);
        assert(in_toml::first_byte(bytes, from, bytes.len() as int, 10u8) == in_toml::first_byte(
            bytes,
            from + 1,
            bytes.len() as int,
            10u8,
        ));
    }
}

/// A key is what stands before the first `=` that is not inside quotes. What is
/// quoted ends at the next quote of its kind.
pub proof fn law_toml_equals(bytes: Seq<u8>, at: int, end: int, close: int)
    requires
        0 <= at < end <= bytes.len(),
    ensures
        bytes[at] == 61u8 ==> in_toml::equals_from(bytes, at, end) == Some(at),
        bytes[at] != 61u8 && bytes[at] != 34u8 && bytes[at] != 39u8 ==> in_toml::equals_from(
            bytes,
            at,
            end,
        ) == in_toml::equals_from(bytes, at + 1, end),
        (bytes[at] == 34u8 || bytes[at] == 39u8) && at < close < end && bytes[close] == bytes[at]
            && (forall|i: int| at < i < close ==> (#[trigger] bytes[i]) != bytes[at])
            ==> in_toml::equals_from(bytes, at, end) == in_toml::equals_from(
            bytes,
            close + 1,
            end,
        ),
        in_toml::equals_from(bytes, end, end) is None,
{
    if (bytes[at] == 34u8 || bytes[at] == 39u8) && at < close < end && bytes[close] == bytes[at]
        && (forall|i: int| at < i < close ==> (#[trigger] bytes[i]) != bytes[at]) {
        lemma_first_byte_is(bytes, at + 1, end, bytes[at], close);
    }
}

proof fn lemma_first_byte_is(bytes: Seq<u8>, from: int, end: int, byte: u8, found: int)
    requires
        0 <= from <= found < end <= bytes.len(),
        bytes[found] == byte,
        forall|i: int| from <= i < found ==> (#[trigger] bytes[i]) != byte,
    ensures
        in_toml::first_byte(bytes, from, end, byte) == found,
    decreases found - from,
{
    if from < found {
        assert(bytes[from] != byte);
        lemma_first_byte_is(bytes, from + 1, end, byte, found);
    }
}

/// What a line is shows at its first byte that is no blank: nothing, a comment,
/// a header, or else an entry where there is an `=`. A value may take more than
/// its line, and what is behind it in its last one is passed over.
pub proof fn law_toml_kinds_of_lines(bytes: Seq<u8>, from: int, section: in_toml::Section)
    requires
        0 <= from < bytes.len(),
    ensures
        ({
            let at = in_toml::blank_end(bytes, from);
            let end = in_toml::line_end_from(bytes, at);
            let entries = in_toml::entries_from(bytes, from, section);
            if at >= bytes.len() {
                entries.len() == 0
            } else if bytes[at] == 10u8 || bytes[at] == 13u8 {
                entries == in_toml::entries_from(bytes, at + 1, section)
            } else if bytes[at] == 35u8 {
                entries == in_toml::entries_from(bytes, end, section)
            } else if bytes[at] == 91u8 {
                entries == in_toml::entries_from(
                    bytes,
                    end,
                    in_toml::after_header(bytes, at, end, section),
                )
            } else {
                match in_toml::equals_from(bytes, at, end) {
                    None => entries == in_toml::entries_from(bytes, end, section),
                    Some(equals) => {
                        let entry = in_toml::entry_at(bytes, at, equals, section);
                        &&& entries.len() > 0 && entries[0] == entry
                        &&& entries.skip(1) == in_toml::entries_from(
                            bytes,
                            in_toml::line_end_from(bytes, entry.value.1),
                            section,
                        )
                    },
                }
            }
        }),
        in_toml::entries_of(bytes) == in_toml::entries_from(bytes, 0, in_toml::top()),
        in_toml::top().table.len() == 0 && in_toml::top().block is None && in_toml::top().blocks
            == 0,
{
    let at = in_toml::blank_end(bytes, from);
    let end = in_toml::line_end_from(bytes, at);
    if let Some(equals) = in_toml::equals_from(bytes, at, end) {
        let entry = in_toml::entry_at(bytes, at, equals, section);
        let rest = in_toml::entries_from(
            bytes,
            in_toml::line_end_from(bytes, entry.value.1),
            section,
        );
        assert((seq![entry] + rest).skip(1) =~= rest);
    }
}

/// Only spaces and tabs are blanks in TOML.
pub proof fn law_toml_blanks(bytes: Seq<u8>, from: int, end: int)
    requires
        0 <= from <= end <= bytes.len(),
        forall|i: int| from <= i < end ==> (#[trigger] bytes[i]) == 32u8 || bytes[i] == 9u8,
        end < bytes.len() ==> bytes[end] != 32u8 && bytes[end] != 9u8,
    ensures
        in_toml::blank_end(bytes, from) == end,
    decreases end - from,
{
    if from < end {
        assert(bytes[from] == 32u8 || bytes[from] == 9u8);
        law_toml_blanks(bytes, from + 1, end);
    }
}

/// A key with a quote that nothing closes has no `=`.
pub proof fn law_toml_open_quotes(bytes: Seq<u8>, at: int, end: int)
    requires
        0 <= at < end <= bytes.len(),
        bytes[at] == 34u8 || bytes[at] == 39u8,
        forall|i: int| at < i < end ==> (#[trigger] bytes[i]) != bytes[at],
    ensures
        in_toml::equals_from(bytes, at, end) is None,
{
    in_toml::lemma_first_byte(bytes, at + 1, end, bytes[at]);
    let close = in_toml::first_byte(bytes, at + 1, end, bytes[at]);
    if close < end {
        assert(bytes[close] != bytes[at]);
    }
    assert(in_toml::equals_from(bytes, close + 1, end) is None);
}

/// A header that its line does not close changes nothing.
pub proof fn law_toml_open_headers(
    bytes: Seq<u8>,
    at: int,
    end: int,
    section: in_toml::Section,
)
    requires
        0 <= at < end <= bytes.len(),
        forall|i: int| at < i < end ==> (#[trigger] bytes[i]) != 93u8,
    ensures
        in_toml::after_header(bytes, at, end, section) == section,
{
    in_toml::lemma_first_byte(bytes, at + 1, end, 93u8);
    in_toml::lemma_first_byte(bytes, at + 2, end, 93u8);
}

// ---------------------------------------------------------------------------
// TOML keys

/// Outside quotes the blanks of a key go, inside they stay, and the quotes
/// themselves go.
pub proof fn law_toml_keys(first: char, rest: Seq<char>, quote: char)
    ensures
        ({
            let text = seq![first] + rest;
            let plain = in_toml::normalized(text, None);
            let inside = in_toml::normalized(text, Some(quote));
            &&& first == '"' || first == '\'' ==> plain == in_toml::normalized(rest, Some(first))
            &&& first != '"' && first != '\'' && is_whitespace(first) ==> plain
                == in_toml::normalized(rest, None)
            &&& first != '"' && first != '\'' && !is_whitespace(first) ==> plain == seq![first]
                + in_toml::normalized(rest, None)
            &&& first == quote ==> inside == in_toml::normalized(rest, None)
            &&& first != quote ==> inside == seq![first] + in_toml::normalized(rest, Some(quote))
        }),
        in_toml::normalized(Seq::empty(), None).len() == 0,
        in_toml::normalized(Seq::empty(), Some(quote)).len() == 0,
{
    assert((seq![first] + rest).drop_first() =~= rest);
}

/// A header names the table of the lines behind it, and one in two brackets
/// starts a block with a number of its own.
pub proof fn law_toml_headers(
    bytes: Seq<u8>,
    at: int,
    end: int,
    section: in_toml::Section,
    close: int,
)
    requires
        0 <= at < end <= bytes.len(),
        ({
            let start = if at + 1 < bytes.len() && bytes[at + 1] == 91u8 {
                at + 2
            } else {
                at + 1
            };
            start <= close < end && bytes[close] == 93u8 && forall|i: int|
                start <= i < close ==> (#[trigger] bytes[i]) != 93u8
        }),
    ensures
        ({
            let array = bytes[at + 1] == 91u8;
            let next = in_toml::after_header(bytes, at, end, section);
            &&& array ==> next.blocks == section.blocks + 1 && next.block == Some(next.blocks)
            &&& !array ==> next.blocks == section.blocks && next.block is None
            &&& array ==> next.table == in_toml::normalized(
                text_between(bytes, at + 2, close),
                None,
            )
            &&& !array ==> next.table == in_toml::normalized(
                text_between(bytes, at + 1, close),
                None,
            )
        }),
{
    let start = if bytes[at + 1] == 91u8 {
        at + 2
    } else {
        at + 1
    };
    lemma_first_byte_is(bytes, start, end, 93u8, close);
}

/// The entry of a line has the key behind its table and a dot, and its value
/// behind the `=` and the blanks there.
pub proof fn law_toml_entries(bytes: Seq<u8>, at: int, equals: int, section: in_toml::Section)
    ensures
        ({
            let entry = in_toml::entry_at(bytes, at, equals, section);
            let key = in_toml::normalized(text_between(bytes, at, equals), None);
            &&& section.table.len() == 0 ==> entry.key == key
            &&& section.table.len() > 0 ==> entry.key == section.table + seq!['.'] + key
            &&& entry.block == section.block
            &&& entry.value.0 == in_toml::blank_end(bytes, equals + 1)
            &&& entry.value.1 == in_toml::value_end(bytes, entry.value.0)
            &&& entry.string == in_toml::quoted(bytes, entry.value.0, entry.value.1)
        }),
{
}

/// Of the entries with a key, the first outside any block of an array counts.
pub proof fn law_toml_first_entry_counts(
    entries: Seq<in_toml::EntryModel>,
    key: Seq<char>,
    first: int,
)
    requires
        0 <= first <= entries.len(),
        forall|i: int|
            0 <= i < first ==> (#[trigger] entries[i]).block is Some || entries[i].key != key,
        first < entries.len() ==> entries[first].block is None && entries[first].key == key,
    ensures
        first < entries.len() ==> in_toml::plain_string(entries, key) == entries[first].string,
        first == entries.len() ==> in_toml::plain_string(entries, key) is None,
    decreases entries.len(),
{
    if entries.len() > 0 && first > 0 {
        assert(entries[0].block is Some || entries[0].key != key);
        let rest = entries.drop_first();
        assert forall|i: int| 0 <= i < first - 1 implies (#[trigger] rest[i]).block is Some
            || rest[i].key != key by {
            assert(rest[i] == entries[i + 1]);
        }
        law_toml_first_entry_counts(rest, key, first - 1);
    }
}

// ---------------------------------------------------------------------------
// Packages

/// An entry of a `[[package]]` block tells of the package of that block, which
/// it starts where no entry of it came before. Its name and its version are
/// texts, its source is taken as it is written. Other entries tell nothing.
pub proof fn law_packages_are_told_by_their_blocks(
    bytes: Seq<u8>,
    entries: Seq<in_toml::EntryModel>,
    entry: in_toml::EntryModel,
    field: Seq<char>,
)
    ensures
        ({
            let before = in_toml::numbered_packages(bytes, entries);
            let after = in_toml::numbered_packages(bytes, entries.push(entry));
            entry.block is Some && entry.key == "package."@ + field ==> {
                let known = before.len() > 0 && before.last().0 == entry.block->0;
                let package = after.last().1;
                &&& after.len() == before.len() + if known {
                    0int
                } else {
                    1int
                }
                &&& forall|i: int|
                    0 <= i < after.len() - 1 ==> (#[trigger] after[i]) == before[i]
                &&& after.last().0 == entry.block->0
                &&& package.name == if field == "name"@ {
                    match entry.string {
                        Some((start, end)) => text_between(bytes, start, end),
                        None => Seq::empty(),
                    }
                } else if known {
                    before.last().1.name
                } else {
                    Seq::empty()
                }
                &&& package.source == if field == "source"@ {
                    Some(text_between(bytes, entry.value.0, entry.value.1))
                } else if known {
                    before.last().1.source
                } else {
                    None
                }
                &&& package.version == if field == "version"@ {
                    entry.string
                } else if known {
                    before.last().1.version
                } else {
                    None
                }
            }
        }),
        entry.block is None || (forall|field: Seq<char>|
            entry.key != #[trigger] ("package."@ + field)) ==> in_toml::numbered_packages(
            bytes,
            entries.push(entry),
        ) == in_toml::numbered_packages(bytes, entries),
        in_toml::numbered_packages(bytes, Seq::empty()).len() == 0,
{
    assert(entries.push(entry).drop_last() =~= entries);
    reveal_strlit("name");
    reveal_strlit("source");
    reveal_strlit("version");
    let prefix = "package."@;
    if entry.key == prefix + field {
        assert(entry.key.take(prefix.len() as int) =~= prefix);
        assert(entry.key.skip(prefix.len() as int) =~= field);
    }
    if let Some(rest) = crate::text::after_prefix(entry.key, prefix) {
        assert(entry.key =~= prefix + rest);
    }
}

} // verus!
