//! Where a string stands in JSON text.

use core::ops::Range;

use vstd::prelude::*;
use vstd::string::*;
use vstd::utf8::*;

use crate::ascii::{
    BACKSLASH, CARRIAGE_RETURN, CLOSE_BRACE, CLOSE_BRACKET, COLON, COMMA, LINE_FEED, OPEN_BRACE,
    OPEN_BRACKET, QUOTE, SPACE, TAB,
};
use crate::document::{json_text, parse_json_text};
use crate::text::{same_text, slices};
use crate::utf8::{cut, is_cut, lemma_ascii_boundaries, text_between};

verus! {

// ---------------------------------------------------------------------------
// Models

/// Whether `byte` stands at `at`.
pub open spec fn stands(bytes: Seq<u8>, at: int, byte: u8) -> bool {
    0 <= at < bytes.len() && bytes[at] == byte
}

/// Space, tab, line feed or carriage return.
pub open spec fn is_space(byte: u8) -> bool {
    byte == SPACE || byte == TAB || byte == LINE_FEED || byte == CARRIAGE_RETURN
}

/// The first position from `from` on that holds no whitespace.
pub open spec fn spaces_end(bytes: Seq<u8>, from: int) -> int
    decreases bytes.len() - from,
{
    if 0 <= from < bytes.len() && is_space(bytes[from]) {
        spaces_end(bytes, from + 1)
    } else {
        from
    }
}

/// The first quote from `from` on that no backslash escapes.
pub open spec fn closing_quote(bytes: Seq<u8>, from: int) -> Option<int>
    decreases bytes.len() + 1 - from,
{
    if !(0 <= from < bytes.len()) {
        None
    } else if bytes[from] == QUOTE {
        Some(from)
    } else if bytes[from] == BACKSLASH {
        closing_quote(bytes, from + 2)
    } else {
        closing_quote(bytes, from + 1)
    }
}

pub open spec fn opens(byte: u8) -> bool {
    byte == OPEN_BRACE || byte == OPEN_BRACKET
}

pub open spec fn closes(byte: u8) -> bool {
    byte == CLOSE_BRACE || byte == CLOSE_BRACKET
}

/// Just past the bracket that closes the last of `depth` open ones, reading on
/// from `from`. Brackets inside strings do not count.
pub open spec fn brackets_end(bytes: Seq<u8>, from: int, depth: int) -> Option<int>
    decreases bytes.len() - from,
{
    if !(0 <= from < bytes.len()) {
        None
    } else if bytes[from] == QUOTE {
        proof {
            lemma_closing_quote(bytes, from + 1);
        }
        match closing_quote(bytes, from + 1) {
            Some(quote) => brackets_end(bytes, quote + 1, depth),
            None => None,
        }
    } else if opens(bytes[from]) {
        brackets_end(bytes, from + 1, depth + 1)
    } else if closes(bytes[from]) {
        if depth <= 1 {
            Some(from + 1)
        } else {
            brackets_end(bytes, from + 1, depth - 1)
        }
    } else {
        brackets_end(bytes, from + 1, depth)
    }
}

/// Whether `byte` ends a number, `true`, `false` or `null`.
pub open spec fn ends_scalar(byte: u8) -> bool {
    byte == COMMA || closes(byte) || is_space(byte)
}

/// The first position from `from` on that is no part of a number, `true`,
/// `false` or `null`.
pub open spec fn scalar_end(bytes: Seq<u8>, from: int) -> int
    decreases bytes.len() - from,
{
    if 0 <= from < bytes.len() && !ends_scalar(bytes[from]) {
        scalar_end(bytes, from + 1)
    } else {
        from
    }
}

/// Just past the value that starts at `start`.
pub open spec fn value_end(bytes: Seq<u8>, start: int) -> Option<int> {
    if !(0 <= start < bytes.len()) {
        None
    } else if bytes[start] == QUOTE {
        match closing_quote(bytes, start + 1) {
            Some(quote) => Some(quote + 1),
            None => None,
        }
    } else if opens(bytes[start]) {
        brackets_end(bytes, start + 1, 1)
    } else {
        Some(scalar_end(bytes, start))
    }
}

/// Where the member after a value starts that ends at `end`: past the comma,
/// if there is one, and the whitespace around it.
pub open spec fn next_member(bytes: Seq<u8>, end: int) -> int {
    let comma = spaces_end(bytes, end);
    if stands(bytes, comma, COMMA) {
        spaces_end(bytes, comma + 1)
    } else {
        comma
    }
}

/// Start of the value of the first member named `key`, where the members start
/// at `from`.
pub open spec fn member_from(bytes: Seq<u8>, from: int, key: Seq<char>) -> Option<int>
    decreases bytes.len() - from,
{
    if !stands(bytes, from, QUOTE) {
        None
    } else {
        match closing_quote(bytes, from + 1) {
            None => None,
            Some(quote) => match json_text(text_between(bytes, from, quote + 1)) {
                None => None,
                Some(name) => {
                    let colon = spaces_end(bytes, quote + 1);
                    let value = spaces_end(bytes, colon + 1);
                    if !stands(bytes, colon, COLON) {
                        None
                    } else if name == key {
                        Some(value)
                    } else {
                        match value_end(bytes, value) {
                            None => None,
                            Some(end) => {
                                proof {
                                    lemma_next_member(bytes, from);
                                }
                                member_from(bytes, next_member(bytes, end), key)
                            },
                        }
                    }
                },
            },
        }
    }
}

/// Start of the value under `key` in the object that opens at `open`. The
/// first member of that name counts.
pub open spec fn member_of(bytes: Seq<u8>, open: int, key: Seq<char>) -> Option<int> {
    if stands(bytes, open, OPEN_BRACE) {
        member_from(bytes, spaces_end(bytes, open + 1), key)
    } else {
        None
    }
}

/// Start of the value at a path of keys, from the object that opens at `open`.
pub open spec fn value_at(bytes: Seq<u8>, open: int, path: Seq<Seq<char>>) -> Option<int>
    decreases path.len(),
{
    if path.len() == 0 {
        Some(open)
    } else {
        match value_at(bytes, open, path.drop_last()) {
            Some(object) => member_of(bytes, object, path.last()),
            None => None,
        }
    }
}

/// First and last position of the contents of the string at a path of keys
/// from the top-level object, the latter exclusive.
pub open spec fn contents_at(bytes: Seq<u8>, path: Seq<Seq<char>>) -> Option<(int, int)> {
    if path.len() == 0 {
        None
    } else {
        match value_at(bytes, spaces_end(bytes, 0), path) {
            Some(value) => if stands(bytes, value, QUOTE) {
                match closing_quote(bytes, value + 1) {
                    Some(quote) => Some((value + 1, quote)),
                    None => None,
                }
            } else {
                None
            },
            None => None,
        }
    }
}

/// A span as a pair of positions.
pub open spec fn ends(span: Option<Range<usize>>) -> Option<(int, int)> {
    match span {
        Some(span) => Some((span.start as int, span.end as int)),
        None => None,
    }
}

// ---------------------------------------------------------------------------
// What the models imply

pub proof fn lemma_spaces_end(bytes: Seq<u8>, from: int)
    ensures
        from <= spaces_end(bytes, from),
        0 <= from <= bytes.len() ==> spaces_end(bytes, from) <= bytes.len(),
        forall|i: int| from <= i < spaces_end(bytes, from) ==> is_space(#[trigger] bytes[i]),
        0 <= from && spaces_end(bytes, from) < bytes.len() ==> !is_space(
            bytes[spaces_end(bytes, from)],
        ),
    decreases bytes.len() - from,
{
    if 0 <= from < bytes.len() && is_space(bytes[from]) {
        lemma_spaces_end(bytes, from + 1);
    }
}

pub proof fn lemma_closing_quote(bytes: Seq<u8>, from: int)
    ensures
        closing_quote(bytes, from) matches Some(quote) ==> from <= quote < bytes.len()
            && bytes[quote] == QUOTE,
    decreases bytes.len() + 1 - from,
{
    if 0 <= from < bytes.len() && bytes[from] != QUOTE {
        if bytes[from] == BACKSLASH {
            lemma_closing_quote(bytes, from + 2);
        } else {
            lemma_closing_quote(bytes, from + 1);
        }
    }
}

pub proof fn lemma_brackets_end(bytes: Seq<u8>, from: int, depth: int)
    ensures
        brackets_end(bytes, from, depth) matches Some(end) ==> from < end <= bytes.len(),
    decreases bytes.len() - from,
{
    if 0 <= from < bytes.len() {
        if bytes[from] == QUOTE {
            lemma_closing_quote(bytes, from + 1);
            if let Some(quote) = closing_quote(bytes, from + 1) {
                lemma_brackets_end(bytes, quote + 1, depth);
            }
        } else if opens(bytes[from]) {
            lemma_brackets_end(bytes, from + 1, depth + 1);
        } else if closes(bytes[from]) {
            lemma_brackets_end(bytes, from + 1, depth - 1);
        } else {
            lemma_brackets_end(bytes, from + 1, depth);
        }
    }
}

pub proof fn lemma_scalar_end(bytes: Seq<u8>, from: int)
    ensures
        from <= scalar_end(bytes, from),
        0 <= from <= bytes.len() ==> scalar_end(bytes, from) <= bytes.len(),
    decreases bytes.len() - from,
{
    if 0 <= from < bytes.len() && !ends_scalar(bytes[from]) {
        lemma_scalar_end(bytes, from + 1);
    }
}

pub proof fn lemma_value_end(bytes: Seq<u8>, start: int)
    ensures
        value_end(bytes, start) matches Some(end) ==> start <= end <= bytes.len(),
{
    lemma_closing_quote(bytes, start + 1);
    lemma_brackets_end(bytes, start + 1, 1);
    lemma_scalar_end(bytes, start);
}

/// Reading members moves on.
pub proof fn lemma_next_member(bytes: Seq<u8>, from: int)
    ensures
        stands(bytes, from, QUOTE) ==> match closing_quote(bytes, from + 1) {
            None => true,
            Some(quote) => {
                let value = spaces_end(bytes, spaces_end(bytes, quote + 1) + 1);
                match value_end(bytes, value) {
                    None => true,
                    Some(end) => from < next_member(bytes, end) <= bytes.len(),
                }
            },
        },
{
    lemma_closing_quote(bytes, from + 1);
    if let Some(quote) = closing_quote(bytes, from + 1) {
        let colon = spaces_end(bytes, quote + 1);
        let value = spaces_end(bytes, colon + 1);
        lemma_spaces_end(bytes, quote + 1);
        lemma_spaces_end(bytes, colon + 1);
        lemma_value_end(bytes, value);
        if let Some(end) = value_end(bytes, value) {
            let comma = spaces_end(bytes, end);
            lemma_spaces_end(bytes, end);
            lemma_spaces_end(bytes, comma + 1);
        }
    }
}

// ---------------------------------------------------------------------------
// Scanning

/// The first position from `from` on that holds no whitespace.
pub fn skip_whitespace(bytes: &[u8], from: usize) -> (end: usize)
    ensures
        end == spaces_end(bytes@, from as int),
        from <= bytes@.len() ==> end <= bytes@.len(),
{
    let mut cursor: usize = from;
    while cursor < bytes.len() && (bytes[cursor] == SPACE || bytes[cursor] == TAB || bytes[cursor]
        == LINE_FEED || bytes[cursor] == CARRIAGE_RETURN)
        invariant
            from <= cursor,
            from <= bytes@.len() ==> cursor <= bytes@.len(),
            spaces_end(bytes@, from as int) == spaces_end(bytes@, cursor as int),
        decreases bytes@.len() - cursor,
    {
        cursor = cursor + 1;
    }
    cursor
}

/// Span of a string's contents plus the index just past its closing quote. The
/// string opens at `quote`.
pub fn string_span(bytes: &[u8], quote: usize) -> (span: Option<(Range<usize>, usize)>)
    requires
        quote < usize::MAX,
    ensures
        match span {
            Some((contents, after)) => contents.start == quote + 1 && closing_quote(
                bytes@,
                quote + 1,
            ) == Some(contents.end as int) && after == contents.end + 1 && contents.start
                <= contents.end < bytes@.len(),
            None => closing_quote(bytes@, quote + 1) is None,
        },
{
    let mut cursor: usize = quote + 1;
    while cursor < bytes.len()
        invariant
            quote < cursor,
            closing_quote(bytes@, quote + 1) == closing_quote(bytes@, cursor as int),
        decreases bytes@.len() - cursor,
    {
        if bytes[cursor] == BACKSLASH {
            if bytes.len() - cursor < 2 {
                assert(closing_quote(bytes@, cursor + 2) is None);
                return None;
            }
            cursor = cursor + 2;
        } else if bytes[cursor] == QUOTE {
            return Some((Range { start: quote + 1, end: cursor }, cursor + 1));
        } else {
            cursor = cursor + 1;
        }
    }
    None
}

/// Index just past the value starting at `start`.
pub fn skip_value(bytes: &[u8], start: usize) -> (end: Option<usize>)
    ensures
        match end {
            Some(after) => value_end(bytes@, start as int) == Some(after as int) && start <= after
                <= bytes@.len(),
            None => value_end(bytes@, start as int) is None,
        },
{
    if start >= bytes.len() {
        return None;
    }
    let first = bytes[start];
    if first == QUOTE {
        match string_span(bytes, start) {
            Some((_, after)) => Some(after),
            None => None,
        }
    } else if first == OPEN_BRACE || first == OPEN_BRACKET {
        let mut depth: usize = 1;
        let mut cursor: usize = start + 1;
        while cursor < bytes.len()
            invariant
                start < cursor <= bytes@.len(),
                bytes@[start as int] == first,
                opens(first),
                1 <= depth <= cursor,
                brackets_end(bytes@, start + 1, 1) == brackets_end(
                    bytes@,
                    cursor as int,
                    depth as int,
                ),
            decreases bytes@.len() - cursor,
        {
            let byte = bytes[cursor];
            if byte == QUOTE {
                match string_span(bytes, cursor) {
                    Some((_, after)) => {
                        cursor = after;
                    },
                    None => {
                        return None;
                    },
                }
            } else {
                if byte == OPEN_BRACE || byte == OPEN_BRACKET {
                    depth = depth + 1;
                } else if byte == CLOSE_BRACE || byte == CLOSE_BRACKET {
                    if depth == 1 {
                        return Some(cursor + 1);
                    }
                    depth = depth - 1;
                }
                cursor = cursor + 1;
            }
        }
        None
    } else {
        let mut cursor: usize = start;
        while cursor < bytes.len() && !(bytes[cursor] == COMMA || bytes[cursor] == CLOSE_BRACE
            || bytes[cursor] == CLOSE_BRACKET || bytes[cursor] == SPACE || bytes[cursor] == TAB
            || bytes[cursor] == LINE_FEED || bytes[cursor] == CARRIAGE_RETURN)
            invariant
                start <= cursor <= bytes@.len(),
                scalar_end(bytes@, start as int) == scalar_end(bytes@, cursor as int),
            decreases bytes@.len() - cursor,
        {
            cursor = cursor + 1;
        }
        Some(cursor)
    }
}

/// Start of the value stored under `key` in the object opening at `open`. The
/// first occurrence wins; callers re-parse to catch duplicate keys.
pub fn member(source: &str, open: usize, key: &str) -> (value: Option<usize>)
    ensures
        match value {
            Some(start) => member_of(source.spec_bytes(), open as int, key@) == Some(start as int)
                && start <= source.spec_bytes().len(),
            None => member_of(source.spec_bytes(), open as int, key@) is None,
        },
{
    let bytes = source.as_bytes();
    proof {
        encode_utf8_valid_utf8(source@);
    }
    if open >= bytes.len() || bytes[open] != OPEN_BRACE {
        return None;
    }
    let mut cursor: usize = skip_whitespace(bytes, open + 1);
    while cursor < bytes.len() && bytes[cursor] == QUOTE
        invariant
            bytes@ == source.spec_bytes(),
            valid_utf8(bytes@),
            cursor <= bytes@.len(),
            member_of(bytes@, open as int, key@) == member_from(bytes@, cursor as int, key@),
        decreases bytes@.len() - cursor,
    {
        proof {
            lemma_next_member(bytes@, cursor as int);
        }
        let after = match string_span(bytes, cursor) {
            Some((_, after)) => after,
            None => {
                return None;
            },
        };
        proof {
            lemma_ascii_boundaries(bytes@, cursor as int);
            lemma_closing_quote(bytes@, cursor + 1);
            lemma_ascii_boundaries(bytes@, after - 1);
        }
        let name = match parse_json_text(cut(source, cursor, after)) {
            Some(name) => name,
            None => {
                return None;
            },
        };
        let colon = skip_whitespace(bytes, after);
        if colon >= bytes.len() || bytes[colon] != COLON {
            return None;
        }
        let value = skip_whitespace(bytes, colon + 1);
        if same_text(name.as_str(), key) {
            return Some(value);
        }
        let end = match skip_value(bytes, value) {
            Some(end) => end,
            None => {
                return None;
            },
        };
        cursor = skip_whitespace(bytes, end);
        if cursor < bytes.len() && bytes[cursor] == COMMA {
            cursor = skip_whitespace(bytes, cursor + 1);
        }
    }
    None
}

/// Byte range of the contents of the string at `path`, a chain of object keys
/// starting from the top-level object. `None` when a key is missing or the
/// value there isn't a string.
pub fn string_at(source: &str, path: &[&str]) -> (span: Option<Range<usize>>)
    ensures
        ends(span) == contents_at(source.spec_bytes(), slices(path@)),
        span matches Some(contents) ==> is_cut(
            source.spec_bytes(),
            contents.start as int,
            contents.end as int,
        ),
{
    if path.len() == 0 {
        return None;
    }
    let bytes = source.as_bytes();
    let ghost keys = slices(path@);
    let ghost top = spaces_end(bytes@, 0);
    let mut cursor: usize = skip_whitespace(bytes, 0);
    let mut at: usize = 0;
    while at < path.len()
        invariant
            at <= path@.len(),
            keys == slices(path@),
            keys.len() > 0,
            bytes@ == source.spec_bytes(),
            top == spaces_end(bytes@, 0),
            value_at(bytes@, top, keys.take(at as int)) == Some(cursor as int),
        decreases path@.len() - at,
    {
        assert(keys.take(at + 1).drop_last() =~= keys.take(at as int));
        assert(keys.take(at + 1).last() == path@[at as int]@);
        match member(source, cursor, path[at]) {
            Some(value) => {
                cursor = value;
            },
            None => {
                proof {
                    lemma_no_value(bytes@, top, keys, at + 1);
                }
                return None;
            },
        }
        at = at + 1;
    }
    assert(keys.take(at as int) =~= keys);
    if cursor < bytes.len() && bytes[cursor] == QUOTE {
        proof {
            encode_utf8_valid_utf8(source@);
            lemma_ascii_boundaries(bytes@, cursor as int);
            lemma_closing_quote(bytes@, cursor + 1);
        }
        match string_span(bytes, cursor) {
            Some((span, _)) => {
                proof {
                    lemma_ascii_boundaries(bytes@, span.end as int);
                }
                Some(span)
            },
            None => None,
        }
    } else {
        None
    }
}

/// Where a path leads nowhere, no longer path leads anywhere.
proof fn lemma_no_value(bytes: Seq<u8>, open: int, path: Seq<Seq<char>>, length: int)
    requires
        0 <= length <= path.len(),
        value_at(bytes, open, path.take(length)) is None,
    ensures
        value_at(bytes, open, path) is None,
    decreases path.len(),
{
    if length == path.len() {
        assert(path.take(length) =~= path);
    } else {
        assert(path.drop_last().take(length) =~= path.take(length));
        lemma_no_value(bytes, open, path.drop_last(), length);
    }
}

} // verus!
