//! What the scanners see after a string was rewritten in place.

use vstd::prelude::*;

use crate::ascii::{
    APOSTROPHE, BACKSLASH, CARRIAGE_RETURN, CLOSE_BRACKET, COMMA, EQUALS, HASH, LINE_FEED,
    OPEN_BRACKET, QUOTE, SPACE, TAB,
};
use crate::scan::{in_json, in_toml};
use crate::scan::json_grammar::{is_raw, lemma_quote_at};
use crate::scan::toml_grammar::{is_text, lemma_single_at, quotes, Text};
use crate::utf8::{holds_at, text_between};

verus! {

/// Bytes with `value` in place of those from `start` to `end`.
pub open spec fn spliced(bytes: Seq<u8>, start: int, end: int, value: Seq<u8>) -> Seq<u8> {
    bytes.subrange(0, start) + value + bytes.subrange(end, bytes.len() as int)
}

/// Whether a TOML string from `start` to `end` can hold `value` instead: the
/// quote that closed it closes `value`, and no earlier one does.
pub open spec fn fits_in_quotes(bytes: Seq<u8>, start: int, end: int, value: Seq<u8>) -> bool {
    let quote = bytes[start - 1];
    &&& is_text(Text { quote, raw: value, long: false })
    &&& value.len() == 0 ==> end + 1 >= bytes.len() || bytes[end + 1] != quote
}

/// Whether bytes mean themselves between quotes of any kind: there are some, and
/// none is a quote, a backslash or a line feed.
pub open spec fn is_plain(value: Seq<u8>) -> bool {
    &&& value.len() > 0
    &&& forall|i: int|
        0 <= i < value.len() ==> (#[trigger] value[i]) != QUOTE && value[i] != APOSTROPHE
            && value[i] != BACKSLASH && value[i] != LINE_FEED
}

/// Plain bytes can stand in any quotes.
pub proof fn lemma_plain(value: Seq<u8>, quote: u8)
    requires
        is_plain(value),
        in_toml::is_quote(quote),
    ensures
        is_raw(value),
        is_text(Text { quote, raw: value, long: false }),
{
    let text = Text { quote, raw: value, long: false };
    lemma_plain_quote(value, 0);
    lemma_plain_single(text, 0);
}

proof fn lemma_plain_quote(value: Seq<u8>, from: int)
    requires
        is_plain(value),
        0 <= from <= value.len(),
    ensures
        in_json::closing_quote(value.push(QUOTE), from) == Some(value.len() as int),
    decreases value.len() - from,
{
    if from < value.len() {
        assert(value.push(QUOTE)[from] == value[from]);
        lemma_plain_quote(value, from + 1);
    }
}

proof fn lemma_plain_single(text: Text, from: int)
    requires
        is_plain(text.raw),
        in_toml::is_quote(text.quote),
        !text.long,
        0 <= from <= text.raw.len(),
    ensures
        in_toml::single_end(text.raw + quotes(text) + seq![HASH], from, text.quote)
            == text.raw.len() + 1,
    decreases text.raw.len() - from,
{
    let whole = text.raw + quotes(text) + seq![HASH];
    if from < text.raw.len() {
        assert(whole[from] == text.raw[from]);
        lemma_plain_single(text, from + 1);
    } else {
        assert(whole[from] == text.quote);
    }
}

/// Whether two texts are the same up to a position.
pub open spec fn agree(left: Seq<u8>, right: Seq<u8>, until: int) -> bool {
    &&& 0 <= until <= left.len()
    &&& until <= right.len()
    &&& forall|i: int| 0 <= i < until ==> (#[trigger] left[i]) == right[i]
}

/// What a splice leaves in place.
proof fn lemma_spliced(bytes: Seq<u8>, start: int, end: int, value: Seq<u8>)
    requires
        0 <= start <= end < bytes.len(),
    ensures
        agree(bytes, spliced(bytes, start, end, value), start),
        start + value.len() < spliced(bytes, start, end, value).len(),
        forall|i: int|
            0 <= i < value.len() ==> (#[trigger] value[i]) == spliced(bytes, start, end, value)[start
                + i],
        spliced(bytes, start, end, value)[start + value.len()] == bytes[end],
{
}

// ---------------------------------------------------------------------------
// JSON

proof fn lemma_same_spaces(left: Seq<u8>, right: Seq<u8>, until: int, from: int)
    requires
        agree(left, right, until),
        0 <= from,
        in_json::spaces_end(left, from) < until,
    ensures
        in_json::spaces_end(right, from) == in_json::spaces_end(left, from),
    decreases until - from,
{
    in_json::lemma_spaces_end(left, from);
    assert(left[from] == right[from]);
    if in_json::is_space(left[from]) {
        lemma_same_spaces(left, right, until, from + 1);
    }
}

proof fn lemma_same_quote(left: Seq<u8>, right: Seq<u8>, until: int, from: int)
    requires
        agree(left, right, until),
        0 <= from,
        in_json::closing_quote(left, from) matches Some(quote) && quote < until,
    ensures
        in_json::closing_quote(right, from) == in_json::closing_quote(left, from),
    decreases until - from,
{
    in_json::lemma_closing_quote(left, from);
    assert(left[from] == right[from]);
    if left[from] == QUOTE {
    } else if left[from] == BACKSLASH {
        in_json::lemma_closing_quote(left, from + 2);
        lemma_same_quote(left, right, until, from + 2);
    } else {
        lemma_same_quote(left, right, until, from + 1);
    }
}

proof fn lemma_same_brackets(left: Seq<u8>, right: Seq<u8>, until: int, from: int, depth: int)
    requires
        agree(left, right, until),
        0 <= from,
        in_json::brackets_end(left, from, depth) matches Some(end) && end < until,
    ensures
        in_json::brackets_end(right, from, depth) == in_json::brackets_end(left, from, depth),
    decreases until - from,
{
    in_json::lemma_brackets_end(left, from, depth);
    assert(left[from] == right[from]);
    if left[from] == QUOTE {
        in_json::lemma_closing_quote(left, from + 1);
        let quote = in_json::closing_quote(left, from + 1)->0;
        in_json::lemma_brackets_end(left, quote + 1, depth);
        lemma_same_quote(left, right, until, from + 1);
        lemma_same_brackets(left, right, until, quote + 1, depth);
    } else if in_json::opens(left[from]) {
        lemma_same_brackets(left, right, until, from + 1, depth + 1);
    } else if in_json::closes(left[from]) {
        if depth > 1 {
            lemma_same_brackets(left, right, until, from + 1, depth - 1);
        }
    } else {
        lemma_same_brackets(left, right, until, from + 1, depth);
    }
}

proof fn lemma_same_scalar(left: Seq<u8>, right: Seq<u8>, until: int, from: int)
    requires
        agree(left, right, until),
        0 <= from,
        in_json::scalar_end(left, from) < until,
    ensures
        in_json::scalar_end(right, from) == in_json::scalar_end(left, from),
    decreases until - from,
{
    in_json::lemma_scalar_end(left, from);
    assert(left[from] == right[from]);
    if !in_json::ends_scalar(left[from]) {
        lemma_same_scalar(left, right, until, from + 1);
    }
}

proof fn lemma_same_json_value(left: Seq<u8>, right: Seq<u8>, until: int, start: int)
    requires
        agree(left, right, until),
        in_json::value_end(left, start) matches Some(end) && end < until,
    ensures
        in_json::value_end(right, start) == in_json::value_end(left, start),
{
    in_json::lemma_value_end(left, start);
    assert(left[start] == right[start]);
    if left[start] == QUOTE {
        lemma_same_quote(left, right, until, start + 1);
    } else if in_json::opens(left[start]) {
        lemma_same_brackets(left, right, until, start + 1, 1);
    } else {
        lemma_same_scalar(left, right, until, start);
    }
}

proof fn lemma_same_next(left: Seq<u8>, right: Seq<u8>, until: int, end: int)
    requires
        agree(left, right, until),
        0 <= end,
        in_json::next_member(left, end) < until,
    ensures
        in_json::next_member(right, end) == in_json::next_member(left, end),
        end <= in_json::next_member(left, end),
{
    let comma = in_json::spaces_end(left, end);
    in_json::lemma_spaces_end(left, end);
    in_json::lemma_spaces_end(left, comma + 1);
    lemma_same_spaces(left, right, until, end);
    assert(left[comma] == right[comma]);
    if in_json::stands(left, comma, COMMA) {
        lemma_same_spaces(left, right, until, comma + 1);
    }
}

/// The value of a member is behind where the members start.
proof fn lemma_member_behind(bytes: Seq<u8>, from: int, key: Seq<char>)
    ensures
        in_json::member_from(bytes, from, key) matches Some(value) ==> 0 <= from < value,
    decreases bytes.len() - from,
{
    if in_json::member_from(bytes, from, key) is Some {
        in_json::lemma_closing_quote(bytes, from + 1);
        let quote = in_json::closing_quote(bytes, from + 1)->0;
        let colon = in_json::spaces_end(bytes, quote + 1);
        let value = in_json::spaces_end(bytes, colon + 1);
        in_json::lemma_spaces_end(bytes, quote + 1);
        in_json::lemma_spaces_end(bytes, colon + 1);
        if let Some(end) = in_json::value_end(bytes, value) {
            in_json::lemma_next_member(bytes, from);
            lemma_member_behind(bytes, in_json::next_member(bytes, end), key);
        }
    }
}

proof fn lemma_same_member(
    left: Seq<u8>,
    right: Seq<u8>,
    until: int,
    from: int,
    key: Seq<char>,
)
    requires
        agree(left, right, until),
        in_json::member_from(left, from, key) matches Some(value) && value < until,
    ensures
        in_json::member_from(right, from, key) == in_json::member_from(left, from, key),
    decreases left.len() - from,
{
    lemma_member_behind(left, from, key);
    in_json::lemma_closing_quote(left, from + 1);
    let quote = in_json::closing_quote(left, from + 1)->0;
    let colon = in_json::spaces_end(left, quote + 1);
    let value = in_json::spaces_end(left, colon + 1);
    in_json::lemma_spaces_end(left, quote + 1);
    in_json::lemma_spaces_end(left, colon + 1);
    let held = crate::document::json_text(text_between(left, from, quote + 1));
    if held != Some(key) {
        let end = in_json::value_end(left, value)->0;
        let next = in_json::next_member(left, end);
        in_json::lemma_value_end(left, value);
        in_json::lemma_next_member(left, from);
        in_json::lemma_spaces_end(left, end);
        in_json::lemma_spaces_end(left, in_json::spaces_end(left, end) + 1);
        lemma_member_behind(left, next, key);
        lemma_same_next(left, right, until, end);
        lemma_same_json_value(left, right, until, value);
        lemma_same_member(left, right, until, next, key);
    }
    assert(value < until);
    lemma_same_quote(left, right, until, from + 1);
    lemma_same_spaces(left, right, until, quote + 1);
    lemma_same_spaces(left, right, until, colon + 1);
    assert(left[from] == right[from]);
    assert(left[colon] == right[colon]);
    assert(left.subrange(from, quote + 1) =~= right.subrange(from, quote + 1));
    in_json::lemma_next_member(right, from);
}

proof fn lemma_same_path(
    left: Seq<u8>,
    right: Seq<u8>,
    until: int,
    open: int,
    path: Seq<Seq<char>>,
)
    requires
        agree(left, right, until),
        0 <= open,
        in_json::value_at(left, open, path) matches Some(value) && value < until,
    ensures
        in_json::value_at(right, open, path) == in_json::value_at(left, open, path),
        open <= in_json::value_at(left, open, path)->0,
    decreases path.len(),
{
    if path.len() > 0 {
        let object = in_json::value_at(left, open, path.drop_last())->0;
        let first = in_json::spaces_end(left, object + 1);
        lemma_member_behind(left, first, path.last());
        in_json::lemma_spaces_end(left, object + 1);
        lemma_same_path(left, right, until, open, path.drop_last());
        lemma_same_spaces(left, right, until, object + 1);
        lemma_same_member(left, right, until, first, path.last());
        assert(left[object] == right[object]);
    }
}

/// After a string at a path of a JSON text is rewritten with bytes that a string
/// can hold, it is found where it was, up to the end of those bytes.
pub proof fn law_json_string_is_found_again(
    bytes: Seq<u8>,
    path: Seq<Seq<char>>,
    start: int,
    end: int,
    value: Seq<u8>,
)
    requires
        in_json::contents_at(bytes, path) == Some((start, end)),
        is_raw(value),
    ensures
        in_json::contents_at(spliced(bytes, start, end, value), path) == Some(
            (start, start + value.len()),
        ),
{
    let after = spliced(bytes, start, end, value);
    let open = in_json::spaces_end(bytes, 0);
    in_json::lemma_closing_quote(bytes, start);
    in_json::lemma_spaces_end(bytes, 0);
    lemma_spliced(bytes, start, end, value);
    lemma_same_path(bytes, after, start, open, path);
    lemma_same_spaces(bytes, after, start, 0);
    assert(bytes[start - 1] == after[start - 1]);
    lemma_quote_at(after, start, value, 0);
}

// ---------------------------------------------------------------------------
// TOML

proof fn lemma_same_blank(left: Seq<u8>, right: Seq<u8>, until: int, from: int)
    requires
        agree(left, right, until),
        0 <= from,
        in_toml::blank_end(left, from) < until,
    ensures
        in_toml::blank_end(right, from) == in_toml::blank_end(left, from),
    decreases until - from,
{
    in_toml::lemma_blank_end(left, from);
    assert(left[from] == right[from]);
    if left[from] == SPACE || left[from] == TAB {
        lemma_same_blank(left, right, until, from + 1);
    }
}

/// A byte that is found in one text is found in the other, wherever the search
/// would have ended.
proof fn lemma_same_byte(
    left: Seq<u8>,
    right: Seq<u8>,
    until: int,
    from: int,
    end: int,
    bound: int,
    byte: u8,
)
    requires
        agree(left, right, until),
        0 <= from <= end,
        in_toml::first_byte(left, from, end, byte) < end,
        in_toml::first_byte(left, from, end, byte) < until,
        in_toml::first_byte(left, from, end, byte) < bound,
    ensures
        in_toml::first_byte(right, from, bound, byte) == in_toml::first_byte(
            left,
            from,
            end,
            byte,
        ),
    decreases end - from,
{
    in_toml::lemma_first_byte(left, from, end, byte);
    assert(left[from] == right[from]);
    if left[from] != byte {
        lemma_same_byte(left, right, until, from + 1, end, bound, byte);
    }
}

proof fn lemma_same_line_end(left: Seq<u8>, right: Seq<u8>, until: int, from: int)
    requires
        agree(left, right, until),
        0 <= from,
        in_toml::line_end_from(left, from) < until,
    ensures
        in_toml::line_end_from(right, from) == in_toml::line_end_from(left, from),
{
    in_toml::lemma_line_end(left, from);
    if from <= left.len() {
        lemma_same_byte(
            left,
            right,
            until,
            from,
            left.len() as int,
            right.len() as int,
            LINE_FEED,
        );
    } else {
        assert(in_toml::line_end_from(left, from) == left.len());
    }
}

/// A multi-line string that ends inside the text ends with three quotes.
proof fn lemma_triple_closed(bytes: Seq<u8>, from: int, quote: u8)
    requires
        0 <= from,
        in_toml::is_quote(quote),
        in_toml::triple_end(bytes, from, quote) < bytes.len(),
    ensures
        from + 3 <= in_toml::triple_end(bytes, from, quote),
    decreases bytes.len() + 1 - from,
{
    if from >= bytes.len() {
    } else if quote == QUOTE && bytes[from] == BACKSLASH {
        lemma_triple_closed(bytes, from + 2, quote);
    } else if !in_toml::tripled(bytes, from, quote) {
        lemma_triple_closed(bytes, from + 1, quote);
    }
}

proof fn lemma_same_triple(left: Seq<u8>, right: Seq<u8>, until: int, from: int, quote: u8)
    requires
        agree(left, right, until),
        0 <= from,
        in_toml::is_quote(quote),
        in_toml::triple_end(left, from, quote) < until,
    ensures
        in_toml::triple_end(right, from, quote) == in_toml::triple_end(left, from, quote),
    decreases until - from,
{
    lemma_triple_closed(left, from, quote);
    assert(left[from] == right[from]);
    assert(left[from + 1] == right[from + 1]);
    assert(left[from + 2] == right[from + 2]);
    if quote == QUOTE && left[from] == BACKSLASH {
        lemma_same_triple(left, right, until, from + 2, quote);
    } else if in_toml::tripled(left, from, quote) {
        assert(left[from + 3] == right[from + 3]);
        if left[from + 3] == quote {
            assert(left[from + 4] == right[from + 4]);
        }
    } else {
        lemma_same_triple(left, right, until, from + 1, quote);
    }
}

proof fn lemma_same_single(left: Seq<u8>, right: Seq<u8>, until: int, from: int, quote: u8)
    requires
        agree(left, right, until),
        0 <= from,
        in_toml::is_quote(quote),
        in_toml::single_end(left, from, quote) < until,
    ensures
        in_toml::single_end(right, from, quote) == in_toml::single_end(left, from, quote),
    decreases left.len() + 2 - from,
{
    in_toml::lemma_single_end(left, from, quote);
    if from < left.len() {
        assert(left[from] == right[from]);
        if left[from] == LINE_FEED {
        } else if quote == QUOTE && left[from] == BACKSLASH {
            lemma_same_single(left, right, until, from + 2, quote);
        } else if left[from] != quote {
            lemma_same_single(left, right, until, from + 1, quote);
        }
    }
}

proof fn lemma_same_string(left: Seq<u8>, right: Seq<u8>, until: int, start: int)
    requires
        agree(left, right, until),
        0 <= start < left.len(),
        in_toml::is_quote(left[start]),
        in_toml::string_end(left, start) < until,
    ensures
        in_toml::string_end(right, start) == in_toml::string_end(left, start),
        right[start] == left[start],
{
    let quote = left[start];
    in_toml::lemma_string_end(left, start);
    assert(left[start] == right[start]);
    if in_toml::tripled(left, start, quote) {
        lemma_triple_closed(left, start + 3, quote);
        assert(left[start + 1] == right[start + 1]);
        assert(left[start + 2] == right[start + 2]);
        lemma_same_triple(left, right, until, start + 3, quote);
    } else {
        lemma_same_single(left, right, until, start + 1, quote);
        in_toml::lemma_single_end(left, start + 1, quote);
        assert(left[start + 1] == right[start + 1]);
        if left[start + 1] == quote {
            assert(in_toml::single_end(left, start + 1, quote) == start + 2);
            assert(left[start + 2] == right[start + 2]);
        }
    }
}

proof fn lemma_same_groups(left: Seq<u8>, right: Seq<u8>, until: int, from: int, depth: int)
    requires
        agree(left, right, until),
        0 <= from <= left.len(),
        in_toml::brackets_end(left, from, depth) < until,
    ensures
        in_toml::brackets_end(right, from, depth) == in_toml::brackets_end(left, from, depth),
    decreases until - from,
{
    in_toml::lemma_brackets_end(left, from, depth);
    if from < left.len() {
        assert(left[from] == right[from]);
        if in_toml::is_quote(left[from]) {
            let end = in_toml::string_end(left, from);
            in_toml::lemma_string_end(left, from);
            in_toml::lemma_brackets_end(left, end, depth);
            lemma_same_string(left, right, until, from);
            lemma_same_groups(left, right, until, end, depth);
        } else if left[from] == HASH {
            let end = in_toml::line_end_from(left, from);
            in_toml::lemma_line_end(left, from);
            in_toml::lemma_brackets_end(left, end, depth);
            lemma_same_line_end(left, right, until, from);
            lemma_same_groups(left, right, until, end, depth);
        } else if in_toml::opens(left[from]) {
            lemma_same_groups(left, right, until, from + 1, depth + 1);
        } else if in_toml::closes(left[from]) {
            if depth > 1 {
                lemma_same_groups(left, right, until, from + 1, depth - 1);
            }
        } else {
            lemma_same_groups(left, right, until, from + 1, depth);
        }
    }
}

proof fn lemma_same_bare(left: Seq<u8>, right: Seq<u8>, until: int, from: int)
    requires
        agree(left, right, until),
        0 <= from <= left.len(),
        in_toml::bare_end(left, from) < until,
    ensures
        in_toml::bare_end(right, from) == in_toml::bare_end(left, from),
    decreases until - from,
{
    in_toml::lemma_bare_end(left, from);
    assert(left[from] == right[from]);
    if left[from] != LINE_FEED && left[from] != CARRIAGE_RETURN && left[from] != HASH {
        lemma_same_bare(left, right, until, from + 1);
    }
}

proof fn lemma_same_toml_value(left: Seq<u8>, right: Seq<u8>, until: int, start: int)
    requires
        agree(left, right, until),
        0 <= start <= left.len(),
        in_toml::value_end(left, start) < until,
    ensures
        in_toml::value_end(right, start) == in_toml::value_end(left, start),
{
    in_toml::lemma_value_end(left, start);
    assert(left[start] == right[start]);
    if in_toml::is_quote(left[start]) {
        lemma_same_string(left, right, until, start);
    } else if in_toml::opens(left[start]) {
        lemma_same_groups(left, right, until, start + 1, 1);
    } else {
        lemma_same_bare(left, right, until, start);
    }
}

proof fn lemma_same_equals(
    left: Seq<u8>,
    right: Seq<u8>,
    until: int,
    from: int,
    end: int,
    bound: int,
)
    requires
        agree(left, right, until),
        0 <= from,
        in_toml::equals_from(left, from, end) matches Some(equals) && equals < until && equals
            < bound,
    ensures
        in_toml::equals_from(right, from, bound) == in_toml::equals_from(left, from, end),
    decreases end - from,
{
    in_toml::lemma_equals(left, from, end);
    assert(left[from] == right[from]);
    if left[from] == EQUALS {
    } else if in_toml::is_quote(left[from]) {
        let close = in_toml::first_byte(left, from + 1, end, left[from]);
        in_toml::lemma_first_byte(left, from + 1, end, left[from]);
        in_toml::lemma_equals(left, close + 1, end);
        lemma_same_byte(left, right, until, from + 1, end, bound, left[from]);
        lemma_same_equals(left, right, until, close + 1, end, bound);
    } else {
        lemma_same_equals(left, right, until, from + 1, end, bound);
    }
}

/// A string that is found lies behind where the search starts, in quotes of its
/// own.
pub proof fn lemma_found_behind(
    bytes: Seq<u8>,
    from: int,
    section: in_toml::Section,
    key: Seq<char>,
)
    requires
        0 <= from,
    ensures
        in_toml::plain_string(in_toml::entries_from(bytes, from, section), key) matches Some(
            (start, end),
        ) ==> from < start <= end < bytes.len() && in_toml::is_quote(bytes[start - 1])
            && bytes[end] == bytes[start - 1],
    decreases bytes.len() - from,
{
    let at = in_toml::blank_end(bytes, from);
    let end = in_toml::line_end_from(bytes, at);
    if from < bytes.len() && at < bytes.len() {
        in_toml::lemma_progress(bytes, from);
        if bytes[at] == LINE_FEED || bytes[at] == CARRIAGE_RETURN {
            lemma_found_behind(bytes, at + 1, section, key);
        } else if bytes[at] == HASH {
            lemma_found_behind(bytes, end, section, key);
        } else if bytes[at] == OPEN_BRACKET {
            lemma_found_behind(bytes, end, in_toml::after_header(bytes, at, end, section), key);
        } else {
            match in_toml::equals_from(bytes, at, end) {
                None => {
                    lemma_found_behind(bytes, end, section, key);
                },
                Some(equals) => {
                    let entry = in_toml::entry_at(bytes, at, equals, section);
                    let next = in_toml::line_end_from(bytes, entry.value.1);
                    let rest = in_toml::entries_from(bytes, next, section);
                    lemma_found_behind(bytes, next, section, key);
                    assert((seq![entry] + rest).drop_first() =~= rest);
                },
            }
        }
    }
}

/// A header line reads the same in both texts.
proof fn lemma_same_header(
    left: Seq<u8>,
    right: Seq<u8>,
    until: int,
    at: int,
    end: int,
    section: in_toml::Section,
)
    requires
        agree(left, right, until),
        0 <= at < end < until,
    ensures
        in_toml::after_header(right, at, end, section) == in_toml::after_header(
            left,
            at,
            end,
            section,
        ),
{
    assert(left[at + 1] == right[at + 1]);
    let start = if left[at + 1] == OPEN_BRACKET {
        at + 2
    } else {
        at + 1
    };
    let close = in_toml::first_byte(left, start, end, CLOSE_BRACKET);
    lemma_same_search(left, right, until, start, end, CLOSE_BRACKET);
    if start <= end {
        in_toml::lemma_first_byte(left, start, end, CLOSE_BRACKET);
    }
    if close < end {
        assert(left.subrange(start, close) =~= right.subrange(start, close));
    }
}

proof fn lemma_same_search(
    left: Seq<u8>,
    right: Seq<u8>,
    until: int,
    from: int,
    end: int,
    byte: u8,
)
    requires
        agree(left, right, until),
        0 <= from,
        end <= until,
    ensures
        in_toml::first_byte(right, from, end, byte) == in_toml::first_byte(left, from, end, byte),
    decreases end - from,
{
    if from < end {
        assert(left[from] == right[from]);
        if left[from] != byte {
            lemma_same_search(left, right, until, from + 1, end, byte);
        }
    }
}

/// A line without an entry has none in the other text either.
proof fn lemma_same_lack(left: Seq<u8>, right: Seq<u8>, until: int, from: int, end: int)
    requires
        agree(left, right, until),
        0 <= from,
        end <= until,
        in_toml::equals_from(left, from, end) is None,
    ensures
        in_toml::equals_from(right, from, end) is None,
    decreases end + 1 - from,
{
    if from < end {
        assert(left[from] == right[from]);
        if in_toml::is_quote(left[from]) {
            let close = in_toml::first_byte(left, from + 1, end, left[from]);
            in_toml::lemma_first_byte(left, from + 1, end, left[from]);
            lemma_same_search(left, right, until, from + 1, end, left[from]);
            lemma_same_lack(left, right, until, close + 1, end);
        } else {
            lemma_same_lack(left, right, until, from + 1, end);
        }
    }
}

/// The line of a place reaches behind what has no line feed.
proof fn lemma_line_reaches(bytes: Seq<u8>, from: int, to: int)
    requires
        0 <= from <= to <= bytes.len(),
        forall|i: int| from <= i < to ==> (#[trigger] bytes[i]) != LINE_FEED,
    ensures
        to <= in_toml::line_end_from(bytes, from),
    decreases to - from,
{
    in_toml::lemma_line_end(bytes, from);
    if from < to {
        assert(bytes[from] != LINE_FEED);
        lemma_line_reaches(bytes, from + 1, to);
    }
}

/// No line feed comes before the end of a line.
proof fn lemma_line_is_whole(bytes: Seq<u8>, from: int)
    requires
        0 <= from <= bytes.len(),
    ensures
        forall|i: int|
            from <= i < in_toml::line_end_from(bytes, from) ==> (#[trigger] bytes[i]) != LINE_FEED,
    decreases bytes.len() - from,
{
    if from < bytes.len() && bytes[from] != LINE_FEED {
        lemma_line_is_whole(bytes, from + 1);
    }
}

/// Blanks are no line feeds.
proof fn lemma_blank_is_whole(bytes: Seq<u8>, from: int)
    ensures
        forall|i: int|
            from <= i < in_toml::blank_end(bytes, from) ==> (#[trigger] bytes[i]) != LINE_FEED,
    decreases bytes.len() - from,
{
    if 0 <= from < bytes.len() && (bytes[from] == SPACE || bytes[from] == TAB) {
        lemma_blank_is_whole(bytes, from + 1);
    }
}

/// The entry whose string is rewritten keeps its key, and its string is what is
/// written.
proof fn lemma_rewritten_entry(
    bytes: Seq<u8>,
    at: int,
    equals: int,
    section: in_toml::Section,
    start: int,
    end: int,
    value: Seq<u8>,
)
    requires
        0 <= at < bytes.len(),
        in_toml::equals_from(bytes, at, in_toml::line_end_from(bytes, at)) == Some(equals),
        in_toml::entry_at(bytes, at, equals, section).string == Some((start, end)),
        fits_in_quotes(bytes, start, end, value),
    ensures
        ({
            let after = spliced(bytes, start, end, value);
            let entry = in_toml::entry_at(after, at, equals, section);
            &&& in_toml::equals_from(after, at, in_toml::line_end_from(after, at)) == Some(equals)
            &&& entry.key == in_toml::entry_at(bytes, at, equals, section).key
            &&& entry.string == Some((start, start + value.len()))
        }),
{
    let after = spliced(bytes, start, end, value);
    let line = in_toml::line_end_from(bytes, at);
    let quote = bytes[start - 1];
    in_toml::lemma_line_end(bytes, at);
    in_toml::lemma_equals(bytes, at, line);
    in_toml::lemma_blank_end(bytes, equals + 1);
    in_toml::lemma_value_end(bytes, start - 1);
    lemma_spliced(bytes, start, end, value);
    lemma_line_is_whole(bytes, at);
    lemma_blank_is_whole(bytes, equals + 1);
    assert forall|i: int| at <= i < start implies (#[trigger] after[i]) != LINE_FEED by {
        assert(bytes[i] == after[i]);
        if i < equals + 1 {
            assert(bytes[i] != LINE_FEED);
        } else if i < start - 1 {
            assert(bytes[i] != LINE_FEED);
        }
    }
    lemma_line_reaches(after, at, start);
    lemma_same_equals(
        bytes,
        after,
        start,
        at,
        line,
        in_toml::line_end_from(after, at),
    );
    lemma_same_blank(bytes, after, start, equals + 1);
    assert(bytes.subrange(at, equals) =~= after.subrange(at, equals));
    assert(after[start - 1] == bytes[start - 1]);
    let text = Text { quote, raw: value, long: false };
    assert(holds_at(after, start, value + quotes(text)));
    lemma_single_at(after, start, text, 0);
    if value.len() > 0 {
        let whole = value + quotes(text) + seq![HASH];
        assert(value[0] == after[start + 0]);
        assert(whole[0] == value[0]);
        assert(value[0] != quote);
    } else if end + 1 < bytes.len() {
        assert(after[start + 1] == bytes[end + 1]);
    }
}

/// An entry before the one that is rewritten stays as it is.
proof fn lemma_earlier_entry(
    left: Seq<u8>,
    right: Seq<u8>,
    until: int,
    at: int,
    equals: int,
    section: in_toml::Section,
)
    requires
        agree(left, right, until),
        0 <= at < left.len(),
        in_toml::equals_from(left, at, in_toml::line_end_from(left, at)) == Some(equals),
        in_toml::line_end_from(
            left,
            in_toml::entry_at(left, at, equals, section).value.1,
        ) < until,
    ensures
        ({
            let before = in_toml::entry_at(left, at, equals, section);
            let after = in_toml::entry_at(right, at, equals, section);
            &&& in_toml::equals_from(right, at, in_toml::line_end_from(right, at)) == Some(equals)
            &&& after.key == before.key
            &&& after.value == before.value
            &&& in_toml::line_end_from(right, after.value.1) == in_toml::line_end_from(
                left,
                before.value.1,
            )
        }),
{
    let line = in_toml::line_end_from(left, at);
    let entry = in_toml::entry_at(left, at, equals, section);
    let next = in_toml::line_end_from(left, entry.value.1);
    in_toml::lemma_line_end(left, at);
    in_toml::lemma_equals(left, at, line);
    in_toml::lemma_blank_end(left, equals + 1);
    in_toml::lemma_value_end(left, entry.value.0);
    in_toml::lemma_line_end(left, entry.value.1);
    in_toml::lemma_first_byte(left, entry.value.1, left.len() as int, LINE_FEED);
    lemma_line_is_whole(left, at);
    assert(line <= next);
    lemma_same_line_end(left, right, until, at);
    lemma_same_equals(left, right, until, at, line, line);
    lemma_same_blank(left, right, until, equals + 1);
    lemma_same_toml_value(left, right, until, entry.value.0);
    lemma_same_line_end(left, right, until, entry.value.1);
    assert(left.subrange(at, equals) =~= right.subrange(at, equals));
}

#[verifier::rlimit(40)]
proof fn lemma_string_found_again(
    bytes: Seq<u8>,
    from: int,
    section: in_toml::Section,
    key: Seq<char>,
    start: int,
    end: int,
    value: Seq<u8>,
)
    requires
        0 <= from,
        in_toml::plain_string(in_toml::entries_from(bytes, from, section), key) == Some(
            (start, end),
        ),
        fits_in_quotes(bytes, start, end, value),
    ensures
        in_toml::plain_string(
            in_toml::entries_from(spliced(bytes, start, end, value), from, section),
            key,
        ) == Some((start, start + value.len())),
    decreases bytes.len() - from,
{
    let after = spliced(bytes, start, end, value);
    let at = in_toml::blank_end(bytes, from);
    let line = in_toml::line_end_from(bytes, at);
    lemma_found_behind(bytes, from, section, key);
    lemma_spliced(bytes, start, end, value);
    in_toml::lemma_progress(bytes, from);
    in_toml::lemma_blank_end(bytes, from);
    in_toml::lemma_line_end(bytes, at);
    in_toml::lemma_progress(after, from);
    if bytes[at] == LINE_FEED || bytes[at] == CARRIAGE_RETURN {
        lemma_found_behind(bytes, at + 1, section, key);
        lemma_same_blank(bytes, after, start, from);
        assert(bytes[at] == after[at]);
        lemma_string_found_again(bytes, at + 1, section, key, start, end, value);
    } else if bytes[at] == HASH {
        lemma_found_behind(bytes, line, section, key);
        lemma_same_blank(bytes, after, start, from);
        lemma_same_line_end(bytes, after, start, at);
        assert(bytes[at] == after[at]);
        lemma_string_found_again(bytes, line, section, key, start, end, value);
    } else if bytes[at] == OPEN_BRACKET {
        let later = in_toml::after_header(bytes, at, line, section);
        lemma_found_behind(bytes, line, later, key);
        lemma_same_blank(bytes, after, start, from);
        lemma_same_line_end(bytes, after, start, at);
        assert(bytes[at] == after[at]);
        lemma_same_header(bytes, after, start, at, line, section);
        lemma_string_found_again(bytes, line, later, key, start, end, value);
    } else {
        match in_toml::equals_from(bytes, at, line) {
            None => {
                lemma_found_behind(bytes, line, section, key);
                lemma_same_blank(bytes, after, start, from);
                lemma_same_line_end(bytes, after, start, at);
                assert(bytes[at] == after[at]);
                lemma_same_lack(bytes, after, start, at, line);
                lemma_string_found_again(bytes, line, section, key, start, end, value);
            },
            Some(equals) => {
                let entry = in_toml::entry_at(bytes, at, equals, section);
                let next = in_toml::line_end_from(bytes, entry.value.1);
                let rest = in_toml::entries_from(bytes, next, section);
                assert((seq![entry] + rest).drop_first() =~= rest);
                in_toml::lemma_equals(bytes, at, line);
                in_toml::lemma_blank_end(bytes, equals + 1);
                if entry.block is None && entry.key == key {
                    assert(entry.string == Some((start, end)));
                    lemma_same_blank(bytes, after, start, from);
                    assert(bytes[at] == after[at]);
                    lemma_rewritten_entry(bytes, at, equals, section, start, end, value);
                    let written = in_toml::entry_at(after, at, equals, section);
                    let others = in_toml::entries_from(
                        after,
                        in_toml::line_end_from(after, written.value.1),
                        section,
                    );
                    assert((seq![written] + others)[0] == written);
                } else {
                    lemma_found_behind(bytes, next, section, key);
                    lemma_same_blank(bytes, after, start, from);
                    assert(bytes[at] == after[at]);
                    lemma_earlier_entry(bytes, after, start, at, equals, section);
                    lemma_string_found_again(bytes, next, section, key, start, end, value);
                    let written = in_toml::entry_at(after, at, equals, section);
                    let others = in_toml::entries_from(after, next, section);
                    assert((seq![written] + others).drop_first() =~= others);
                    assert((seq![written] + others)[0] == written);
                }
            },
        }
    }
}

/// After the string of the first entry with a key in a TOML text is rewritten
/// with bytes that fit in its quotes, it is found where it was, up to the end of
/// those bytes.
pub proof fn law_toml_string_is_found_again(
    bytes: Seq<u8>,
    key: Seq<char>,
    start: int,
    end: int,
    value: Seq<u8>,
)
    requires
        in_toml::plain_string(in_toml::entries_of(bytes), key) == Some((start, end)),
        fits_in_quotes(bytes, start, end, value),
    ensures
        in_toml::plain_string(
            in_toml::entries_of(spliced(bytes, start, end, value)),
            key,
        ) == Some((start, start + value.len())),
{
    lemma_string_found_again(bytes, 0, in_toml::top(), key, start, end, value);
}

} // verus!
