//! Where keys and values stand in TOML text.

use core::ops::Range;

use vstd::prelude::*;
use vstd::string::*;
use vstd::utf8::*;

use crate::ascii::{
    APOSTROPHE, BACKSLASH, CARRIAGE_RETURN, CLOSE_BRACE, CLOSE_BRACKET, EQUALS, HASH, LINE_FEED,
    OPEN_BRACE, OPEN_BRACKET, QUOTE, SPACE, TAB,
};
use crate::text::{
    after_prefix, chars_of, is_whitespace, join_slices, joined, maybe_text, same_text, slices,
    strip_prefix, whitespace,
};
use crate::utf8::{cut, is_cut, lemma_ascii_boundaries, lemma_end_boundaries, text_between};

verus! {

// ---------------------------------------------------------------------------
// Models of lines and values

/// The first position from `from` on that holds neither space nor tab.
pub open spec fn blank_end(bytes: Seq<u8>, from: int) -> int
    decreases bytes.len() - from,
{
    if 0 <= from < bytes.len() && (bytes[from] == SPACE || bytes[from] == TAB) {
        blank_end(bytes, from + 1)
    } else {
        from
    }
}

/// The first `byte` in `from..end`, or `end` where there is none.
pub open spec fn first_byte(bytes: Seq<u8>, from: int, end: int, byte: u8) -> int
    decreases end - from,
{
    if from >= end || bytes[from] == byte {
        if from <= end {
            from
        } else {
            end
        }
    } else {
        first_byte(bytes, from + 1, end, byte)
    }
}

/// Where the line ends that `from` is in: at its line feed, or at the end of
/// the text.
pub open spec fn line_end_from(bytes: Seq<u8>, from: int) -> int {
    first_byte(bytes, from, bytes.len() as int, LINE_FEED)
}

pub open spec fn is_quote(byte: u8) -> bool {
    byte == QUOTE || byte == APOSTROPHE
}

pub open spec fn opens(byte: u8) -> bool {
    byte == OPEN_BRACKET || byte == OPEN_BRACE
}

pub open spec fn closes(byte: u8) -> bool {
    byte == CLOSE_BRACKET || byte == CLOSE_BRACE
}

/// The first `=` in `from..end` outside quotes.
pub open spec fn equals_from(bytes: Seq<u8>, from: int, end: int) -> Option<int>
    decreases end + 1 - from,
{
    if from >= end {
        None
    } else if bytes[from] == EQUALS {
        Some(from)
    } else if is_quote(bytes[from]) {
        proof {
            lemma_first_byte(bytes, from + 1, end, bytes[from]);
        }
        equals_from(bytes, first_byte(bytes, from + 1, end, bytes[from]) + 1, end)
    } else {
        equals_from(bytes, from + 1, end)
    }
}

/// Whether three of `quote` stand at `at`.
pub open spec fn tripled(bytes: Seq<u8>, at: int, quote: u8) -> bool {
    &&& 0 <= at && at + 3 <= bytes.len()
    &&& bytes[at] == quote && bytes[at + 1] == quote && bytes[at + 2] == quote
}

/// Just past the three quotes at `close` and the up to two more that may stand
/// right before the closing three.
pub open spec fn run_end(bytes: Seq<u8>, close: int, quote: u8) -> int {
    if !(close + 3 < bytes.len() && bytes[close + 3] == quote) {
        close + 3
    } else if !(close + 4 < bytes.len() && bytes[close + 4] == quote) {
        close + 4
    } else {
        close + 5
    }
}

/// Just past the end of a multi-line string, reading on from `from`.
pub open spec fn triple_end(bytes: Seq<u8>, from: int, quote: u8) -> int
    decreases bytes.len() + 1 - from,
{
    if from >= bytes.len() {
        bytes.len() as int
    } else if quote == QUOTE && bytes[from] == BACKSLASH {
        triple_end(bytes, from + 2, quote)
    } else if tripled(bytes, from, quote) {
        run_end(bytes, from, quote)
    } else {
        triple_end(bytes, from + 1, quote)
    }
}

/// Just past the end of a single-line string, reading on from `from`. It ends
/// with its line where its quote is missing.
pub open spec fn single_end(bytes: Seq<u8>, from: int, quote: u8) -> int
    decreases bytes.len() + 1 - from,
{
    if from >= bytes.len() {
        bytes.len() as int
    } else if bytes[from] == LINE_FEED {
        from
    } else if quote == QUOTE && bytes[from] == BACKSLASH {
        single_end(bytes, from + 2, quote)
    } else if bytes[from] == quote {
        from + 1
    } else {
        single_end(bytes, from + 1, quote)
    }
}

/// Just past the string that the quote at `start` opens.
pub open spec fn string_end(bytes: Seq<u8>, start: int) -> int {
    if tripled(bytes, start, bytes[start]) {
        triple_end(bytes, start + 3, bytes[start])
    } else {
        single_end(bytes, start + 1, bytes[start])
    }
}

/// Just past the bracket that closes the last of `depth` open ones, reading on
/// from `from`. Brackets in strings and comments do not count.
pub open spec fn brackets_end(bytes: Seq<u8>, from: int, depth: int) -> int
    decreases bytes.len() - from,
{
    if !(0 <= from < bytes.len()) {
        bytes.len() as int
    } else if is_quote(bytes[from]) {
        proof {
            lemma_string_end(bytes, from);
        }
        brackets_end(bytes, string_end(bytes, from), depth)
    } else if bytes[from] == HASH {
        proof {
            lemma_line_end(bytes, from);
        }
        brackets_end(bytes, line_end_from(bytes, from), depth)
    } else if opens(bytes[from]) {
        brackets_end(bytes, from + 1, depth + 1)
    } else if closes(bytes[from]) {
        if depth <= 1 {
            from + 1
        } else {
            brackets_end(bytes, from + 1, depth - 1)
        }
    } else {
        brackets_end(bytes, from + 1, depth)
    }
}

/// Where a number, a date or a flag ends: with its line or at a comment.
pub open spec fn bare_end(bytes: Seq<u8>, from: int) -> int
    decreases bytes.len() - from,
{
    if 0 <= from < bytes.len() && bytes[from] != LINE_FEED && bytes[from] != CARRIAGE_RETURN
        && bytes[from] != HASH {
        bare_end(bytes, from + 1)
    } else {
        from
    }
}

/// Just past the value that starts at `start`, however many lines it spans.
pub open spec fn value_end(bytes: Seq<u8>, start: int) -> int {
    if 0 <= start < bytes.len() && is_quote(bytes[start]) {
        string_end(bytes, start)
    } else if 0 <= start < bytes.len() && opens(bytes[start]) {
        brackets_end(bytes, start + 1, 1)
    } else {
        bare_end(bytes, start)
    }
}

/// The ends of what is between the quotes of the value at `start..after`, if
/// that is a single-line string with both its quotes.
pub open spec fn quoted(bytes: Seq<u8>, start: int, after: int) -> Option<(int, int)> {
    if 0 <= start < bytes.len() && is_quote(bytes[start]) && after >= start + 2 && bytes[after - 1]
        == bytes[start] && !tripled(bytes, start, bytes[start]) {
        Some((start + 1, after - 1))
    } else {
        None
    }
}

// ---------------------------------------------------------------------------
// Models of keys and entries

/// A dotted key without its quotes and the blanks around its parts: `a . "b.c"`
/// is `a.b.c`. Inside quotes everything stays, up to the quote `open`.
pub open spec fn normalized(text: Seq<char>, open: Option<char>) -> Seq<char>
    decreases text.len(),
{
    if text.len() == 0 {
        text
    } else {
        let first = text[0];
        let rest = text.drop_first();
        match open {
            Some(quote) => if first == quote {
                normalized(rest, None)
            } else {
                seq![first] + normalized(rest, open)
            },
            None => if first == '"' || first == '\'' {
                normalized(rest, Some(first))
            } else if is_whitespace(first) {
                normalized(rest, None)
            } else {
                seq![first] + normalized(rest, None)
            },
        }
    }
}

/// A `key = value` line.
pub struct EntryModel {
    /// The key spelled out in full from its table header.
    pub key: Seq<char>,
    /// The `[[array]]` block the entry sits in, numbered through the file.
    pub block: Option<int>,
    /// The ends of the raw value text.
    pub value: (int, int),
    /// The ends of the contents of a value that is a single-line string.
    pub string: Option<(int, int)>,
}

/// Which table the lines at some place belong to.
pub struct Section {
    pub table: Seq<char>,
    pub block: Option<int>,
    /// How many `[[array]]` headers came so far.
    pub blocks: int,
}

/// The section at the top of a document.
pub open spec fn top() -> Section {
    Section { table: Seq::empty(), block: None, blocks: 0 }
}

/// The section after a header line that stands at `at..end`. A header that its
/// line does not close changes nothing.
pub open spec fn after_header(bytes: Seq<u8>, at: int, end: int, section: Section) -> Section {
    let array = at + 1 < bytes.len() && bytes[at + 1] == OPEN_BRACKET;
    let start = if array {
        at + 2
    } else {
        at + 1
    };
    let close = first_byte(bytes, start, end, CLOSE_BRACKET);
    if close >= end {
        section
    } else {
        Section {
            table: normalized(text_between(bytes, start, close), None),
            block: if array {
                Some(section.blocks + 1)
            } else {
                None
            },
            blocks: if array {
                section.blocks + 1
            } else {
                section.blocks
            },
        }
    }
}

/// A key in full from its table.
pub open spec fn full_key(table: Seq<char>, key: Seq<char>) -> Seq<char> {
    if table.len() == 0 {
        key
    } else {
        table + seq!['.'] + key
    }
}

/// The entry of a line whose key stands at `at..equals`.
pub open spec fn entry_at(bytes: Seq<u8>, at: int, equals: int, section: Section) -> EntryModel {
    let value = blank_end(bytes, equals + 1);
    let after = value_end(bytes, value);
    EntryModel {
        key: full_key(section.table, normalized(text_between(bytes, at, equals), None)),
        block: section.block,
        value: (value, after),
        string: quoted(bytes, value, after),
    }
}

/// The entries from `from` on, where `section` is under way.
pub open spec fn entries_from(bytes: Seq<u8>, from: int, section: Section) -> Seq<EntryModel>
    decreases bytes.len() - from,
{
    let at = blank_end(bytes, from);
    let end = line_end_from(bytes, at);
    if !(0 <= from < bytes.len()) || at >= bytes.len() {
        Seq::empty()
    } else {
        proof {
            lemma_progress(bytes, from);
        }
        if bytes[at] == LINE_FEED || bytes[at] == CARRIAGE_RETURN {
            entries_from(bytes, at + 1, section)
        } else if bytes[at] == HASH {
            entries_from(bytes, end, section)
        } else if bytes[at] == OPEN_BRACKET {
            entries_from(bytes, end, after_header(bytes, at, end, section))
        } else {
            match equals_from(bytes, at, end) {
                None => entries_from(bytes, end, section),
                Some(equals) => {
                    let entry = entry_at(bytes, at, equals, section);
                    seq![entry] + entries_from(bytes, line_end_from(bytes, entry.value.1), section)
                },
            }
        }
    }
}

/// Every top-level entry in document order.
pub open spec fn entries_of(bytes: Seq<u8>) -> Seq<EntryModel> {
    entries_from(bytes, 0, top())
}

/// The string of the first entry with this key outside any `[[array]]` block.
pub open spec fn plain_string(entries: Seq<EntryModel>, key: Seq<char>) -> Option<(int, int)>
    decreases entries.len(),
{
    if entries.len() == 0 {
        None
    } else if entries[0].block is None && entries[0].key == key {
        entries[0].string
    } else {
        plain_string(entries.drop_first(), key)
    }
}

// ---------------------------------------------------------------------------
// What the models imply

pub proof fn lemma_blank_end(bytes: Seq<u8>, from: int)
    ensures
        from <= blank_end(bytes, from),
        0 <= from <= bytes.len() ==> blank_end(bytes, from) <= bytes.len(),
        valid_utf8(bytes) && 0 <= from <= bytes.len() && is_char_boundary(bytes, from)
            ==> is_char_boundary(bytes, blank_end(bytes, from)),
    decreases bytes.len() - from,
{
    if 0 <= from < bytes.len() && (bytes[from] == SPACE || bytes[from] == TAB) {
        if valid_utf8(bytes) {
            lemma_ascii_boundaries(bytes, from);
        }
        lemma_blank_end(bytes, from + 1);
    }
}

pub proof fn lemma_first_byte(bytes: Seq<u8>, from: int, end: int, byte: u8)
    ensures
        first_byte(bytes, from, end, byte) <= end,
        from <= end ==> from <= first_byte(bytes, from, end, byte),
        from <= end && first_byte(bytes, from, end, byte) < end ==> bytes[first_byte(
            bytes,
            from,
            end,
            byte,
        )] == byte,
    decreases end - from,
{
    if from < end && bytes[from] != byte {
        lemma_first_byte(bytes, from + 1, end, byte);
    }
}

pub proof fn lemma_line_end(bytes: Seq<u8>, from: int)
    ensures
        line_end_from(bytes, from) <= bytes.len(),
        from <= bytes.len() ==> from <= line_end_from(bytes, from),
        0 <= from < bytes.len() && bytes[from] != LINE_FEED ==> from < line_end_from(bytes, from),
        valid_utf8(bytes) && 0 <= from ==> is_char_boundary(bytes, line_end_from(bytes, from)),
{
    lemma_first_byte(bytes, from, bytes.len() as int, LINE_FEED);
    if 0 <= from < bytes.len() && bytes[from] != LINE_FEED {
        lemma_first_byte(bytes, from + 1, bytes.len() as int, LINE_FEED);
    }
    if valid_utf8(bytes) && 0 <= from {
        lemma_end_boundaries(bytes);
        let end = line_end_from(bytes, from);
        if end < bytes.len() {
            lemma_ascii_boundaries(bytes, end);
        }
    }
}

pub proof fn lemma_equals(bytes: Seq<u8>, from: int, end: int)
    ensures
        equals_from(bytes, from, end) matches Some(equals) ==> from <= equals < end
            && bytes[equals] == EQUALS,
    decreases end + 1 - from,
{
    if from < end && bytes[from] != EQUALS {
        if is_quote(bytes[from]) {
            let close = first_byte(bytes, from + 1, end, bytes[from]);
            lemma_first_byte(bytes, from + 1, end, bytes[from]);
            lemma_equals(bytes, close + 1, end);
        } else {
            lemma_equals(bytes, from + 1, end);
        }
    }
}

pub proof fn lemma_triple_end(bytes: Seq<u8>, from: int, quote: u8)
    requires
        0 <= from,
        is_quote(quote),
    ensures
        triple_end(bytes, from, quote) <= bytes.len(),
        from <= bytes.len() ==> from <= triple_end(bytes, from, quote),
        valid_utf8(bytes) ==> is_char_boundary(bytes, triple_end(bytes, from, quote)),
    decreases bytes.len() + 1 - from,
{
    if from >= bytes.len() {
        if valid_utf8(bytes) {
            lemma_end_boundaries(bytes);
        }
    } else if quote == QUOTE && bytes[from] == BACKSLASH {
        lemma_triple_end(bytes, from + 2, quote);
    } else if tripled(bytes, from, quote) {
        if valid_utf8(bytes) {
            lemma_ascii_boundaries(bytes, run_end(bytes, from, quote) - 1);
        }
    } else {
        lemma_triple_end(bytes, from + 1, quote);
    }
}

pub proof fn lemma_single_end(bytes: Seq<u8>, from: int, quote: u8)
    requires
        0 <= from,
        is_quote(quote),
    ensures
        single_end(bytes, from, quote) <= bytes.len(),
        from <= bytes.len() ==> from <= single_end(bytes, from, quote),
        valid_utf8(bytes) ==> is_char_boundary(bytes, single_end(bytes, from, quote)),
    decreases bytes.len() + 1 - from,
{
    if from >= bytes.len() {
        if valid_utf8(bytes) {
            lemma_end_boundaries(bytes);
        }
    } else if bytes[from] == LINE_FEED || bytes[from] == quote && !(quote == QUOTE && bytes[from]
        == BACKSLASH) {
        if valid_utf8(bytes) {
            lemma_ascii_boundaries(bytes, from);
        }
    } else if quote == QUOTE && bytes[from] == BACKSLASH {
        lemma_single_end(bytes, from + 2, quote);
    } else {
        lemma_single_end(bytes, from + 1, quote);
    }
}

pub proof fn lemma_string_end(bytes: Seq<u8>, start: int)
    ensures
        0 <= start < bytes.len() && is_quote(bytes[start]) ==> {
            &&& start < string_end(bytes, start) <= bytes.len()
            &&& valid_utf8(bytes) ==> is_char_boundary(bytes, string_end(bytes, start))
        },
{
    if 0 <= start < bytes.len() && is_quote(bytes[start]) {
        lemma_triple_end(bytes, start + 3, bytes[start]);
        lemma_single_end(bytes, start + 1, bytes[start]);
    }
}

pub proof fn lemma_brackets_end(bytes: Seq<u8>, from: int, depth: int)
    requires
        0 <= from <= bytes.len(),
    ensures
        from <= brackets_end(bytes, from, depth) <= bytes.len(),
        valid_utf8(bytes) ==> is_char_boundary(bytes, brackets_end(bytes, from, depth)),
    decreases bytes.len() - from,
{
    if from >= bytes.len() {
        if valid_utf8(bytes) {
            lemma_end_boundaries(bytes);
        }
    } else if is_quote(bytes[from]) {
        lemma_string_end(bytes, from);
        lemma_brackets_end(bytes, string_end(bytes, from), depth);
    } else if bytes[from] == HASH {
        lemma_line_end(bytes, from);
        lemma_brackets_end(bytes, line_end_from(bytes, from), depth);
    } else if opens(bytes[from]) {
        lemma_brackets_end(bytes, from + 1, depth + 1);
    } else if closes(bytes[from]) {
        if valid_utf8(bytes) {
            lemma_ascii_boundaries(bytes, from);
        }
        lemma_brackets_end(bytes, from + 1, depth - 1);
    } else {
        lemma_brackets_end(bytes, from + 1, depth);
    }
}

pub proof fn lemma_bare_end(bytes: Seq<u8>, from: int)
    requires
        0 <= from <= bytes.len(),
    ensures
        from <= bare_end(bytes, from) <= bytes.len(),
        valid_utf8(bytes) ==> is_char_boundary(bytes, bare_end(bytes, from)),
    decreases bytes.len() - from,
{
    if from >= bytes.len() {
        if valid_utf8(bytes) {
            lemma_end_boundaries(bytes);
        }
    } else if bytes[from] != LINE_FEED && bytes[from] != CARRIAGE_RETURN && bytes[from] != HASH {
        lemma_bare_end(bytes, from + 1);
    } else if valid_utf8(bytes) {
        lemma_ascii_boundaries(bytes, from);
    }
}

/// A value ends behind its start, inside the text and between characters.
pub proof fn lemma_value_end(bytes: Seq<u8>, start: int)
    requires
        0 <= start <= bytes.len(),
    ensures
        start <= value_end(bytes, start) <= bytes.len(),
        valid_utf8(bytes) ==> is_char_boundary(bytes, value_end(bytes, start)),
{
    lemma_string_end(bytes, start);
    if start < bytes.len() {
        lemma_brackets_end(bytes, start + 1, 1);
    }
    lemma_bare_end(bytes, start);
}

/// Reading entries moves on.
pub proof fn lemma_progress(bytes: Seq<u8>, from: int)
    ensures
        0 <= from && blank_end(bytes, from) < bytes.len() ==> {
            let at = blank_end(bytes, from);
            let end = line_end_from(bytes, at);
            &&& from <= at
            &&& bytes[at] != LINE_FEED ==> at < end <= bytes.len()
            &&& equals_from(bytes, at, end) matches Some(equals) ==> {
                let value = blank_end(bytes, equals + 1);
                let after = value_end(bytes, value);
                &&& at <= equals < value <= after <= bytes.len()
                &&& after <= line_end_from(bytes, after) <= bytes.len()
            }
        },
{
    let at = blank_end(bytes, from);
    let end = line_end_from(bytes, at);
    lemma_blank_end(bytes, from);
    lemma_line_end(bytes, at);
    lemma_equals(bytes, at, end);
    if 0 <= from && at < bytes.len() {
        if let Some(equals) = equals_from(bytes, at, end) {
            lemma_blank_end(bytes, equals + 1);
            lemma_value_end(bytes, blank_end(bytes, equals + 1));
            lemma_line_end(bytes, value_end(bytes, blank_end(bytes, equals + 1)));
        }
    }
}

// ---------------------------------------------------------------------------
// Scanning lines and values

/// The first position from `from` on that holds neither space nor tab.
pub fn skip_blank(bytes: &[u8], from: usize) -> (end: usize)
    ensures
        end == blank_end(bytes@, from as int),
{
    let mut cursor: usize = from;
    while cursor < bytes.len() && (bytes[cursor] == SPACE || bytes[cursor] == TAB)
        invariant
            blank_end(bytes@, from as int) == blank_end(bytes@, cursor as int),
        decreases bytes@.len() - cursor,
    {
        cursor = cursor + 1;
    }
    cursor
}

/// The first `byte` in `from..end`, or `end` where there is none.
fn find_byte(bytes: &[u8], from: usize, end: usize, byte: u8) -> (at: usize)
    requires
        end <= bytes@.len(),
    ensures
        at == first_byte(bytes@, from as int, end as int, byte),
{
    let mut cursor: usize = from;
    while cursor < end
        invariant
            end <= bytes@.len(),
            first_byte(bytes@, from as int, end as int, byte) == first_byte(
                bytes@,
                cursor as int,
                end as int,
                byte,
            ),
        decreases end - cursor,
    {
        if bytes[cursor] == byte {
            return cursor;
        }
        cursor = cursor + 1;
    }
    end
}

/// Where the line ends that `from` is in.
pub fn line_end(bytes: &[u8], from: usize) -> (end: usize)
    ensures
        end == line_end_from(bytes@, from as int),
{
    find_byte(bytes, from, bytes.len(), LINE_FEED)
}

/// The `=` that ends a key, skipping over quoted key segments.
pub fn find_equals(bytes: &[u8], from: usize, end: usize) -> (equals: Option<usize>)
    requires
        end <= bytes@.len(),
    ensures
        match equals {
            Some(at) => equals_from(bytes@, from as int, end as int) == Some(at as int),
            None => equals_from(bytes@, from as int, end as int) is None,
        },
{
    let mut cursor: usize = from;
    while cursor < end
        invariant
            end <= bytes@.len(),
            equals_from(bytes@, from as int, end as int) == equals_from(
                bytes@,
                cursor as int,
                end as int,
            ),
        decreases end - cursor,
    {
        let byte = bytes[cursor];
        if byte == EQUALS {
            return Some(cursor);
        }
        if byte == QUOTE || byte == APOSTROPHE {
            proof {
                lemma_first_byte(bytes@, cursor + 1, end as int, byte);
            }
            cursor = find_byte(bytes, cursor + 1, end, byte);
            if cursor == end {
                assert(equals_from(bytes@, end + 1, end as int) is None);
                return None;
            }
        }
        cursor = cursor + 1;
    }
    None
}

/// Whether three of `quote` stand at `at`.
fn is_tripled(bytes: &[u8], at: usize, quote: u8) -> (is: bool)
    requires
        at < bytes@.len(),
    ensures
        is == tripled(bytes@, at as int, quote),
{
    bytes.len() - at >= 3 && bytes[at] == quote && bytes[at + 1] == quote && bytes[at + 2] == quote
}

/// Index just past the string that the quote at `start` opens.
fn skip_string(bytes: &[u8], start: usize) -> (end: usize)
    requires
        start < bytes@.len(),
        is_quote(bytes@[start as int]),
    ensures
        end == string_end(bytes@, start as int),
{
    let quote = bytes[start];
    let escapes = quote == QUOTE;
    if is_tripled(bytes, start, quote) {
        let mut cursor: usize = start + 3;
        while cursor < bytes.len()
            invariant
                escapes == (quote == QUOTE),
                quote == bytes@[start as int],
                tripled(bytes@, start as int, quote),
                start + 3 <= cursor,
                triple_end(bytes@, start + 3, quote) == triple_end(bytes@, cursor as int, quote),
            decreases bytes@.len() - cursor,
        {
            if escapes && bytes[cursor] == BACKSLASH {
                if bytes.len() - cursor < 2 {
                    assert(triple_end(bytes@, cursor + 2, quote) == bytes@.len());
                    return bytes.len();
                }
                cursor = cursor + 2;
            } else if is_tripled(bytes, cursor, quote) {
                // Up to two quotes may sit right before the closing three.
                let mut end: usize = cursor + 3;
                if end < bytes.len() && bytes[end] == quote {
                    end = end + 1;
                    if end < bytes.len() && bytes[end] == quote {
                        end = end + 1;
                    }
                }
                return end;
            } else {
                cursor = cursor + 1;
            }
        }
        return bytes.len();
    }
    let mut cursor: usize = start + 1;
    while cursor < bytes.len() && bytes[cursor] != LINE_FEED
        invariant
            escapes == (quote == QUOTE),
            quote == bytes@[start as int],
            !tripled(bytes@, start as int, quote),
            single_end(bytes@, start + 1, quote) == single_end(bytes@, cursor as int, quote),
        decreases bytes@.len() - cursor,
    {
        if escapes && bytes[cursor] == BACKSLASH {
            if bytes.len() - cursor < 2 {
                assert(single_end(bytes@, cursor + 2, quote) == bytes@.len());
                return bytes.len();
            }
            cursor = cursor + 2;
        } else if bytes[cursor] == quote {
            return cursor + 1;
        } else {
            cursor = cursor + 1;
        }
    }
    if cursor < bytes.len() {
        cursor
    } else {
        bytes.len()
    }
}

/// Index just past the value starting at `start`, however many lines it spans.
pub fn skip_value(bytes: &[u8], start: usize) -> (end: usize)
    ensures
        end == value_end(bytes@, start as int),
{
    if start >= bytes.len() {
        return start;
    }
    let first = bytes[start];
    if first == QUOTE || first == APOSTROPHE {
        return skip_string(bytes, start);
    }
    if first == OPEN_BRACKET || first == OPEN_BRACE {
        let mut depth: usize = 1;
        let mut cursor: usize = start + 1;
        while cursor < bytes.len()
            invariant
                start < cursor <= bytes@.len(),
                1 <= depth <= cursor,
                brackets_end(bytes@, start + 1, 1) == brackets_end(
                    bytes@,
                    cursor as int,
                    depth as int,
                ),
                first == bytes@[start as int],
                opens(first),
            decreases bytes@.len() - cursor,
        {
            let byte = bytes[cursor];
            if byte == QUOTE || byte == APOSTROPHE {
                proof {
                    lemma_string_end(bytes@, cursor as int);
                }
                cursor = skip_string(bytes, cursor);
            } else if byte == HASH {
                proof {
                    lemma_line_end(bytes@, cursor as int);
                }
                cursor = line_end(bytes, cursor);
            } else {
                if byte == OPEN_BRACKET || byte == OPEN_BRACE {
                    depth = depth + 1;
                } else if byte == CLOSE_BRACKET || byte == CLOSE_BRACE {
                    if depth == 1 {
                        return cursor + 1;
                    }
                    depth = depth - 1;
                }
                cursor = cursor + 1;
            }
        }
        return bytes.len();
    }
    let mut cursor: usize = start;
    while cursor < bytes.len() && bytes[cursor] != LINE_FEED && bytes[cursor] != CARRIAGE_RETURN
        && bytes[cursor] != HASH
        invariant
            bare_end(bytes@, start as int) == bare_end(bytes@, cursor as int),
        decreases bytes@.len() - cursor,
    {
        cursor = cursor + 1;
    }
    cursor
}

/// Span of what is between the quotes of the value at `start..after`, if that
/// is a single-line string with both its quotes.
pub fn single_line_string(bytes: &[u8], start: usize, after: usize) -> (span: Option<Range<usize>>)
    requires
        start < bytes@.len() && is_quote(bytes@[start as int]) && after >= start + 2 ==> after
            <= bytes@.len(),
    ensures
        maybe_ends(span) == quoted(bytes@, start as int, after as int),
{
    if start >= bytes.len() {
        return None;
    }
    let quote = bytes[start];
    if (quote == QUOTE || quote == APOSTROPHE) && after >= start && after - start >= 2
        && bytes[after - 1] == quote && !is_tripled(bytes, start, quote) {
        Some(Range { start: start + 1, end: after - 1 })
    } else {
        None
    }
}

/// A span that may be missing, as a pair of positions.
pub open spec fn maybe_ends(span: Option<Range<usize>>) -> Option<(int, int)> {
    match span {
        Some(span) => Some((span.start as int, span.end as int)),
        None => None,
    }
}

// ---------------------------------------------------------------------------
// Scanning keys and entries

/// `a . "b.c"` → `a.b.c`. Quoted segments keep their dots; escapes are left as
/// is.
pub fn normalize(text: &str) -> (key: String)
    ensures
        key@ == normalized(text@, None),
{
    let characters = chars_of(text);
    let mut key = String::new();
    let mut quote: Option<char> = None;
    let mut at: usize = 0;
    assert(text@.skip(0) =~= text@);
    assert(normalized(text@, None) =~= key@ + normalized(text@.skip(0), quote));
    while at < characters.len()
        invariant
            at <= characters@.len(),
            characters@ == text@,
            normalized(text@, None) == key@ + normalized(text@.skip(at as int), quote),
        decreases characters@.len() - at,
    {
        let character = characters[at];
        let ghost before = key@;
        let ghost rest = text@.skip(at as int);
        assert(rest.drop_first() =~= text@.skip(at + 1));
        let open = quote;
        match open {
            Some(closing) => {
                if character == closing {
                    quote = None;
                } else {
                    key.push(character);
                    assert(before + (seq![character] + normalized(rest.drop_first(), open))
                        =~= key@ + normalized(rest.drop_first(), open));
                }
            },
            None => {
                if character == '"' || character == '\'' {
                    quote = Some(character);
                } else if !whitespace(character) {
                    key.push(character);
                    assert(before + (seq![character] + normalized(rest.drop_first(), open))
                        =~= key@ + normalized(rest.drop_first(), open));
                }
            },
        }
        at = at + 1;
    }
    assert(text@.skip(at as int) =~= Seq::empty());
    assert(normalized(text@.skip(at as int), quote) =~= Seq::empty());
    key
}

/// A `key = value` line, with the key spelled out in full from its table
/// header: `version` under `[package]` becomes `package.version`.
#[derive(Debug)]
pub struct Entry {
    pub key: String,
    /// The `[[array]]` block the entry sits in, numbered through the file.
    pub block: Option<usize>,
    /// Raw value text.
    pub value: Range<usize>,
    /// Contents of the value when it's a single-line basic or literal string.
    pub string: Option<Range<usize>>,
}

impl View for Entry {
    type V = EntryModel;

    open spec fn view(&self) -> EntryModel {
        EntryModel {
            key: self.key@,
            block: match self.block {
                Some(block) => Some(block as int),
                None => None,
            },
            value: (self.value.start as int, self.value.end as int),
            string: maybe_ends(self.string),
        }
    }
}

/// Entries as models.
pub open spec fn models(entries: Seq<Entry>) -> Seq<EntryModel> {
    Seq::new(entries.len(), |i: int| entries[i]@)
}

/// Every top-level entry in document order. Values are skipped whole, so a
/// `[section]` inside a multi-line string or array is never taken for a header.
pub fn entries(source: &str) -> (entries: Vec<Entry>)
    ensures
        models(entries@) == entries_of(source.spec_bytes()),
{
    let bytes = source.as_bytes();
    let ghost all = entries_of(bytes@);
    let mut entries: Vec<Entry> = Vec::new();
    let mut table = String::new();
    let mut block: Option<usize> = None;
    let mut blocks: usize = 0;
    let mut cursor: usize = 0;
    let ghost mut section = top();
    proof {
        encode_utf8_valid_utf8(source@);
        lemma_end_boundaries(bytes@);
        assert(all =~= models(entries@) + entries_from(bytes@, 0, section));
    }
    while cursor < bytes.len()
        invariant
            bytes@ == source.spec_bytes(),
            valid_utf8(bytes@),
            cursor <= bytes@.len(),
            is_char_boundary(bytes@, cursor as int),
            blocks <= cursor,
            all == entries_of(bytes@),
            section == (Section {
                table: table@,
                block: match block {
                    Some(block) => Some(block as int),
                    None => None,
                },
                blocks: blocks as int,
            }),
            all == models(entries@) + entries_from(bytes@, cursor as int, section),
        decreases bytes@.len() - cursor,
    {
        proof {
            lemma_blank_end(bytes@, cursor as int);
            lemma_progress(bytes@, cursor as int);
        }
        let at = skip_blank(bytes, cursor);
        if at >= bytes.len() {
            assert(all =~= models(entries@));
            return entries;
        }
        let end = line_end(bytes, at);
        proof {
            lemma_line_end(bytes@, at as int);
        }
        let first = bytes[at];
        if first == LINE_FEED || first == CARRIAGE_RETURN {
            proof {
                lemma_ascii_boundaries(bytes@, at as int);
            }
            cursor = at + 1;
        } else if first == HASH {
            cursor = end;
        } else if first == OPEN_BRACKET {
            proof {
                lemma_ascii_boundaries(bytes@, at as int);
            }
            let array = at + 1 < bytes.len() && bytes[at + 1] == OPEN_BRACKET;
            proof {
                if array {
                    lemma_ascii_boundaries(bytes@, at + 1);
                    lemma_first_byte(bytes@, at + 1, bytes@.len() as int, LINE_FEED);
                    lemma_line_end(bytes@, at + 1);
                }
            }
            let start = if array {
                at + 2
            } else {
                at + 1
            };
            let close = find_byte(bytes, start, end, CLOSE_BRACKET);
            proof {
                lemma_first_byte(bytes@, start as int, end as int, CLOSE_BRACKET);
                section = after_header(bytes@, at as int, end as int, section);
            }
            if close < end {
                proof {
                    lemma_ascii_boundaries(bytes@, close as int);
                }
                table = normalize(cut(source, start, close));
                if array {
                    blocks = blocks + 1;
                    block = Some(blocks);
                } else {
                    block = None;
                }
            }
            cursor = end;
        } else {
            match find_equals(bytes, at, end) {
                None => {
                    cursor = end;
                },
                Some(equals) => {
                    proof {
                        lemma_equals(bytes@, at as int, end as int);
                        lemma_ascii_boundaries(bytes@, equals as int);
                        lemma_blank_end(bytes@, equals + 1);
                    }
                    let local = normalize(cut(source, at, equals));
                    let value = skip_blank(bytes, equals + 1);
                    proof {
                        lemma_value_end(bytes@, value as int);
                    }
                    let after = skip_value(bytes, value);
                    let mut key = String::new();
                    if table.as_str().as_bytes().len() > 0 {
                        key.append(table.as_str());
                        key.push('.');
                    }
                    key.append(local.as_str());
                    let entry = Entry {
                        key,
                        block,
                        value: Range { start: value, end: after },
                        string: single_line_string(bytes, value, after),
                    };
                    let ghost before = models(entries@);
                    proof {
                        lemma_empty(table@);
                        lemma_line_end(bytes@, after as int);
                        assert(entry@.key =~= full_key(section.table, local@));
                        assert(entry@ == entry_at(bytes@, at as int, equals as int, section));
                    }
                    entries.push(entry);
                    cursor = line_end(bytes, after);
                    assert(models(entries@) =~= before.push(entry@));
                    assert(all =~= models(entries@) + entries_from(
                        bytes@,
                        cursor as int,
                        section,
                    ));
                },
            }
        }
    }
    assert(all =~= models(entries@));
    entries
}

/// Only the empty text has no bytes.
proof fn lemma_empty(text: Seq<char>)
    ensures
        encode_utf8(text).len() == 0 <==> text.len() == 0,
{
    encode_utf8_decode_utf8(text);
    if text.len() > 0 {
        encode_utf8_first_scalar(text);
    }
}

/// Span of the string at a dotted `path` outside any `[[array]]` block.
pub fn string_at(source: &str, path: &[&str]) -> (span: Option<Range<usize>>)
    ensures
        maybe_ends(span) == plain_string(
            entries_of(source.spec_bytes()),
            joined(slices(path@), "."@),
        ),
        span matches Some(contents) ==> is_cut(
            source.spec_bytes(),
            contents.start as int,
            contents.end as int,
        ),
{
    let key = join_slices(path, ".");
    let entries = entries(source);
    let ghost all = models(entries@);
    let mut at: usize = 0;
    assert(all.skip(0) =~= all);
    while at < entries.len()
        invariant
            at <= entries@.len(),
            all == models(entries@),
            all == entries_of(source.spec_bytes()),
            key@ == joined(slices(path@), "."@),
            plain_string(all, key@) == plain_string(all.skip(at as int), key@),
        decreases entries@.len() - at,
    {
        assert(all.skip(at as int)[0] == entries@[at as int]@);
        assert(all.skip(at as int).drop_first() =~= all.skip(at + 1));
        if entries[at].block.is_none() && same_text(entries[at].key.as_str(), key.as_str()) {
            proof {
                encode_utf8_valid_utf8(source@);
                lemma_entries_in_place(source.spec_bytes());
                assert(in_place(source.spec_bytes(), all[at as int]));
            }
            return match &entries[at].string {
                Some(span) => Some(Range { start: span.start, end: span.end }),
                None => None,
            };
        }
        at = at + 1;
    }
    None
}

// ---------------------------------------------------------------------------
// Where entries stand

/// Whether the text can be cut at the ends of an entry's value, and its string
/// lies inside its value.
pub open spec fn in_place(bytes: Seq<u8>, entry: EntryModel) -> bool {
    &&& is_cut(bytes, entry.value.0, entry.value.1)
    &&& entry.string matches Some((start, end)) ==> entry.value.0 < start <= end < entry.value.1
        && is_cut(bytes, start, end)
}

/// Whether entries are in place, none before `from`, each behind the one
/// before.
pub open spec fn all_in_place(bytes: Seq<u8>, from: int, entries: Seq<EntryModel>) -> bool {
    &&& forall|i: int|
        0 <= i < entries.len() ==> in_place(bytes, #[trigger] entries[i]) && from
            <= entries[i].value.0
    &&& forall|i: int, j: int|
        0 <= i < j < entries.len() ==> (#[trigger] entries[i]).value.1 <= (
        #[trigger] entries[j]).value.0
}

proof fn lemma_in_place(bytes: Seq<u8>, start: int)
    requires
        valid_utf8(bytes),
        0 <= start <= bytes.len(),
        is_char_boundary(bytes, start),
    ensures
        is_cut(bytes, start, value_end(bytes, start)),
        quoted(bytes, start, value_end(bytes, start)) matches Some((first, last)) ==> start < first
            <= last < value_end(bytes, start) && is_cut(bytes, first, last),
{
    let after = value_end(bytes, start);
    lemma_value_end(bytes, start);
    if quoted(bytes, start, after) is Some {
        lemma_ascii_boundaries(bytes, start);
        lemma_ascii_boundaries(bytes, after - 1);
    }
}

proof fn lemma_entries_from(bytes: Seq<u8>, from: int, section: Section)
    requires
        valid_utf8(bytes),
        0 <= from <= bytes.len(),
        is_char_boundary(bytes, from),
    ensures
        all_in_place(bytes, from, entries_from(bytes, from, section)),
    decreases bytes.len() - from,
{
    let at = blank_end(bytes, from);
    let end = line_end_from(bytes, at);
    if from < bytes.len() && at < bytes.len() {
        lemma_progress(bytes, from);
        lemma_blank_end(bytes, from);
        lemma_line_end(bytes, at);
        if bytes[at] == LINE_FEED || bytes[at] == CARRIAGE_RETURN {
            lemma_ascii_boundaries(bytes, at);
            lemma_entries_from(bytes, at + 1, section);
        } else if bytes[at] == HASH {
            lemma_entries_from(bytes, end, section);
        } else if bytes[at] == OPEN_BRACKET {
            lemma_entries_from(bytes, end, after_header(bytes, at, end, section));
        } else {
            match equals_from(bytes, at, end) {
                None => {
                    lemma_entries_from(bytes, end, section);
                },
                Some(equals) => {
                    let entry = entry_at(bytes, at, equals, section);
                    let next = line_end_from(bytes, entry.value.1);
                    lemma_equals(bytes, at, end);
                    lemma_ascii_boundaries(bytes, equals);
                    lemma_blank_end(bytes, equals + 1);
                    lemma_in_place(bytes, entry.value.0);
                    lemma_line_end(bytes, entry.value.1);
                    lemma_entries_from(bytes, next, section);
                    let rest = entries_from(bytes, next, section);
                    let all = entries_from(bytes, from, section);
                    assert(all =~= seq![entry] + rest);
                    assert forall|i: int| 0 <= i < all.len() implies in_place(
                        bytes,
                        #[trigger] all[i],
                    ) && from <= all[i].value.0 by {
                        if i > 0 {
                            assert(all[i] == rest[i - 1]);
                        }
                    }
                    assert forall|i: int, j: int| 0 <= i < j < all.len() implies (
                    #[trigger] all[i]).value.1 <= (#[trigger] all[j]).value.0 by {
                        assert(all[j] == rest[j - 1]);
                        if i > 0 {
                            assert(all[i] == rest[i - 1]);
                        }
                    }
                },
            }
        }
    }
}

/// The entries of a text are in place, one behind the other.
pub proof fn lemma_entries_in_place(bytes: Seq<u8>)
    requires
        valid_utf8(bytes),
    ensures
        all_in_place(bytes, 0, entries_of(bytes)),
{
    lemma_end_boundaries(bytes);
    lemma_entries_from(bytes, 0, top());
}

// ---------------------------------------------------------------------------
// Lockfile packages

/// One `[[package]]` block of a lockfile.
pub struct PackageModel {
    pub name: Seq<char>,
    pub source: Option<Seq<char>>,
    pub version: Option<(int, int)>,
}

/// A package of which nothing is known yet.
pub open spec fn unnamed() -> PackageModel {
    PackageModel { name: Seq::empty(), source: None, version: None }
}

/// A package with what `entry` says of `field`.
pub open spec fn with_field(
    bytes: Seq<u8>,
    package: PackageModel,
    field: Seq<char>,
    entry: EntryModel,
) -> PackageModel {
    if field == "name"@ {
        PackageModel {
            name: match entry.string {
                Some((start, end)) => text_between(bytes, start, end),
                None => Seq::empty(),
            },
            ..package
        }
    } else if field == "source"@ {
        PackageModel {
            source: Some(text_between(bytes, entry.value.0, entry.value.1)),
            ..package
        }
    } else if field == "version"@ {
        PackageModel { version: entry.string, ..package }
    } else {
        package
    }
}

/// The packages that `entries` describe, each with the number of its block. An
/// entry of the block of the last package adds to it; one of another block
/// starts the next package.
pub open spec fn numbered_packages(
    bytes: Seq<u8>,
    entries: Seq<EntryModel>,
) -> Seq<(int, PackageModel)>
    decreases entries.len(),
{
    if entries.len() == 0 {
        Seq::empty()
    } else {
        let prior = numbered_packages(bytes, entries.drop_last());
        let entry = entries.last();
        match (entry.block, after_prefix(entry.key, "package."@)) {
            (Some(block), Some(field)) => {
                let grown = if prior.len() == 0 || prior.last().0 != block {
                    prior.push((block, unnamed()))
                } else {
                    prior
                };
                grown.update(
                    grown.len() - 1,
                    (block, with_field(bytes, grown.last().1, field, entry)),
                )
            },
            _ => prior,
        }
    }
}

/// The `[[package]]` blocks of a lockfile.
pub open spec fn packages_of(bytes: Seq<u8>) -> Seq<PackageModel> {
    numbered_packages(bytes, entries_of(bytes)).map_values(|numbered: (int, PackageModel)| numbered.1)
}

/// Whether the versions of packages can be cut out, each behind the one before
/// and none ending behind `bound`.
pub open spec fn versions_in_place(
    bytes: Seq<u8>,
    packages: Seq<(int, PackageModel)>,
    bound: int,
) -> bool {
    &&& forall|i: int|
        0 <= i < packages.len() ==> ((#[trigger] packages[i]).1.version matches Some((start, end))
            ==> is_cut(bytes, start, end) && end <= bound)
    &&& forall|i: int, j: int|
        0 <= i < j < packages.len() && (#[trigger] packages[i]).1.version is Some && (
        #[trigger] packages[j]).1.version is Some ==> (packages[i].1.version->0).1
            <= (packages[j].1.version->0).0
}

proof fn lemma_versions_in_place(bytes: Seq<u8>, entries: Seq<EntryModel>)
    requires
        all_in_place(bytes, 0, entries),
    ensures
        versions_in_place(
            bytes,
            numbered_packages(bytes, entries),
            if entries.len() == 0 {
                0
            } else {
                entries.last().value.1
            },
        ),
    decreases entries.len(),
{
    if entries.len() > 0 {
        let fewer = entries.drop_last();
        let entry = entries.last();
        assert forall|i: int| 0 <= i < fewer.len() implies in_place(bytes, #[trigger] fewer[i])
            && 0 <= fewer[i].value.0 by {
            assert(fewer[i] == entries[i]);
        }
        assert forall|i: int, j: int| 0 <= i < j < fewer.len() implies (
        #[trigger] fewer[i]).value.1 <= (#[trigger] fewer[j]).value.0 by {
            assert(fewer[i] == entries[i] && fewer[j] == entries[j]);
        }
        lemma_versions_in_place(bytes, fewer);
        assert(in_place(bytes, entries[entries.len() - 1]));
        if fewer.len() > 0 {
            assert(fewer.last() == entries[entries.len() - 2]);
            assert(entries[entries.len() - 2].value.1 <= entries[entries.len() - 1].value.0);
        }
    }
}

/// One `[[package]]` block of a Cargo.lock or uv.lock.
#[derive(Debug)]
pub struct Package {
    pub name: String,
    /// Raw `source` value; local packages have none (Cargo) or an
    /// `editable`/`virtual` one (uv).
    pub source: Option<String>,
    pub version: Option<Range<usize>>,
}

impl View for Package {
    type V = PackageModel;

    open spec fn view(&self) -> PackageModel {
        PackageModel {
            name: self.name@,
            source: maybe_text(self.source),
            version: maybe_ends(self.version),
        }
    }
}

/// Packages as models.
pub open spec fn package_models(packages: Seq<Package>) -> Seq<PackageModel> {
    Seq::new(packages.len(), |i: int| packages[i]@)
}

/// Whether the versions of packages can be cut out of the text, each behind the
/// one before.
pub open spec fn in_order(bytes: Seq<u8>, packages: Seq<PackageModel>) -> bool {
    &&& forall|i: int|
        0 <= i < packages.len() ==> ((#[trigger] packages[i]).version matches Some((start, end))
            ==> is_cut(bytes, start, end))
    &&& forall|i: int, j: int|
        0 <= i < j < packages.len() && (#[trigger] packages[i]).version is Some && (
        #[trigger] packages[j]).version is Some ==> (packages[i].version->0).1
            <= (packages[j].version->0).0
}

/// The versions of the packages of a text can be cut out of it, each behind the
/// one before.
pub proof fn lemma_packages_in_order(bytes: Seq<u8>)
    requires
        valid_utf8(bytes),
    ensures
        in_order(bytes, packages_of(bytes)),
{
    let all = entries_of(bytes);
    let numbered = numbered_packages(bytes, all);
    let listed = packages_of(bytes);
    lemma_entries_in_place(bytes);
    lemma_versions_in_place(bytes, all);
    assert forall|i: int| 0 <= i < listed.len() implies ((
    #[trigger] listed[i]).version matches Some((start, end)) ==> is_cut(bytes, start, end)) by {
        assert(listed[i] == numbered[i].1);
    }
    assert forall|i: int, j: int|
        0 <= i < j < listed.len() && (#[trigger] listed[i]).version is Some && (
        #[trigger] listed[j]).version is Some implies (listed[i].version->0).1
        <= (listed[j].version->0).0 by {
        assert(listed[i] == numbered[i].1 && listed[j] == numbered[j].1);
    }
}

/// The `[[package]]` blocks of a lockfile.
pub fn packages(source: &str) -> (packages: Vec<Package>)
    ensures
        package_models(packages@) == packages_of(source.spec_bytes()),
        in_order(source.spec_bytes(), package_models(packages@)),
{
    let entries = entries(source);
    let ghost bytes = source.spec_bytes();
    let ghost all = models(entries@);
    let mut packages: Vec<Package> = Vec::new();
    let mut last: usize = 0;
    let ghost mut numbered = numbered_packages(bytes, all.take(0));
    proof {
        encode_utf8_valid_utf8(source@);
        lemma_entries_in_place(bytes);
        assert(all.take(0) =~= Seq::empty());
    }
    let mut at: usize = 0;
    while at < entries.len()
        invariant
            at <= entries@.len(),
            bytes == source.spec_bytes(),
            all == models(entries@),
            all_in_place(bytes, 0, all),
            numbered == numbered_packages(bytes, all.take(at as int)),
            packages@.len() == numbered.len(),
            forall|i: int|
                0 <= i < packages@.len() ==> (#[trigger] packages@[i])@ == numbered[i].1,
            packages@.len() > 0 ==> numbered.last().0 == last,
        decreases entries@.len() - at,
    {
        let entry = &entries[at];
        let ghost more = all.take(at + 1);
        proof {
            assert(more.drop_last() =~= all.take(at as int));
            assert(more.last() == entry@);
            assert(in_place(bytes, all[at as int]));
        }
        let ghost prior = numbered;
        proof {
            numbered = numbered_packages(bytes, more);
        }
        if let Some(block) = entry.block {
            if let Some(field) = strip_prefix(entry.key.as_str(), "package.") {
                if packages.len() == 0 || last != block {
                    packages.push(Package { name: String::new(), source: None, version: None });
                    last = block;
                    assert(packages@.last()@ == unnamed());
                }
                let ghost grown = if prior.len() == 0 || prior.last().0 != block as int {
                    prior.push((block as int, unnamed()))
                } else {
                    prior
                };
                let index = packages.len() - 1;
                assert(grown.len() == packages@.len());
                assert(packages@[index as int]@ == grown.last().1);
                let ghost before = packages@;
                let mut package = packages.remove(index);
                if same_text(field.as_str(), "name") {
                    package.name = match &entry.string {
                        Some(span) => cut(source, span.start, span.end).to_owned(),
                        None => String::new(),
                    };
                } else if same_text(field.as_str(), "source") {
                    package.source = Some(
                        cut(source, entry.value.start, entry.value.end).to_owned(),
                    );
                } else if same_text(field.as_str(), "version") {
                    package.version = match &entry.string {
                        Some(span) => Some(Range { start: span.start, end: span.end }),
                        None => None,
                    };
                }
                assert(package@ == with_field(bytes, grown.last().1, field@, entry@));
                packages.push(package);
                assert(numbered =~= grown.update(
                    grown.len() - 1,
                    (block as int, with_field(bytes, grown.last().1, field@, entry@)),
                ));
                assert forall|i: int| 0 <= i < packages@.len() implies (
                #[trigger] packages@[i])@ == numbered[i].1 by {
                    if i < index {
                        assert(packages@[i] == before[i]);
                    }
                }
            }
        }
        at = at + 1;
    }
    proof {
        assert(all.take(at as int) =~= all);
        assert(package_models(packages@) =~= packages_of(bytes));
        lemma_packages_in_order(bytes);
    }
    packages
}

} // verus!
