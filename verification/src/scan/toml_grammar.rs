//! TOML as it is written, and what the scanner makes of it.

use vstd::prelude::*;

use crate::ascii::{
    BACKSLASH, CARRIAGE_RETURN, CLOSE_BRACKET, EQUALS, HASH, LINE_FEED, OPEN_BRACKET, QUOTE, SPACE,
    TAB,
};
use crate::scan::in_toml::{
    after_header, bare_end, blank_end, brackets_end, closes, entries_from, entries_of, entry_at,
    equals_from, first_byte, full_key, is_quote, line_end_from, normalized, opens, quoted,
    single_end, string_end, top, triple_end, tripled, value_end, EntryModel, Section,
};
use crate::utf8::{holds_at, lemma_pieces};

verus! {

/// A part of an array or an inline table.
pub enum Part {
    /// A byte of a number, a name or a separator.
    Plain(u8),
    /// A string.
    Text(Text),
    /// A comment up to the end of its line: what is behind its `#`.
    Comment(Seq<u8>),
    /// An array or an inline table: its brackets and what is between them.
    Group(u8, Seq<Part>, u8),
}

/// A string: its quote, what is between its quotes, and whether it may span
/// lines.
pub struct Text {
    pub quote: u8,
    pub raw: Seq<u8>,
    pub long: bool,
}

/// The value of an entry.
pub enum Toml {
    Text(Text),
    /// A number, a date or a flag, with the blanks behind it.
    Bare(Seq<u8>),
    /// An array or an inline table: its brackets and what is between them.
    Group(u8, Seq<Part>, u8),
}

/// The quotes that a string starts and ends with.
pub open spec fn quotes(text: Text) -> Seq<u8> {
    if text.long {
        seq![text.quote, text.quote, text.quote]
    } else {
        seq![text.quote]
    }
}

/// How a string is written.
pub open spec fn written_text(text: Text) -> Seq<u8> {
    quotes(text) + text.raw + quotes(text)
}

/// How a part is written.
pub open spec fn written_part(part: Part) -> Seq<u8>
    decreases part,
{
    match part {
        Part::Plain(byte) => seq![byte],
        Part::Text(text) => written_text(text),
        Part::Comment(raw) => seq![HASH] + raw + seq![LINE_FEED],
        Part::Group(open, parts, close) => seq![open] + written_parts(parts) + seq![close],
    }
}

/// How parts are written.
pub open spec fn written_parts(parts: Seq<Part>) -> Seq<u8>
    decreases parts,
{
    if parts.len() == 0 {
        Seq::empty()
    } else {
        written_part(parts[0]) + written_parts(parts.drop_first())
    }
}

/// How a value is written.
pub open spec fn written(value: Toml) -> Seq<u8> {
    match value {
        Toml::Text(text) => written_text(text),
        Toml::Bare(raw) => raw,
        Toml::Group(open, parts, close) => seq![open] + written_parts(parts) + seq![close],
    }
}

// ---------------------------------------------------------------------------
// What is well written

/// Whether a byte does not occur.
pub open spec fn lacks(bytes: Seq<u8>, byte: u8) -> bool {
    forall|i: int| 0 <= i < bytes.len() ==> (#[trigger] bytes[i]) != byte
}

/// Whether the quotes behind a string close it, and no earlier ones do.
pub open spec fn is_text(text: Text) -> bool {
    let written = text.raw + quotes(text) + seq![HASH];
    let end = text.raw.len() + quotes(text).len();
    &&& is_quote(text.quote)
    &&& if text.long {
        triple_end(written, 0, text.quote) == end
    } else {
        single_end(written, 0, text.quote) == end
    }
}

/// Whether a byte can stand in an array or an inline table by itself.
pub open spec fn is_plain(byte: u8) -> bool {
    !is_quote(byte) && byte != HASH && !opens(byte) && !closes(byte)
}

/// Whether a part is well written, where `next` is the byte behind it.
pub open spec fn part_well_written(part: Part, next: u8) -> bool
    decreases part,
{
    match part {
        Part::Plain(byte) => is_plain(byte),
        Part::Text(text) => is_text(text) && next != text.quote,
        Part::Comment(raw) => lacks(raw, LINE_FEED),
        Part::Group(open, parts, close) => opens(open) && closes(close) && parts_well_written(
            parts,
            close,
        ),
    }
}

/// Whether parts are well written, where `close` is the bracket behind them.
pub open spec fn parts_well_written(parts: Seq<Part>, close: u8) -> bool
    decreases parts,
{
    parts.len() > 0 ==> {
        let rest = parts.drop_first();
        &&& part_well_written(parts[0], (written_parts(rest) + seq![close])[0])
        &&& parts_well_written(rest, close)
    }
}

/// Whether a byte can be part of a number, a date or a flag, or stand behind it.
pub open spec fn is_bare(byte: u8) -> bool {
    byte != LINE_FEED && byte != CARRIAGE_RETURN && byte != HASH
}

/// Whether a value is well written.
pub open spec fn well_written(value: Toml) -> bool {
    match value {
        Toml::Text(text) => is_text(text),
        Toml::Bare(raw) => {
            &&& raw.len() > 0
            &&& raw[0] != SPACE && raw[0] != TAB && !is_quote(raw[0]) && !opens(raw[0])
            &&& forall|i: int| 0 <= i < raw.len() ==> is_bare(#[trigger] raw[i])
        },
        Toml::Group(open, parts, close) => opens(open) && closes(close) && parts_well_written(
            parts,
            close,
        ),
    }
}

/// Whether a value ends where this byte stands behind it.
pub open spec fn ends(value: Toml, next: u8) -> bool {
    match value {
        Toml::Text(text) => next != text.quote,
        Toml::Bare(_) => !is_bare(next),
        Toml::Group(_, _, _) => true,
    }
}

// ---------------------------------------------------------------------------
// What the scanner makes of values

proof fn lemma_triple_at(bytes: Seq<u8>, at: int, text: Text, from: int)
    requires
        text.long,
        is_quote(text.quote),
        holds_at(bytes, at, text.raw + quotes(text)),
        at + text.raw.len() + 3 < bytes.len() ==> bytes[at + text.raw.len() + 3] != text.quote,
        0 <= from,
        triple_end(text.raw + quotes(text) + seq![HASH], from, text.quote) == text.raw.len() + 3,
    ensures
        triple_end(bytes, at + from, text.quote) == at + text.raw.len() + 3,
    decreases text.raw.len() + 5 - from,
{
    let held = text.raw + quotes(text);
    let whole = held + seq![HASH];
    let quote = text.quote;
    let end = held.len() as int;
    assert forall|i: int| 0 <= i < end implies bytes[at + i] == #[trigger] whole[i] by {
        assert(bytes[at + i] == held[i]);
    }
    assert(whole[end] == HASH);
    assert(from < end) by {
        assert(triple_end(whole, end + 1, quote) == whole.len());
    }
    assert(bytes[at + from] == whole[from]);
    if quote == QUOTE && whole[from] == BACKSLASH {
        lemma_triple_at(bytes, at, text, from + 2);
    } else {
        if from + 1 < end {
            assert(bytes[at + (from + 1)] == whole[from + 1]);
        }
        if from + 2 < end {
            assert(bytes[at + (from + 2)] == whole[from + 2]);
        }
        if from + 3 < end {
            assert(bytes[at + (from + 3)] == whole[from + 3]);
        }
        if from + 4 < end {
            assert(bytes[at + (from + 4)] == whole[from + 4]);
        }
        assert(tripled(bytes, at + from, quote) == tripled(whole, from, quote));
        if !tripled(whole, from, quote) {
            lemma_triple_at(bytes, at, text, from + 1);
        }
    }
}

pub proof fn lemma_single_at(bytes: Seq<u8>, at: int, text: Text, from: int)
    requires
        !text.long,
        is_quote(text.quote),
        holds_at(bytes, at, text.raw + quotes(text)),
        0 <= from,
        single_end(text.raw + quotes(text) + seq![HASH], from, text.quote) == text.raw.len() + 1,
    ensures
        single_end(bytes, at + from, text.quote) == at + text.raw.len() + 1,
    decreases text.raw.len() + 3 - from,
{
    let held = text.raw + quotes(text);
    let whole = held + seq![HASH];
    let end = held.len() as int;
    assert(whole[end] == HASH);
    assert(whole.len() == end + 1);
    assert(from < end) by {
        assert(single_end(whole, end + 1, text.quote) == whole.len());
    }
    assert(whole[from] == held[from]);
    assert(bytes[at + from] == held[from]);
    if held[from] == LINE_FEED {
    } else if text.quote == QUOTE && held[from] == BACKSLASH {
        lemma_single_at(bytes, at, text, from + 2);
    } else if held[from] != text.quote {
        lemma_single_at(bytes, at, text, from + 1);
    }
}

/// A string ends where it is written to.
proof fn lemma_text_at(bytes: Seq<u8>, at: int, text: Text)
    requires
        holds_at(bytes, at, written_text(text)),
        is_text(text),
        at + written_text(text).len() < bytes.len() ==> bytes[at + written_text(text).len()]
            != text.quote,
    ensures
        bytes[at] == text.quote,
        string_end(bytes, at) == at + written_text(text).len(),
        tripled(bytes, at, text.quote) == text.long,
{
    let around = quotes(text);
    let held = text.raw + around;
    assert(written_text(text) =~= around + held);
    lemma_pieces(bytes, at, around, held);
    assert(bytes[at + 0] == around[0]);
    if text.long {
        assert(bytes[at + 1] == around[1]);
        assert(bytes[at + 2] == around[2]);
        lemma_triple_at(bytes, at + 3, text, 0);
    } else {
        let whole = held + seq![HASH];
        lemma_single_at(bytes, at + 1, text, 0);
        assert(bytes[at + 1 + 0] == held[0]);
        assert(whole[0] == held[0]);
        if text.raw.len() == 0 {
            assert(bytes[at + 2] != text.quote || at + 2 >= bytes.len());
        } else {
            assert(held[0] != text.quote);
        }
    }
}

/// A line feed is the first at or behind `from` where none stands before it.
proof fn lemma_first_at(bytes: Seq<u8>, from: int, at: int, end: int, byte: u8)
    requires
        from <= at < end,
        bytes[at] == byte,
        forall|i: int| from <= i < at ==> (#[trigger] bytes[i]) != byte,
    ensures
        first_byte(bytes, from, end, byte) == at,
    decreases at - from,
{
    if from < at {
        assert(bytes[from] != byte);
        lemma_first_at(bytes, from + 1, at, end, byte);
    }
}

/// A whole part is passed over.
proof fn lemma_part_passed(bytes: Seq<u8>, at: int, part: Part, depth: int)
    requires
        holds_at(bytes, at, written_part(part)),
        at + written_part(part).len() < bytes.len(),
        part_well_written(part, bytes[at + written_part(part).len()]),
        depth >= 1,
    ensures
        brackets_end(bytes, at, depth) == brackets_end(
            bytes,
            at + written_part(part).len(),
            depth,
        ),
    decreases part, 0int,
{
    match part {
        Part::Plain(byte) => {
            assert(bytes[at + 0] == seq![byte][0]);
        },
        Part::Text(text) => {
            lemma_text_at(bytes, at, text);
        },
        Part::Comment(raw) => {
            let mark = seq![HASH];
            let feed = seq![LINE_FEED];
            lemma_pieces(bytes, at, mark + raw, feed);
            lemma_pieces(bytes, at, mark, raw);
            let end = at + 1 + raw.len();
            assert(bytes[at + 0] == mark[0]);
            assert(bytes[end + 0] == feed[0]);
            assert forall|i: int| at <= i < end implies (#[trigger] bytes[i]) != LINE_FEED by {
                if i > at {
                    assert(bytes[at + 1 + (i - at - 1)] == raw[i - at - 1]);
                }
            }
            lemma_first_at(bytes, at, end, bytes.len() as int, LINE_FEED);
            assert(brackets_end(bytes, end, depth) == brackets_end(bytes, end + 1, depth));
        },
        Part::Group(open, parts, close) => {
            lemma_group_passed(bytes, at, open, parts, close, depth);
        },
    }
}

/// Whole parts are passed over.
proof fn lemma_parts_passed(bytes: Seq<u8>, at: int, parts: Seq<Part>, close: u8, depth: int)
    requires
        holds_at(bytes, at, written_parts(parts) + seq![close]),
        parts_well_written(parts, close),
        depth >= 1,
    ensures
        brackets_end(bytes, at, depth) == brackets_end(
            bytes,
            at + written_parts(parts).len(),
            depth,
        ),
    decreases parts, 0int,
{
    if parts.len() > 0 {
        let part = written_part(parts[0]);
        let rest = parts.drop_first();
        let behind = written_parts(rest) + seq![close];
        assert(written_parts(parts) + seq![close] =~= part + behind);
        lemma_pieces(bytes, at, part, behind);
        assert(bytes[at + part.len() + 0] == behind[0]);
        lemma_part_passed(bytes, at, parts[0], depth);
        lemma_parts_passed(bytes, at + part.len(), rest, close, depth);
    }
}

/// A whole array or inline table is passed over.
proof fn lemma_group_passed(
    bytes: Seq<u8>,
    at: int,
    open: u8,
    parts: Seq<Part>,
    close: u8,
    depth: int,
)
    requires
        holds_at(bytes, at, seq![open] + written_parts(parts) + seq![close]),
        opens(open),
        closes(close),
        parts_well_written(parts, close),
        depth >= 0,
    ensures
        bytes[at] == open,
        brackets_end(bytes, at + 1, depth + 1) == if depth == 0 {
            at + 2 + written_parts(parts).len()
        } else {
            brackets_end(bytes, at + 2 + written_parts(parts).len(), depth)
        },
        brackets_end(bytes, at, depth) == brackets_end(bytes, at + 1, depth + 1),
    decreases parts, 1int,
{
    let inner = written_parts(parts) + seq![close];
    assert(seq![open] + written_parts(parts) + seq![close] =~= seq![open] + inner);
    lemma_pieces(bytes, at, seq![open], inner);
    assert(bytes[at + 0] == seq![open][0]);
    lemma_parts_passed(bytes, at + 1, parts, close, depth + 1);
    assert(bytes[at + 1 + written_parts(parts).len()] == inner[written_parts(parts).len() as int]);
}

proof fn lemma_bare_at(bytes: Seq<u8>, at: int, raw: Seq<u8>, from: int)
    requires
        holds_at(bytes, at, raw),
        forall|i: int| 0 <= i < raw.len() ==> is_bare(#[trigger] raw[i]),
        at + raw.len() < bytes.len() ==> !is_bare(bytes[at + raw.len()]),
        0 <= from <= raw.len(),
    ensures
        bare_end(bytes, at + from) == at + raw.len(),
    decreases raw.len() - from,
{
    if from < raw.len() {
        assert(bytes[at + from] == raw[from]);
        assert(is_bare(raw[from]));
        lemma_bare_at(bytes, at, raw, from + 1);
    }
}

/// A well-written value is skipped whole, over however many lines it is
/// written: brackets, quotes, `#` and `=` inside strings, and whatever is in
/// comments, end nothing.
pub proof fn law_values_are_skipped_whole(bytes: Seq<u8>, at: int, value: Toml)
    requires
        holds_at(bytes, at, written(value)),
        well_written(value),
        at + written(value).len() < bytes.len() ==> ends(value, bytes[at + written(value).len()]),
    ensures
        value_end(bytes, at) == at + written(value).len(),
        quoted(bytes, at, at + written(value).len()) == match value {
            Toml::Text(text) => if text.long {
                None
            } else {
                Some((at + 1, at + 1 + text.raw.len()))
            },
            _ => None,
        },
{
    match value {
        Toml::Text(text) => {
            let around = quotes(text);
            lemma_text_at(bytes, at, text);
            lemma_pieces(bytes, at, around + text.raw, around);
            assert(bytes[at + (around + text.raw).len() + 0] == around[0]);
        },
        Toml::Bare(raw) => {
            assert(bytes[at + 0] == raw[0]);
            lemma_bare_at(bytes, at, raw, 0);
        },
        Toml::Group(open, parts, close) => {
            lemma_group_passed(bytes, at, open, parts, close, 0);
        },
    }
}

// ---------------------------------------------------------------------------
// Lines

/// A line of a document, without its line feed. An entry's value may take it
/// over several lines.
pub enum Line {
    /// Blanks, and what else comes before the line feed: nothing, or a carriage
    /// return.
    Blank(Seq<u8>, Seq<u8>),
    /// Blanks, and what is behind the `#`.
    Comment(Seq<u8>, Seq<u8>),
    Header(Header),
    Entry(Entry),
}

/// `[name]` or `[[name]]`.
pub struct Header {
    pub indent: Seq<u8>,
    pub array: bool,
    pub name: Seq<u8>,
    /// What is behind the bracket that ends the name.
    pub after: Seq<u8>,
}

/// `key = value`.
pub struct Entry {
    pub indent: Seq<u8>,
    /// The key with the blanks behind it.
    pub key: Seq<u8>,
    pub blank: Seq<u8>,
    pub value: Toml,
    /// What is behind the value in its last line.
    pub after: Seq<u8>,
}

/// The brackets before the name of a table.
pub open spec fn brackets(array: bool) -> Seq<u8> {
    if array {
        seq![OPEN_BRACKET, OPEN_BRACKET]
    } else {
        seq![OPEN_BRACKET]
    }
}

/// How a line is written.
pub open spec fn written_line(line: Line) -> Seq<u8> {
    match line {
        Line::Blank(indent, after) => indent + after,
        Line::Comment(indent, raw) => indent + (seq![HASH] + raw),
        Line::Header(header) => header.indent + (brackets(header.array) + (header.name + (
        seq![CLOSE_BRACKET] + header.after))),
        Line::Entry(entry) => entry.indent + (entry.key + (seq![EQUALS] + (entry.blank + (written(
            entry.value,
        ) + entry.after)))),
    }
}

/// How lines are written.
pub open spec fn written_lines(lines: Seq<Line>) -> Seq<u8>
    decreases lines.len(),
{
    if lines.len() == 0 {
        Seq::empty()
    } else if lines.len() == 1 {
        written_line(lines[0])
    } else {
        written_line(lines[0]) + (seq![LINE_FEED] + written_lines(lines.drop_first()))
    }
}

/// Whether all bytes are blanks.
pub open spec fn is_blank(bytes: Seq<u8>) -> bool {
    forall|i: int| 0 <= i < bytes.len() ==> (#[trigger] bytes[i]) == SPACE || bytes[i] == TAB
}

/// Whether bytes can be a key: an `=` in them is inside quotes, and they are
/// nothing else that a line can start with.
pub open spec fn is_key(key: Seq<u8>) -> bool {
    &&& key.len() > 0
    &&& key[0] != SPACE && key[0] != TAB && key[0] != CARRIAGE_RETURN
    &&& key[0] != HASH && key[0] != OPEN_BRACKET
    &&& lacks(key, LINE_FEED)
    &&& equals_from(key.push(EQUALS), 0, key.len() + 1int) == Some(key.len() as int)
}

/// Whether a line is well written.
pub open spec fn line_well_written(line: Line) -> bool {
    match line {
        Line::Blank(indent, after) => is_blank(indent) && (after.len() == 0 || after
            == seq![CARRIAGE_RETURN]),
        Line::Comment(indent, raw) => is_blank(indent) && lacks(raw, LINE_FEED),
        Line::Header(header) => {
            &&& is_blank(header.indent)
            &&& lacks(header.name, LINE_FEED) && lacks(header.name, CLOSE_BRACKET)
            &&& !header.array && header.name.len() > 0 ==> header.name[0] != OPEN_BRACKET
            &&& lacks(header.after, LINE_FEED)
        },
        Line::Entry(entry) => {
            &&& is_blank(entry.indent)
            &&& is_key(entry.key)
            &&& is_blank(entry.blank)
            &&& well_written(entry.value)
            &&& entry.after.len() > 0 ==> ends(entry.value, entry.after[0])
            &&& lacks(entry.after, LINE_FEED)
        },
    }
}

/// The section behind a header.
pub open spec fn headed(header: Header, section: Section) -> Section {
    let blocks = if header.array {
        section.blocks + 1
    } else {
        section.blocks
    };
    Section {
        table: normalized(vstd::utf8::decode_utf8(header.name), None),
        block: if header.array {
            Some(blocks)
        } else {
            None
        },
        blocks,
    }
}

/// What there is to find of an entry whose line starts at `at`.
pub open spec fn found(entry: Entry, at: int, section: Section) -> EntryModel {
    let start = at + entry.indent.len() + entry.key.len() + 1 + entry.blank.len();
    EntryModel {
        key: full_key(section.table, normalized(vstd::utf8::decode_utf8(entry.key), None)),
        block: section.block,
        value: (start, start + written(entry.value).len()),
        string: match entry.value {
            Toml::Text(text) => if text.long {
                None
            } else {
                Some((start + 1, start + 1 + text.raw.len()))
            },
            _ => None,
        },
    }
}

/// What there is to find of lines that start at `at`.
pub open spec fn all_found(lines: Seq<Line>, at: int, section: Section) -> Seq<EntryModel>
    decreases lines.len(),
{
    if lines.len() == 0 {
        Seq::empty()
    } else {
        let rest = lines.drop_first();
        let next = at + written_line(lines[0]).len() + 1;
        match lines[0] {
            Line::Header(header) => all_found(rest, next, headed(header, section)),
            Line::Entry(entry) => seq![found(entry, at, section)] + all_found(rest, next, section),
            _ => all_found(rest, next, section),
        }
    }
}

// ---------------------------------------------------------------------------
// What the scanner makes of lines

proof fn lemma_blanks_at(bytes: Seq<u8>, at: int, blank: Seq<u8>, from: int)
    requires
        holds_at(bytes, at, blank),
        is_blank(blank),
        at + blank.len() < bytes.len() ==> bytes[at + blank.len()] != SPACE && bytes[at
            + blank.len()] != TAB,
        0 <= from <= blank.len(),
    ensures
        blank_end(bytes, at + from) == at + blank.len(),
    decreases blank.len() - from,
{
    if from < blank.len() {
        assert(bytes[at + from] == blank[from]);
        lemma_blanks_at(bytes, at, blank, from + 1);
    }
}

/// A line ends at `stop` where no line feed comes before.
proof fn lemma_line_ends(bytes: Seq<u8>, from: int, stop: int)
    requires
        0 <= from <= stop <= bytes.len(),
        forall|i: int| from <= i < stop ==> (#[trigger] bytes[i]) != LINE_FEED,
        stop < bytes.len() ==> bytes[stop] == LINE_FEED,
    ensures
        line_end_from(bytes, from) == stop,
    decreases stop - from,
{
    if from < stop {
        assert(bytes[from] != LINE_FEED);
        lemma_line_ends(bytes, from + 1, stop);
    }
}

/// The line of some place ends behind what holds no line feed.
proof fn lemma_line_reaches(bytes: Seq<u8>, from: int, to: int)
    requires
        0 <= from <= to <= bytes.len(),
        forall|i: int| from <= i < to ==> (#[trigger] bytes[i]) != LINE_FEED,
    ensures
        to <= line_end_from(bytes, from) <= bytes.len(),
    decreases to - from,
{
    if from < to {
        assert(bytes[from] != LINE_FEED);
        lemma_line_reaches(bytes, from + 1, to);
    } else {
        crate::scan::in_toml::lemma_first_byte(bytes, from, bytes.len() as int, LINE_FEED);
    }
}

/// What lacks a byte lacks it where it stands.
proof fn lemma_lacks_at(bytes: Seq<u8>, at: int, piece: Seq<u8>, byte: u8)
    requires
        holds_at(bytes, at, piece),
        lacks(piece, byte),
    ensures
        forall|i: int| at <= i < at + piece.len() ==> (#[trigger] bytes[i]) != byte,
{
    assert forall|i: int| at <= i < at + piece.len() implies (#[trigger] bytes[i]) != byte by {
        assert(bytes[at + (i - at)] == piece[i - at]);
    }
}

/// A closing quote is found in a longer text where a shorter one has it.
proof fn lemma_first_byte_at(bytes: Seq<u8>, at: int, piece: Seq<u8>, from: int, end: int, byte: u8)
    requires
        holds_at(bytes, at, piece),
        at + piece.len() <= end,
        0 <= from,
        first_byte(piece, from, piece.len() as int, byte) < piece.len(),
    ensures
        first_byte(bytes, at + from, end, byte) == at + first_byte(
            piece,
            from,
            piece.len() as int,
            byte,
        ),
    decreases piece.len() - from,
{
    assert(bytes[at + from] == piece[from]);
    if piece[from] != byte {
        lemma_first_byte_at(bytes, at, piece, from + 1, end, byte);
    }
}

/// The `=` behind a key is found.
proof fn lemma_equals_at(bytes: Seq<u8>, at: int, key: Seq<u8>, from: int, end: int)
    requires
        holds_at(bytes, at, key.push(EQUALS)),
        at + key.len() + 1 <= end,
        0 <= from,
        equals_from(key.push(EQUALS), from, key.len() + 1int) == Some(key.len() as int),
    ensures
        equals_from(bytes, at + from, end) == Some(at + key.len()),
    decreases key.len() + 2 - from,
{
    let whole = key.push(EQUALS);
    let last = whole.len() as int;
    assert(bytes[at + from] == whole[from]);
    if whole[from] == EQUALS {
    } else if is_quote(whole[from]) {
        let closing = first_byte(whole, from + 1, last, whole[from]);
        crate::scan::in_toml::lemma_first_byte(whole, from + 1, last, whole[from]);
        assert(equals_from(whole, closing + 1, last) == Some(key.len() as int));
        assert(closing < last);
        lemma_first_byte_at(bytes, at, whole, from + 1, end, whole[from]);
        lemma_equals_at(bytes, at, key, closing + 1, end);
    } else {
        lemma_equals_at(bytes, at, key, from + 1, end);
    }
}

/// A value starts with no blank.
proof fn lemma_value_starts(value: Toml)
    requires
        well_written(value),
    ensures
        written(value).len() > 0,
        written(value)[0] != SPACE,
        written(value)[0] != TAB,
{
    match value {
        Toml::Text(text) => {
            assert(written(value)[0] == text.quote);
        },
        Toml::Bare(raw) => {},
        Toml::Group(open, parts, close) => {
            assert(written(value)[0] == open);
        },
    }
}

/// A header is read, and the scan goes on at the end of its line.
proof fn lemma_header_at(bytes: Seq<u8>, at: int, header: Header, section: Section)
    requires
        holds_at(bytes, at, written_line(Line::Header(header))),
        line_well_written(Line::Header(header)),
        ({
            let stop = at + written_line(Line::Header(header)).len();
            stop < bytes.len() ==> bytes[stop] == LINE_FEED
        }),
    ensures
        entries_from(bytes, at, section) == entries_from(
            bytes,
            at + written_line(Line::Header(header)).len(),
            headed(header, section),
        ),
{
    let indent = header.indent;
    let open = brackets(header.array);
    let close = seq![CLOSE_BRACKET];
    let start = at + indent.len();
    let name = start + open.len();
    let end = name + header.name.len();
    let stop = end + 1 + header.after.len();
    lemma_pieces(bytes, at, indent, open + (header.name + (close + header.after)));
    lemma_pieces(bytes, start, open, header.name + (close + header.after));
    lemma_pieces(bytes, name, header.name, close + header.after);
    lemma_pieces(bytes, end, close, header.after);
    assert(bytes[start + 0] == open[0]);
    assert(bytes[end + 0] == close[0]);
    lemma_blanks_at(bytes, at, indent, 0);
    lemma_lacks_at(bytes, name, header.name, LINE_FEED);
    lemma_lacks_at(bytes, name, header.name, CLOSE_BRACKET);
    lemma_lacks_at(bytes, end + 1, header.after, LINE_FEED);
    if header.array {
        assert(bytes[start + 1] == open[1]);
    } else if header.name.len() > 0 {
        assert(bytes[name + 0] == header.name[0]);
    }
    assert forall|i: int| start <= i < stop implies (#[trigger] bytes[i]) != LINE_FEED by {
        if i == start + 1 && header.array {
            assert(bytes[start + 1] == open[1]);
        }
    }
    lemma_line_ends(bytes, start, stop);
    lemma_first_at(bytes, name, end, stop, CLOSE_BRACKET);
    assert(bytes.subrange(name, end) =~= header.name) by {
        assert forall|i: int| 0 <= i < header.name.len() implies bytes.subrange(name, end)[i]
            == header.name[i] by {
            assert(bytes[name + i] == header.name[i]);
        }
    }
    assert(after_header(bytes, start, stop, section) == headed(header, section));
}

/// An entry is found, and the scan goes on at the end of its last line.
proof fn lemma_entry_at(bytes: Seq<u8>, at: int, entry: Entry, section: Section)
    requires
        holds_at(bytes, at, written_line(Line::Entry(entry))),
        line_well_written(Line::Entry(entry)),
        ({
            let stop = at + written_line(Line::Entry(entry)).len();
            stop < bytes.len() ==> bytes[stop] == LINE_FEED
        }),
    ensures
        entries_from(bytes, at, section) == seq![found(entry, at, section)] + entries_from(
            bytes,
            at + written_line(Line::Entry(entry)).len(),
            section,
        ),
{
    let mark = seq![EQUALS];
    let value = written(entry.value);
    let start = at + entry.indent.len();
    let equals = start + entry.key.len();
    let first = equals + 1 + entry.blank.len();
    let after = first + value.len();
    let stop = after + entry.after.len();
    lemma_pieces(
        bytes,
        at,
        entry.indent,
        entry.key + (mark + (entry.blank + (value + entry.after))),
    );
    lemma_pieces(bytes, start, entry.key, mark + (entry.blank + (value + entry.after)));
    lemma_pieces(bytes, equals, mark, entry.blank + (value + entry.after));
    lemma_pieces(bytes, equals + 1, entry.blank, value + entry.after);
    lemma_pieces(bytes, first, value, entry.after);
    assert(bytes[start + 0] == entry.key[0]);
    assert(bytes[equals + 0] == mark[0]);
    lemma_value_starts(entry.value);
    assert(bytes[first + 0] == value[0]);
    lemma_blanks_at(bytes, at, entry.indent, 0);
    lemma_blanks_at(bytes, equals + 1, entry.blank, 0);
    lemma_lacks_at(bytes, start, entry.key, LINE_FEED);
    lemma_lacks_at(bytes, after, entry.after, LINE_FEED);
    lemma_line_reaches(bytes, start, equals + 1);
    assert(holds_at(bytes, start, entry.key.push(EQUALS)));
    lemma_equals_at(bytes, start, entry.key, 0, line_end_from(bytes, start));
    if entry.after.len() > 0 {
        assert(bytes[after + 0] == entry.after[0]);
    }
    law_values_are_skipped_whole(bytes, first, entry.value);
    lemma_line_ends(bytes, after, stop);
    assert(bytes.subrange(start, equals) =~= entry.key) by {
        assert forall|i: int| 0 <= i < entry.key.len() implies bytes.subrange(start, equals)[i]
            == entry.key[i] by {
            assert(bytes[start + i] == entry.key[i]);
        }
    }
    assert(entry_at(bytes, start, equals, section) == found(entry, at, section));
    assert(bytes[start] != LINE_FEED);
}

/// A blank line or a comment is passed over.
proof fn lemma_nothing_at(bytes: Seq<u8>, at: int, line: Line, section: Section)
    requires
        line is Blank || line is Comment,
        holds_at(bytes, at, written_line(line)),
        line_well_written(line),
        ({
            let stop = at + written_line(line).len();
            stop < bytes.len() ==> bytes[stop] == LINE_FEED
        }),
    ensures
        entries_from(bytes, at, section) == entries_from(
            bytes,
            at + written_line(line).len(),
            section,
        ),
{
    let stop = at + written_line(line).len();
    match line {
        Line::Blank(indent, after) => {
            let start = at + indent.len();
            lemma_pieces(bytes, at, indent, after);
            if after.len() > 0 {
                assert(bytes[start + 0] == after[0]);
            }
            lemma_blanks_at(bytes, at, indent, 0);
            assert(blank_end(bytes, stop) == stop);
        },
        Line::Comment(indent, raw) => {
            let start = at + indent.len();
            let mark = seq![HASH];
            lemma_pieces(bytes, at, indent, mark + raw);
            lemma_pieces(bytes, start, mark, raw);
            assert(bytes[start + 0] == mark[0]);
            lemma_blanks_at(bytes, at, indent, 0);
            lemma_lacks_at(bytes, start + 1, raw, LINE_FEED);
            lemma_line_ends(bytes, start, stop);
        },
        _ => {},
    }
}

proof fn lemma_lines_at(bytes: Seq<u8>, at: int, lines: Seq<Line>, section: Section)
    requires
        holds_at(bytes, at, written_lines(lines)),
        at + written_lines(lines).len() == bytes.len(),
        forall|k: int| 0 <= k < lines.len() ==> line_well_written(#[trigger] lines[k]),
    ensures
        entries_from(bytes, at, section) =~= all_found(lines, at, section),
    decreases lines.len(),
{
    if lines.len() > 0 {
        let line = lines[0];
        let rest = lines.drop_first();
        let first = written_line(line);
        let stop = at + first.len();
        assert(line_well_written(lines[0]));
        assert forall|k: int| 0 <= k < rest.len() implies line_well_written(#[trigger] rest[k]) by {
            assert(rest[k] == lines[k + 1]);
        }
        let later = match line {
            Line::Header(header) => headed(header, section),
            _ => section,
        };
        if lines.len() > 1 {
            let feed = seq![LINE_FEED];
            lemma_pieces(bytes, at, first, feed + written_lines(rest));
            lemma_pieces(bytes, stop, feed, written_lines(rest));
            assert(bytes[stop + 0] == feed[0]);
            lemma_lines_at(bytes, stop + 1, rest, later);
            assert(blank_end(bytes, stop) == stop);
            assert(entries_from(bytes, stop, later) == entries_from(bytes, stop + 1, later));
        } else {
            assert(all_found(rest, stop + 1, later) =~= Seq::empty());
            assert(entries_from(bytes, stop, later) =~= Seq::empty());
        }
        match line {
            Line::Header(header) => {
                lemma_header_at(bytes, at, header, section);
            },
            Line::Entry(entry) => {
                lemma_entry_at(bytes, at, entry, section);
            },
            _ => {
                lemma_nothing_at(bytes, at, line, section);
            },
        }
    }
}

/// The entries of a well-written document are those that are written, each with
/// its full key, its block and its place. What looks like a header or an entry
/// inside a value or a comment is none.
pub proof fn law_entries_are_those_written(lines: Seq<Line>)
    requires
        forall|k: int| 0 <= k < lines.len() ==> line_well_written(#[trigger] lines[k]),
    ensures
        entries_of(written_lines(lines)) == all_found(lines, 0, top()),
{
    lemma_lines_at(written_lines(lines), 0, lines, top());
}

} // verus!
