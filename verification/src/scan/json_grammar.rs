//! JSON as it is written, and what the scanner makes of it.

use vstd::prelude::*;

use crate::ascii::{
    BACKSLASH, CLOSE_BRACE, CLOSE_BRACKET, COLON, COMMA, OPEN_BRACE, OPEN_BRACKET, QUOTE,
};
use crate::document::json_text;
use crate::scan::in_json::{
    brackets_end, closes, closing_quote, contents_at, ends_scalar, is_space, member_from, member_of,
    next_member, opens, scalar_end, spaces_end, stands, value_at, value_end,
};
use crate::utf8::{holds_at, lemma_pieces, text_between};

verus! {

/// A JSON value, with everything that is written.
pub enum Json {
    /// A string: what is between its quotes.
    Text(Seq<u8>),
    /// A number, `true`, `false` or `null`.
    Scalar(Seq<u8>),
    /// An array: the blanks behind its bracket, and its items.
    List(Seq<u8>, Seq<Item>),
    /// An object: the blanks behind its brace, and its members.
    Object(Seq<u8>, Seq<Member>),
}

/// An item of an array, with the blanks around it.
pub struct Item {
    pub before: Seq<u8>,
    pub value: Json,
    pub after: Seq<u8>,
}

/// A member of an object, with the blanks around its parts.
pub struct Member {
    pub before: Seq<u8>,
    /// What is between the quotes of its name.
    pub name: Seq<u8>,
    pub between: Seq<u8>,
    pub behind: Seq<u8>,
    pub value: Json,
    pub after: Seq<u8>,
}

/// How a value is written.
pub open spec fn written(json: Json) -> Seq<u8>
    decreases json,
{
    match json {
        Json::Text(raw) => seq![QUOTE] + raw + seq![QUOTE],
        Json::Scalar(raw) => raw,
        Json::List(blank, items) => seq![OPEN_BRACKET] + blank + written_items(items)
            + seq![CLOSE_BRACKET],
        Json::Object(blank, members) => seq![OPEN_BRACE] + blank + written_members(members)
            + seq![CLOSE_BRACE],
    }
}

/// How items are written.
pub open spec fn written_items(items: Seq<Item>) -> Seq<u8>
    decreases items,
{
    if items.len() == 0 {
        Seq::empty()
    } else {
        let item = items[0];
        let first = item.before + written(item.value) + item.after;
        if items.len() == 1 {
            first
        } else {
            first + seq![COMMA] + written_items(items.drop_first())
        }
    }
}

/// How members are written.
pub open spec fn written_members(members: Seq<Member>) -> Seq<u8>
    decreases members,
{
    if members.len() == 0 {
        Seq::empty()
    } else {
        let member = members[0];
        let first = member.before + seq![QUOTE] + member.name + seq![QUOTE] + member.between
            + seq![COLON] + member.behind + written(member.value) + member.after;
        if members.len() == 1 {
            first
        } else {
            first + seq![COMMA] + written_members(members.drop_first())
        }
    }
}

// ---------------------------------------------------------------------------
// What is well written

/// Whether all bytes are blanks.
pub open spec fn is_blank(bytes: Seq<u8>) -> bool {
    forall|i: int| 0 <= i < bytes.len() ==> is_space(#[trigger] bytes[i])
}

/// Whether a string that holds these bytes ends behind them: each quote in them
/// is escaped.
pub open spec fn is_raw(raw: Seq<u8>) -> bool {
    closing_quote(raw.push(QUOTE), 0) == Some(raw.len() as int)
}

/// Whether a byte can be part of a number, `true`, `false` or `null`.
pub open spec fn is_plain(byte: u8) -> bool {
    !ends_scalar(byte) && !opens(byte) && byte != QUOTE
}

/// Whether bytes can be a number, `true`, `false` or `null`.
pub open spec fn is_scalar(raw: Seq<u8>) -> bool {
    &&& raw.len() > 0
    &&& forall|i: int| 0 <= i < raw.len() ==> is_plain(#[trigger] raw[i])
}

/// Whether a value is well written.
pub open spec fn well_written(json: Json) -> bool
    decreases json,
{
    match json {
        Json::Text(raw) => is_raw(raw),
        Json::Scalar(raw) => is_scalar(raw),
        Json::List(blank, items) => is_blank(blank) && items_well_written(items),
        Json::Object(blank, members) => is_blank(blank) && members_well_written(members),
    }
}

/// Whether items are well written.
pub open spec fn items_well_written(items: Seq<Item>) -> bool
    decreases items,
{
    items.len() > 0 ==> {
        &&& is_blank(items[0].before)
        &&& well_written(items[0].value)
        &&& is_blank(items[0].after)
        &&& items_well_written(items.drop_first())
    }
}

/// Whether members are well written, so that their names can be read.
pub open spec fn members_well_written(members: Seq<Member>) -> bool
    decreases members,
{
    members.len() > 0 ==> {
        &&& is_blank(members[0].before)
        &&& is_raw(members[0].name)
        &&& name_of(members[0]) is Some
        &&& is_blank(members[0].between)
        &&& is_blank(members[0].behind)
        &&& well_written(members[0].value)
        &&& is_blank(members[0].after)
        &&& members_well_written(members.drop_first())
    }
}

/// The name of a member.
pub open spec fn name_of(member: Member) -> Option<Seq<char>> {
    json_text(vstd::utf8::decode_utf8(seq![QUOTE] + member.name + seq![QUOTE]))
}

/// The first of the members with this name.
pub open spec fn first_named(members: Seq<Member>, name: Seq<char>) -> Option<int>
    decreases members.len(),
{
    if members.len() == 0 {
        None
    } else if name_of(members[0]) == Some(name) {
        Some(0)
    } else {
        match first_named(members.drop_first(), name) {
            Some(k) => Some(k + 1),
            None => None,
        }
    }
}

/// What is written of a member before its value.
pub open spec fn before_value(member: Member) -> Seq<u8> {
    member.before + seq![QUOTE] + member.name + seq![QUOTE] + member.between + seq![COLON]
        + member.behind
}

/// Where the value of the member number `k` starts, from where the members
/// start.
pub open spec fn value_offset(members: Seq<Member>, k: int) -> int
    decreases k,
{
    if k <= 0 {
        before_value(members[0]).len() as int
    } else {
        before_value(members[0]).len() + written(members[0].value).len() + members[0].after.len()
            + 1 + value_offset(members.drop_first(), k - 1)
    }
}

/// The value at a path of names, and where it starts, from where `json` starts.
/// Of members of the same name the first counts.
pub open spec fn placed(json: Json, path: Seq<Seq<char>>) -> Option<(int, Json)>
    decreases path.len(),
{
    if path.len() == 0 {
        Some((0, json))
    } else {
        match json {
            Json::Object(blank, members) => match first_named(members, path[0]) {
                Some(k) => match placed(members[k].value, path.drop_first()) {
                    Some((offset, value)) => Some(
                        (1 + blank.len() + value_offset(members, k) + offset, value),
                    ),
                    None => None,
                },
                None => None,
            },
            _ => None,
        }
    }
}

// ---------------------------------------------------------------------------
// What the scanner makes of it

pub proof fn lemma_quote_at(bytes: Seq<u8>, at: int, raw: Seq<u8>, from: int)
    requires
        holds_at(bytes, at, raw.push(QUOTE)),
        0 <= from,
        closing_quote(raw.push(QUOTE), from) == Some(raw.len() as int),
    ensures
        closing_quote(bytes, at + from) == Some(at + raw.len()),
    decreases raw.len() + 2 - from,
{
    let whole = raw.push(QUOTE);
    assert(bytes[at + from] == whole[from]);
    if whole[from] == QUOTE {
    } else if whole[from] == BACKSLASH {
        lemma_quote_at(bytes, at, raw, from + 2);
    } else {
        lemma_quote_at(bytes, at, raw, from + 1);
    }
}

/// The string at `at` ends where it is written to.
proof fn lemma_string_at(bytes: Seq<u8>, at: int, raw: Seq<u8>)
    requires
        holds_at(bytes, at, seq![QUOTE] + raw + seq![QUOTE]),
        is_raw(raw),
    ensures
        stands(bytes, at, QUOTE),
        closing_quote(bytes, at + 1) == Some(at + 1 + raw.len()),
        bytes.subrange(at, at + 2 + raw.len()) == seq![QUOTE] + raw + seq![QUOTE],
{
    let whole = seq![QUOTE] + raw + seq![QUOTE];
    assert(whole =~= seq![QUOTE] + raw.push(QUOTE));
    lemma_pieces(bytes, at, seq![QUOTE], raw.push(QUOTE));
    assert(bytes[at + 0] == seq![QUOTE][0]);
    lemma_quote_at(bytes, at + 1, raw, 0);
    assert forall|i: int| 0 <= i < whole.len() implies bytes.subrange(
        at,
        at + 2 + raw.len(),
    )[i] == whole[i] by {
        assert(bytes[at + i] == whole[i]);
    }
    assert(bytes.subrange(at, at + 2 + raw.len()) =~= whole);
}

/// Blanks end where they are written to.
proof fn lemma_blanks_at(bytes: Seq<u8>, at: int, blank: Seq<u8>)
    requires
        holds_at(bytes, at, blank),
        is_blank(blank),
        at + blank.len() < bytes.len() ==> !is_space(bytes[at + blank.len()]),
    ensures
        spaces_end(bytes, at) == at + blank.len(),
    decreases blank.len(),
{
    if blank.len() > 0 {
        let rest = blank.drop_first();
        assert(bytes[at + 0] == blank[0]);
        assert forall|i: int| 0 <= i < rest.len() implies bytes[at + 1 + i] == #[trigger] rest[i] by {
            assert(bytes[at + (i + 1)] == blank[i + 1]);
        }
        assert forall|i: int| 0 <= i < rest.len() implies is_space(#[trigger] rest[i]) by {
            assert(rest[i] == blank[i + 1]);
        }
        lemma_blanks_at(bytes, at + 1, rest);
    }
}

/// A value starts with no blank, and with a brace only if it is an object.
proof fn lemma_first_byte(json: Json)
    requires
        well_written(json),
    ensures
        written(json).len() > 0,
        !is_space(written(json)[0]),
        written(json)[0] == OPEN_BRACE <==> json is Object,
        written(json)[0] == QUOTE <==> json is Text,
{
    match json {
        Json::Text(raw) => {
            assert(written(json)[0] == QUOTE);
        },
        Json::Scalar(raw) => {
            assert(is_plain(raw[0]));
        },
        Json::List(blank, items) => {
            assert(written(json)[0] == OPEN_BRACKET);
        },
        Json::Object(blank, members) => {
            assert(written(json)[0] == OPEN_BRACE);
        },
    }
}

/// Bytes that are neither quotes nor brackets are passed over.
proof fn lemma_passed(bytes: Seq<u8>, from: int, end: int, depth: int)
    requires
        0 <= from <= end <= bytes.len(),
        forall|i: int|
            from <= i < end ==> (#[trigger] bytes[i]) != QUOTE && !opens(bytes[i]) && !closes(
                bytes[i],
            ),
    ensures
        brackets_end(bytes, from, depth) == brackets_end(bytes, end, depth),
    decreases end - from,
{
    if from < end {
        lemma_passed(bytes, from + 1, end, depth);
    }
}

/// Blanks are passed over.
proof fn lemma_blanks_passed(bytes: Seq<u8>, at: int, blank: Seq<u8>, depth: int)
    requires
        holds_at(bytes, at, blank),
        is_blank(blank),
    ensures
        brackets_end(bytes, at, depth) == brackets_end(bytes, at + blank.len(), depth),
{
    assert forall|i: int| at <= i < at + blank.len() implies (#[trigger] bytes[i]) != QUOTE
        && !opens(bytes[i]) && !closes(bytes[i]) by {
        assert(bytes[at + (i - at)] == blank[i - at]);
    }
    lemma_passed(bytes, at, at + blank.len(), depth);
}

/// A whole string is passed over.
proof fn lemma_string_passed(bytes: Seq<u8>, at: int, raw: Seq<u8>, depth: int)
    requires
        holds_at(bytes, at, seq![QUOTE] + raw + seq![QUOTE]),
        is_raw(raw),
    ensures
        brackets_end(bytes, at, depth) == brackets_end(bytes, at + 2 + raw.len(), depth),
{
    lemma_string_at(bytes, at, raw);
}

/// A whole value is passed over.
proof fn lemma_value_passed(bytes: Seq<u8>, at: int, json: Json, depth: int)
    requires
        holds_at(bytes, at, written(json)),
        well_written(json),
        depth >= 1,
    ensures
        brackets_end(bytes, at, depth) == brackets_end(bytes, at + written(json).len(), depth),
    decreases json,
{
    match json {
        Json::Text(raw) => {
            lemma_string_passed(bytes, at, raw, depth);
        },
        Json::Scalar(raw) => {
            assert forall|i: int| at <= i < at + raw.len() implies (#[trigger] bytes[i]) != QUOTE
                && !opens(bytes[i]) && !closes(bytes[i]) by {
                assert(bytes[at + (i - at)] == raw[i - at]);
            }
            lemma_passed(bytes, at, at + raw.len(), depth);
        },
        Json::List(blank, items) => {
            lemma_list_pieces(bytes, at, blank, items);
            lemma_blanks_passed(bytes, at + 1, blank, depth + 1);
            lemma_items_passed(bytes, at + 1 + blank.len(), items, depth + 1);
        },
        Json::Object(blank, members) => {
            lemma_object_pieces(bytes, at, blank, members);
            lemma_blanks_passed(bytes, at + 1, blank, depth + 1);
            lemma_members_passed(bytes, at + 1 + blank.len(), members, depth + 1);
        },
    }
}

/// The parts of an array.
proof fn lemma_list_pieces(bytes: Seq<u8>, at: int, blank: Seq<u8>, items: Seq<Item>)
    requires
        holds_at(bytes, at, written(Json::List(blank, items))),
    ensures
        stands(bytes, at, OPEN_BRACKET),
        holds_at(bytes, at + 1, blank),
        holds_at(bytes, at + 1 + blank.len(), written_items(items)),
        stands(bytes, at + 1 + blank.len() + written_items(items).len(), CLOSE_BRACKET),
        written(Json::List(blank, items)).len() == 2 + blank.len() + written_items(items).len(),
{
    let open = seq![OPEN_BRACKET];
    let close = seq![CLOSE_BRACKET];
    let inner = written_items(items);
    lemma_pieces(bytes, at, open + blank + inner, close);
    lemma_pieces(bytes, at, open + blank, inner);
    lemma_pieces(bytes, at, open, blank);
    assert(bytes[at + 0] == open[0]);
    assert(bytes[at + (open + blank + inner).len() + 0] == close[0]);
}

/// The parts of an object.
proof fn lemma_object_pieces(bytes: Seq<u8>, at: int, blank: Seq<u8>, members: Seq<Member>)
    requires
        holds_at(bytes, at, written(Json::Object(blank, members))),
    ensures
        stands(bytes, at, OPEN_BRACE),
        holds_at(bytes, at + 1, blank),
        holds_at(bytes, at + 1 + blank.len(), written_members(members)),
        stands(bytes, at + 1 + blank.len() + written_members(members).len(), CLOSE_BRACE),
        written(Json::Object(blank, members)).len() == 2 + blank.len() + written_members(
            members,
        ).len(),
{
    let open = seq![OPEN_BRACE];
    let close = seq![CLOSE_BRACE];
    let inner = written_members(members);
    lemma_pieces(bytes, at, open + blank + inner, close);
    lemma_pieces(bytes, at, open + blank, inner);
    lemma_pieces(bytes, at, open, blank);
    assert(bytes[at + 0] == open[0]);
    assert(bytes[at + (open + blank + inner).len() + 0] == close[0]);
}

/// Whole items are passed over.
proof fn lemma_items_passed(bytes: Seq<u8>, at: int, items: Seq<Item>, depth: int)
    requires
        holds_at(bytes, at, written_items(items)),
        items_well_written(items),
        depth >= 1,
    ensures
        brackets_end(bytes, at, depth) == brackets_end(
            bytes,
            at + written_items(items).len(),
            depth,
        ),
    decreases items,
{
    if items.len() > 0 {
        let item = items[0];
        let value = written(item.value);
        let first = item.before + value + item.after;
        if items.len() > 1 {
            let rest = written_items(items.drop_first());
            lemma_pieces(bytes, at, first + seq![COMMA], rest);
            lemma_pieces(bytes, at, first, seq![COMMA]);
            assert(bytes[at + first.len() + 0] == seq![COMMA][0]);
            lemma_items_passed(bytes, at + first.len() + 1, items.drop_first(), depth);
            lemma_passed(bytes, at + first.len(), at + first.len() + 1, depth);
        }
        lemma_pieces(bytes, at, item.before + value, item.after);
        lemma_pieces(bytes, at, item.before, value);
        lemma_blanks_passed(bytes, at, item.before, depth);
        lemma_value_passed(bytes, at + item.before.len(), item.value, depth);
        lemma_blanks_passed(bytes, at + item.before.len() + value.len(), item.after, depth);
    }
}

/// The parts of the first of members.
proof fn lemma_member_pieces(bytes: Seq<u8>, at: int, members: Seq<Member>)
    requires
        members.len() > 0,
        holds_at(bytes, at, written_members(members)),
    ensures
        ({
            let member = members[0];
            let quote = at + member.before.len();
            let between = quote + 2 + member.name.len();
            let colon = between + member.between.len();
            let value = colon + 1 + member.behind.len();
            let after = value + written(member.value).len();
            let end = after + member.after.len();
            &&& holds_at(bytes, at, member.before)
            &&& holds_at(bytes, quote, seq![QUOTE] + member.name + seq![QUOTE])
            &&& holds_at(bytes, between, member.between)
            &&& stands(bytes, colon, COLON)
            &&& holds_at(bytes, colon + 1, member.behind)
            &&& holds_at(bytes, value, written(member.value))
            &&& holds_at(bytes, after, member.after)
            &&& value == at + before_value(member).len()
            &&& members.len() == 1 ==> end == at + written_members(members).len()
            &&& members.len() > 1 ==> {
                &&& stands(bytes, end, COMMA)
                &&& holds_at(bytes, end + 1, written_members(members.drop_first()))
                &&& end + 1 + written_members(members.drop_first()).len() == at
                    + written_members(members).len()
            }
        }),
{
    let member = members[0];
    let value = written(member.value);
    let literal = seq![QUOTE] + member.name + seq![QUOTE];
    let colon = seq![COLON];
    let first = before_value(member) + value + member.after;
    assert(first =~= member.before + seq![QUOTE] + member.name + seq![QUOTE] + member.between
        + seq![COLON] + member.behind + value + member.after);
    if members.len() > 1 {
        let rest = written_members(members.drop_first());
        lemma_pieces(bytes, at, first + seq![COMMA], rest);
        lemma_pieces(bytes, at, first, seq![COMMA]);
        assert(bytes[at + first.len() + 0] == seq![COMMA][0]);
    }
    lemma_pieces(bytes, at, before_value(member) + value, member.after);
    lemma_pieces(bytes, at, before_value(member), value);
    assert(before_value(member) =~= member.before + literal + member.between + colon
        + member.behind);
    lemma_pieces(
        bytes,
        at,
        member.before + literal + member.between + colon,
        member.behind,
    );
    lemma_pieces(bytes, at, member.before + literal + member.between, colon);
    assert(bytes[at + (member.before + literal + member.between).len() + 0] == colon[0]);
    lemma_pieces(bytes, at, member.before + literal, member.between);
    lemma_pieces(bytes, at, member.before, literal);
}

/// Whole members are passed over.
proof fn lemma_members_passed(bytes: Seq<u8>, at: int, members: Seq<Member>, depth: int)
    requires
        holds_at(bytes, at, written_members(members)),
        members_well_written(members),
        depth >= 1,
    ensures
        brackets_end(bytes, at, depth) == brackets_end(
            bytes,
            at + written_members(members).len(),
            depth,
        ),
    decreases members,
{
    if members.len() > 0 {
        let member = members[0];
        let quote = at + member.before.len();
        let between = quote + 2 + member.name.len();
        let colon = between + member.between.len();
        let value = colon + 1 + member.behind.len();
        let after = value + written(member.value).len();
        let end = after + member.after.len();
        lemma_member_pieces(bytes, at, members);
        lemma_blanks_passed(bytes, at, member.before, depth);
        lemma_string_passed(bytes, quote, member.name, depth);
        lemma_blanks_passed(bytes, between, member.between, depth);
        lemma_passed(bytes, colon, colon + 1, depth);
        lemma_blanks_passed(bytes, colon + 1, member.behind, depth);
        lemma_value_passed(bytes, value, member.value, depth);
        lemma_blanks_passed(bytes, after, member.after, depth);
        if members.len() > 1 {
            lemma_passed(bytes, end, end + 1, depth);
            lemma_members_passed(bytes, end + 1, members.drop_first(), depth);
        }
    }
}

proof fn lemma_scalar_at(bytes: Seq<u8>, at: int, raw: Seq<u8>)
    requires
        holds_at(bytes, at, raw),
        forall|i: int| 0 <= i < raw.len() ==> is_plain(#[trigger] raw[i]),
        at + raw.len() < bytes.len() ==> ends_scalar(bytes[at + raw.len()]),
    ensures
        scalar_end(bytes, at) == at + raw.len(),
    decreases raw.len(),
{
    if raw.len() > 0 {
        let rest = raw.drop_first();
        assert(bytes[at + 0] == raw[0]);
        assert forall|i: int| 0 <= i < rest.len() implies bytes[at + 1 + i] == #[trigger] rest[i] by {
            assert(bytes[at + (i + 1)] == raw[i + 1]);
        }
        assert forall|i: int| 0 <= i < rest.len() implies is_plain(#[trigger] rest[i]) by {
            assert(rest[i] == raw[i + 1]);
        }
        lemma_scalar_at(bytes, at + 1, rest);
    }
}

/// A well-written value is skipped whole: whatever strings, brackets and commas
/// are in it, its end is found where it is written to.
pub proof fn law_values_are_skipped_whole(bytes: Seq<u8>, at: int, json: Json)
    requires
        holds_at(bytes, at, written(json)),
        well_written(json),
        json is Scalar && at + written(json).len() < bytes.len() ==> ends_scalar(
            bytes[at + written(json).len()],
        ),
    ensures
        value_end(bytes, at) == Some(at + written(json).len()),
{
    lemma_first_byte(json);
    assert(bytes[at + 0] == written(json)[0]);
    match json {
        Json::Text(raw) => {
            lemma_string_at(bytes, at, raw);
        },
        Json::Scalar(raw) => {
            assert(is_plain(raw[0]));
            lemma_scalar_at(bytes, at, raw);
        },
        Json::List(blank, items) => {
            lemma_list_pieces(bytes, at, blank, items);
            lemma_blanks_passed(bytes, at + 1, blank, 1);
            lemma_items_passed(bytes, at + 1 + blank.len(), items, 1);
        },
        Json::Object(blank, members) => {
            lemma_object_pieces(bytes, at, blank, members);
            lemma_blanks_passed(bytes, at + 1, blank, 1);
            lemma_members_passed(bytes, at + 1 + blank.len(), members, 1);
        },
    }
}

/// The first member of a name is found among well-written members.
proof fn lemma_member_found(bytes: Seq<u8>, at: int, members: Seq<Member>, name: Seq<char>)
    requires
        members.len() > 0,
        holds_at(bytes, at, written_members(members)),
        members_well_written(members),
        stands(bytes, at + written_members(members).len(), CLOSE_BRACE),
    ensures
        member_from(bytes, at + members[0].before.len(), name) == match first_named(
            members,
            name,
        ) {
            Some(k) => Some(at + value_offset(members, k)),
            None => None,
        },
    decreases members,
{
    let member = members[0];
    let quote = at + member.before.len();
    let between = quote + 2 + member.name.len();
    let colon = between + member.between.len();
    let value = colon + 1 + member.behind.len();
    let after = value + written(member.value).len();
    let end = after + member.after.len();
    lemma_member_pieces(bytes, at, members);
    lemma_string_at(bytes, quote, member.name);
    assert(text_between(bytes, quote, between) == vstd::utf8::decode_utf8(
        seq![QUOTE] + member.name + seq![QUOTE],
    ));
    lemma_blanks_at(bytes, between, member.between);
    lemma_first_byte(member.value);
    assert(bytes[value + 0] == written(member.value)[0]);
    lemma_blanks_at(bytes, colon + 1, member.behind);
    // What follows the value: a blank, a comma or the closing brace.
    assert(end < bytes.len() && (bytes[end] == COMMA || bytes[end] == CLOSE_BRACE));
    if member.after.len() > 0 {
        assert(bytes[after + 0] == member.after[0]);
        assert(is_space(member.after[0]));
    }
    law_values_are_skipped_whole(bytes, value, member.value);
    lemma_blanks_at(bytes, after, member.after);
    if name_of(member) != Some(name) {
        let rest = members.drop_first();
        if members.len() > 1 {
            let next = rest[0];
            assert(members_well_written(rest));
            assert(is_raw(next.name) && is_blank(next.before));
            lemma_member_pieces(bytes, end + 1, rest);
            lemma_string_at(bytes, end + 1 + next.before.len(), next.name);
            lemma_blanks_at(bytes, end + 1, next.before);
            assert(next_member(bytes, after) == end + 1 + next.before.len());
            lemma_member_found(bytes, end + 1, rest, name);
            lemma_first_named(rest, name);
        } else {
            assert(first_named(rest, name) is None);
            assert(next_member(bytes, after) == end);
            assert(member_from(bytes, end, name) is None);
        }
    }
}

proof fn lemma_first_named(members: Seq<Member>, name: Seq<char>)
    ensures
        first_named(members, name) matches Some(k) ==> 0 <= k < members.len() && name_of(
            members[k],
        ) == Some(name),
    decreases members.len(),
{
    if members.len() > 0 && name_of(members[0]) != Some(name) {
        lemma_first_named(members.drop_first(), name);
    }
}

/// Members of well-written members are well written.
proof fn lemma_member_well_written(bytes: Seq<u8>, at: int, members: Seq<Member>, k: int)
    requires
        0 <= k < members.len(),
        holds_at(bytes, at, written_members(members)),
        members_well_written(members),
    ensures
        well_written(members[k].value),
        holds_at(bytes, at + value_offset(members, k), written(members[k].value)),
    decreases k,
{
    lemma_member_pieces(bytes, at, members);
    if k > 0 {
        let rest = members.drop_first();
        let member = members[0];
        let end = at + before_value(member).len() + written(member.value).len()
            + member.after.len();
        lemma_member_well_written(bytes, end + 1, rest, k - 1);
        assert(rest[k - 1] == members[k]);
    }
}

/// A path can be followed from its first key.
proof fn lemma_value_at(bytes: Seq<u8>, open: int, path: Seq<Seq<char>>)
    requires
        path.len() > 0,
    ensures
        value_at(bytes, open, path) == match member_of(bytes, open, path[0]) {
            Some(value) => value_at(bytes, value, path.drop_first()),
            None => None,
        },
    decreases path.len(),
{
    let shorter = path.drop_last();
    if path.len() == 1 {
        assert(shorter =~= Seq::empty());
        assert(path.drop_first() =~= Seq::empty());
        assert(value_at(bytes, open, shorter) == Some(open));
    } else {
        lemma_value_at(bytes, open, shorter);
        assert(shorter.drop_first() =~= path.drop_first().drop_last());
        assert(shorter[0] == path[0]);
        assert(path.drop_first().last() == path.last());
    }
}

/// The value at a path is found where it is written.
proof fn lemma_placed(bytes: Seq<u8>, at: int, json: Json, path: Seq<Seq<char>>)
    requires
        holds_at(bytes, at, written(json)),
        well_written(json),
    ensures
        match placed(json, path) {
            Some((offset, value)) => value_at(bytes, at, path) == Some(at + offset)
                && well_written(value) && holds_at(bytes, at + offset, written(value)),
            None => value_at(bytes, at, path) is None,
        },
    decreases path.len(),
{
    if path.len() > 0 {
        lemma_value_at(bytes, at, path);
        lemma_first_byte(json);
        assert(bytes[at + 0] == written(json)[0]);
        if let Json::Object(blank, members) = json {
            let start = at + 1 + blank.len();
            lemma_object_pieces(bytes, at, blank, members);
            if members.len() == 0 {
                lemma_blanks_at(bytes, at + 1, blank);
                assert(member_of(bytes, at, path[0]) is None);
            } else {
                lemma_member_pieces(bytes, start, members);
                lemma_string_at(bytes, start + members[0].before.len(), members[0].name);
                lemma_blanks_at(bytes, start, members[0].before);
                lemma_both_blank(bytes, at + 1, blank, members[0].before);
                lemma_member_found(bytes, start, members, path[0]);
                lemma_first_named(members, path[0]);
                if let Some(k) = first_named(members, path[0]) {
                    lemma_member_well_written(bytes, start, members, k);
                    lemma_placed(
                        bytes,
                        start + value_offset(members, k),
                        members[k].value,
                        path.drop_first(),
                    );
                }
            }
        }
    }
}

/// Blanks go on over more blanks.
proof fn lemma_both_blank(bytes: Seq<u8>, at: int, first: Seq<u8>, second: Seq<u8>)
    requires
        holds_at(bytes, at, first),
        holds_at(bytes, at + first.len(), second),
        is_blank(first),
        is_blank(second),
        at + first.len() + second.len() < bytes.len() ==> !is_space(
            bytes[at + first.len() + second.len()],
        ),
    ensures
        spaces_end(bytes, at) == at + first.len() + second.len(),
{
    let both = first + second;
    assert forall|i: int| 0 <= i < both.len() implies bytes[at + i] == #[trigger] both[i] by {
        if i < first.len() {
            assert(bytes[at + i] == first[i]);
        } else {
            assert(bytes[at + first.len() + (i - first.len())] == second[i - first.len()]);
        }
    }
    lemma_blanks_at(bytes, at, both);
}

/// In a well-written document the scanner finds the string at a path of names
/// exactly where it is written, and nothing where no string is. Of members of
/// the same name the first counts.
pub proof fn law_strings_are_found_where_they_are_written(
    lead: Seq<u8>,
    json: Json,
    trail: Seq<u8>,
    path: Seq<Seq<char>>,
)
    requires
        is_blank(lead),
        is_blank(trail),
        well_written(json),
        path.len() > 0,
    ensures
        contents_at(lead + written(json) + trail, path) == match placed(json, path) {
            Some((offset, Json::Text(raw))) => Some(
                (lead.len() + offset + 1, lead.len() + offset + 1 + raw.len()),
            ),
            _ => None,
        },
{
    let bytes = lead + written(json) + trail;
    let at = lead.len() as int;
    lemma_pieces_hold(bytes, lead, written(json), trail);
    lemma_first_byte(json);
    assert(bytes[at + 0] == written(json)[0]);
    lemma_blanks_at(bytes, 0, lead);
    lemma_placed(bytes, at, json, path);
    if let Some((offset, value)) = placed(json, path) {
        lemma_first_byte(value);
        assert(bytes[at + offset + 0] == written(value)[0]);
        if let Json::Text(raw) = value {
            lemma_string_at(bytes, at + offset, raw);
        }
    }
}

proof fn lemma_pieces_hold(bytes: Seq<u8>, lead: Seq<u8>, middle: Seq<u8>, trail: Seq<u8>)
    requires
        bytes == lead + middle + trail,
    ensures
        holds_at(bytes, 0, lead),
        holds_at(bytes, lead.len() as int, middle),
{
    assert(holds_at(bytes, 0, bytes));
    lemma_pieces(bytes, 0, lead + middle, trail);
    lemma_pieces(bytes, 0, lead, middle);
}

/// How long members are written up to the value of one of them, and where the
/// values of two lie.
proof fn lemma_value_offsets(members: Seq<Member>, first: int, second: int)
    requires
        0 <= first <= second < members.len(),
    ensures
        0 <= value_offset(members, first),
        value_offset(members, second) + written(members[second].value).len()
            <= written_members(members).len(),
        first < second ==> value_offset(members, first) + written(members[first].value).len()
            <= value_offset(members, second),
    decreases second,
{
    let rest = members.drop_first();
    let member = members[0];
    assert(written_members(members).len() >= before_value(member).len() + written(
        member.value,
    ).len() + member.after.len());
    if second > 0 {
        if first > 0 {
            lemma_value_offsets(rest, first - 1, second - 1);
            assert(rest[first - 1] == members[first]);
        } else {
            lemma_value_offsets(rest, second - 1, second - 1);
        }
        assert(rest[second - 1] == members[second]);
        assert(written_members(members).len() == before_value(member).len() + written(
            member.value,
        ).len() + member.after.len() + 1 + written_members(rest).len());
    }
}

/// A value at a path lies inside.
proof fn lemma_placed_inside(json: Json, path: Seq<Seq<char>>)
    ensures
        placed(json, path) matches Some((offset, value)) ==> 0 <= offset && offset + written(
            value,
        ).len() <= written(json).len(),
    decreases path.len(),
{
    if path.len() > 0 {
        if let Json::Object(blank, members) = json {
            lemma_first_named(members, path[0]);
            if let Some(k) = first_named(members, path[0]) {
                lemma_value_offsets(members, k, k);
                lemma_placed_inside(members[k].value, path.drop_first());
            }
        }
    }
}

/// Strings at different paths do not overlap.
pub proof fn law_strings_do_not_overlap(json: Json, left: Seq<Seq<char>>, right: Seq<Seq<char>>)
    requires
        left != right,
    ensures
        match (placed(json, left), placed(json, right)) {
            (Some((one, Json::Text(a))), Some((other, Json::Text(b)))) => one + 2 + a.len()
                <= other || other + 2 + b.len() <= one,
            _ => true,
        },
    decreases left.len(),
{
    if left.len() > 0 && right.len() > 0 {
        if let Json::Object(blank, members) = json {
            lemma_first_named(members, left[0]);
            lemma_first_named(members, right[0]);
            if let (Some(k), Some(l)) = (
                first_named(members, left[0]),
                first_named(members, right[0]),
            ) {
                lemma_placed_inside(members[k].value, left.drop_first());
                lemma_placed_inside(members[l].value, right.drop_first());
                if k == l {
                    assert(left[0] == right[0]);
                    if left.drop_first() == right.drop_first() {
                        assert(left =~= seq![left[0]] + left.drop_first());
                        assert(right =~= seq![right[0]] + right.drop_first());
                    }
                    law_strings_do_not_overlap(
                        members[k].value,
                        left.drop_first(),
                        right.drop_first(),
                    );
                } else if k < l {
                    lemma_value_offsets(members, k, l);
                } else {
                    lemma_value_offsets(members, l, k);
                }
            }
        }
    } else if left.len() == 0 && right.len() == 0 {
        assert(left =~= right);
    }
}

} // verus!
