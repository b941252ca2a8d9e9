//! Finds the exact bytes of a value inside a manifest or lockfile, so an edit
//! can rewrite that value and leave the rest of the file byte-for-byte intact.
//! The scanners are deliberately small, so nothing trusts them blindly: spans
//! are checked against a real parse before and after every rewrite.

use core::ops::Range;

use vstd::prelude::*;
use vstd::string::*;
use vstd::utf8::*;

use crate::document::{
    descend, entry, entry_text_at, json_get, json_node, text_at, toml_entries, toml_get, toml_node,
};
use crate::text::{joined, maybe_slice, slices};
use crate::utf8::{cut, is_cut, lemma_cut, lemma_encode_concat, lemma_end_boundaries, text_between};

pub mod in_json;
pub mod in_toml;
pub mod json_grammar;
pub mod splice;
pub mod toml_grammar;

verus! {

// ---------------------------------------------------------------------------
// Strings in parsed documents

/// The string at a key `path` in a parsed JSON document.
pub fn json_string<'a>(document: &'a serde_json::Value, path: &[&str]) -> (text: Option<&'a str>)
    ensures
        maybe_slice(text) == text_at(json_node(*document), slices(path@)),
{
    let ghost keys = slices(path@);
    let mut value: &'a serde_json::Value = document;
    let mut at: usize = 0;
    assert(keys.skip(0) =~= keys);
    while at < path.len()
        invariant
            at <= path@.len(),
            keys == slices(path@),
            descend(json_node(*document), keys) == descend(
                json_node(*value),
                keys.skip(at as int),
            ),
        decreases path@.len() - at,
    {
        assert(keys.skip(at as int).drop_first() =~= keys.skip(at + 1));
        assert(keys.skip(at as int)[0] == path@[at as int]@);
        match json_get(value, path[at]) {
            Some(inner) => {
                value = inner;
            },
            None => {
                return None;
            },
        }
        at = at + 1;
    }
    value.as_str()
}

/// The string at a key `path` in a parsed TOML document.
pub fn toml_string<'a>(document: &'a toml::Table, path: &[&str]) -> (text: Option<&'a str>)
    ensures
        maybe_slice(text) == entry_text_at(toml_entries(*document), slices(path@)),
{
    if path.len() == 0 {
        return None;
    }
    let ghost keys = slices(path@);
    let mut table: &'a toml::Table = document;
    let mut at: usize = 0;
    assert(keys.skip(0) =~= keys);
    while at < path.len() - 1
        invariant
            at < path@.len(),
            keys == slices(path@),
            entry_text_at(toml_entries(*document), keys) == entry_text_at(
                toml_entries(*table),
                keys.skip(at as int),
            ),
        decreases path@.len() - at,
    {
        let ghost rest = keys.skip(at as int);
        assert(rest.drop_first() =~= keys.skip(at + 1));
        assert(rest[0] == path@[at as int]@);
        match toml_get(table, path[at]) {
            Some(inner) => match inner.as_table() {
                Some(entries) => {
                    assert(toml_node(*inner).field(rest[1]) == entry(
                        toml_entries(*entries),
                        rest[1],
                    ));
                    table = entries;
                },
                None => {
                    return None;
                },
            },
            None => {
                return None;
            },
        }
        at = at + 1;
    }
    assert(keys.skip(at as int).drop_first() =~= Seq::empty());
    assert(keys.skip(at as int)[0] == path@[at as int]@);
    match toml_get(table, path[at]) {
        Some(value) => value.as_str(),
        None => None,
    }
}

// ---------------------------------------------------------------------------
// Spans

/// A span as a pair of positions.
pub open spec fn ends(span: Range<usize>) -> (int, int) {
    (span.start as int, span.end as int)
}

/// Spans as pairs of positions.
pub open spec fn all_ends(spans: Seq<Range<usize>>) -> Seq<(int, int)> {
    Seq::new(spans.len(), |i: int| ends(spans[i]))
}

/// `sorted` with one more span, behind those that start no later.
pub open spec fn placed(sorted: Seq<(int, int)>, span: (int, int)) -> Seq<(int, int)>
    decreases sorted.len(),
{
    if sorted.len() == 0 {
        seq![span]
    } else if sorted.last().0 <= span.0 {
        sorted.push(span)
    } else {
        placed(sorted.drop_last(), span).push(sorted.last())
    }
}

/// `spans` in the order of their starts.
pub open spec fn by_start(spans: Seq<(int, int)>) -> Seq<(int, int)>
    decreases spans.len(),
{
    if spans.len() == 0 {
        spans
    } else {
        placed(by_start(spans.drop_last()), spans.last())
    }
}

/// Whether `bytes` can be cut at the ends of all the spans, and each span ends
/// before the next one starts.
pub open spec fn apart(bytes: Seq<u8>, spans: Seq<(int, int)>) -> bool {
    &&& forall|i: int|
        0 <= i < spans.len() ==> is_cut(bytes, (#[trigger] spans[i]).0, spans[i].1)
    &&& forall|i: int, j: int|
        0 <= i < j < spans.len() ==> (#[trigger] spans[i]).1 <= (#[trigger] spans[j]).0
}

/// The texts before, between and behind spans that are apart.
pub open spec fn kept(bytes: Seq<u8>, spans: Seq<(int, int)>) -> Seq<Seq<char>> {
    Seq::new(
        spans.len() + 1,
        |i: int|
            text_between(
                bytes,
                if i == 0 {
                    0
                } else {
                    spans[i - 1].1
                },
                if i == spans.len() {
                    bytes.len() as int
                } else {
                    spans[i].0
                },
            ),
    )
}

/// The text with `value` in place of each span.
pub open spec fn replaced(
    bytes: Seq<u8>,
    spans: Seq<(int, int)>,
    value: Seq<char>,
) -> Seq<char> {
    joined(kept(bytes, by_start(spans)), value)
}

/// Spans that are in order stay as they are.
pub proof fn lemma_in_order(spans: Seq<(int, int)>)
    requires
        forall|i: int, j: int|
            0 <= i < j < spans.len() ==> (#[trigger] spans[i]).0 <= (#[trigger] spans[j]).0,
    ensures
        by_start(spans) == spans,
    decreases spans.len(),
{
    if spans.len() > 0 {
        let fewer = spans.drop_last();
        lemma_in_order(fewer);
        if fewer.len() > 0 {
            assert(fewer.last() == spans[spans.len() - 2]);
            assert(spans.last() == spans[spans.len() - 1]);
        }
        assert(placed(fewer, spans.last()) =~= spans);
    }
}

proof fn lemma_placed(sorted: Seq<(int, int)>, span: (int, int))
    requires
        forall|i: int, j: int|
            0 <= i < j < sorted.len() ==> (#[trigger] sorted[i]).0 <= (#[trigger] sorted[j]).0,
    ensures
        placed(sorted, span).to_multiset() == sorted.to_multiset().insert(span),
        placed(sorted, span).len() == sorted.len() + 1,
        ({
            let result = placed(sorted, span);
            forall|i: int, j: int|
                0 <= i < j < result.len() ==> (#[trigger] result[i]).0 <= (#[trigger] result[j]).0
        }),
        forall|i: int|
            0 <= i < placed(sorted, span).len() ==> (#[trigger] placed(sorted, span)[i]) == span
                || sorted.contains(placed(sorted, span)[i]),
    decreases sorted.len(),
{
    broadcast use vstd::seq_lib::group_to_multiset_ensures;

    if sorted.len() == 0 {
        assert(seq![span] =~= sorted.push(span));
    } else if sorted.last().0 > span.0 {
        let fewer = sorted.drop_last();
        lemma_placed(fewer, span);
        assert(sorted =~= fewer.push(sorted.last()));
        assert(fewer.to_multiset().insert(sorted.last()).insert(span)
            =~= fewer.to_multiset().insert(span).insert(sorted.last()));
        let inner = placed(fewer, span);
        let result = placed(sorted, span);
        assert(sorted.last() == sorted[sorted.len() - 1]);
        assert forall|i: int| 0 <= i < inner.len() implies (#[trigger] inner[i]).0
            <= sorted.last().0 && (inner[i] == span || sorted.contains(inner[i])) by {
            if inner[i] != span {
                let at = choose|at: int| 0 <= at < fewer.len() && fewer[at] == inner[i];
                assert(sorted[at] == inner[i]);
            }
        }
        assert forall|i: int| 0 <= i < result.len() implies (#[trigger] result[i]) == span
            || sorted.contains(result[i]) by {
            if i < inner.len() {
                assert(result[i] == inner[i]);
            }
        }
    } else {
        let result = placed(sorted, span);
        assert(sorted.last() == sorted[sorted.len() - 1]);
        assert forall|i: int| 0 <= i < result.len() implies (#[trigger] result[i]) == span
            || sorted.contains(result[i]) by {
            if i < sorted.len() {
                assert(result[i] == sorted[i]);
            }
        }
    }
}

/// [`by_start`] rearranges spans, and puts none before one that starts
/// earlier.
pub proof fn lemma_by_start(spans: Seq<(int, int)>)
    ensures
        by_start(spans).to_multiset() == spans.to_multiset(),
        by_start(spans).len() == spans.len(),
        forall|i: int, j: int|
            0 <= i < j < spans.len() ==> (#[trigger] by_start(spans)[i]).0 <= (
            #[trigger] by_start(spans)[j]).0,
    decreases spans.len(),
{
    broadcast use vstd::seq_lib::group_to_multiset_ensures;

    if spans.len() > 0 {
        lemma_by_start(spans.drop_last());
        lemma_placed(by_start(spans.drop_last()), spans.last());
        assert(spans =~= spans.drop_last().push(spans.last()));
    }
}

/// `spans` in the order of their starts.
fn sorted_by_start(spans: &[Range<usize>]) -> (sorted: Vec<Range<usize>>)
    ensures
        all_ends(sorted@) == by_start(all_ends(spans@)),
{
    let ghost all = all_ends(spans@);
    let mut sorted: Vec<Range<usize>> = Vec::new();
    let mut at: usize = 0;
    assert(all_ends(sorted@) =~= by_start(all.take(0)));
    while at < spans.len()
        invariant
            at <= spans@.len(),
            all == all_ends(spans@),
            all_ends(sorted@) == by_start(all.take(at as int)),
        decreases spans@.len() - at,
    {
        let span = Range { start: spans[at].start, end: spans[at].end };
        let ghost before = all_ends(sorted@);
        let ghost added = ends(span);
        let mut place: usize = sorted.len();
        assert(before.take(place as int) =~= before);
        assert(placed(before, added) =~= placed(before, added) + before.skip(place as int));
        while place > 0 && sorted[place - 1].start > span.start
            invariant
                place <= sorted@.len(),
                before == all_ends(sorted@),
                added == ends(span),
                placed(before, added) == placed(before.take(place as int), added) + before.skip(
                    place as int,
                ),
            decreases place,
        {
            let ghost head = before.take(place as int);
            assert(head.last() == ends(sorted@[place - 1]));
            assert(head.drop_last() =~= before.take(place - 1));
            assert(placed(head, added) == placed(before.take(place - 1), added).push(head.last()));
            assert(placed(head, added) + before.skip(place as int) =~= placed(
                before.take(place - 1),
                added,
            ) + before.skip(place - 1));
            place = place - 1;
        }
        proof {
            let head = before.take(place as int);
            if place > 0 {
                assert(head.last() == ends(sorted@[place - 1]));
            }
            assert(placed(head, added) =~= head.push(added));
            assert(all.take(at + 1).drop_last() =~= all.take(at as int));
            assert(all.take(at + 1).last() == added);
        }
        sorted.insert(place, span);
        assert(all_ends(sorted@) =~= before.take(place as int).push(added) + before.skip(
            place as int,
        ));
        at = at + 1;
    }
    assert(all.take(at as int) =~= all);
    sorted
}

/// Whether spans that the text can be cut at are apart.
pub fn are_apart(spans: &[Range<usize>], bytes: &[u8]) -> (are: bool)
    requires
        forall|i: int|
            0 <= i < spans@.len() ==> is_cut(
                bytes@,
                (#[trigger] all_ends(spans@)[i]).0,
                all_ends(spans@)[i].1,
            ),
    ensures
        are == apart(bytes@, by_start(all_ends(spans@))),
{
    let sorted = sorted_by_start(spans);
    let ghost all = all_ends(spans@);
    let ghost order = all_ends(sorted@);
    proof {
        lemma_by_start(all);
        assert forall|i: int| 0 <= i < order.len() implies is_cut(
            bytes@,
            (#[trigger] order[i]).0,
            order[i].1,
        ) by {
            order.to_multiset_ensures();
            all.to_multiset_ensures();
            assert(order.contains(order[i]));
            assert(all.to_multiset().count(order[i]) > 0);
            assert(all.contains(order[i]));
            let at = choose|at: int| 0 <= at < all.len() && all[at] == order[i];
            assert(is_cut(bytes@, all[at].0, all[at].1));
        }
    }
    let mut at: usize = 1;
    while at < sorted.len()
        invariant
            1 <= at,
            at <= sorted@.len() || sorted@.len() == 0,
            order == all_ends(sorted@),
            order == by_start(all_ends(spans@)),
            forall|i: int|
                0 <= i < order.len() ==> is_cut(bytes@, (#[trigger] order[i]).0, order[i].1),
            forall|i: int, j: int|
                0 <= i < j < at && j < order.len() ==> (#[trigger] order[i]).1 <= (
                #[trigger] order[j]).0,
        decreases sorted@.len() - at,
    {
        assert(order[at - 1].1 == sorted@[at - 1].end);
        assert(order[at as int].0 == sorted@[at as int].start);
        if sorted[at - 1].end > sorted[at].start {
            return false;
        }
        assert forall|i: int| 0 <= i < at implies (#[trigger] order[i]).1 <= order[at as int].0 by {
            if i < at - 1 {
                assert(order[i].1 <= order[at - 1].0);
                assert(is_cut(bytes@, order[at - 1].0, order[at - 1].1));
            }
        }
        at = at + 1;
    }
    true
}

/// `source` with every span replaced by `value`. Spans must not overlap.
pub fn replace(source: &str, spans: &[Range<usize>], value: &str) -> (result: String)
    requires
        apart(source.spec_bytes(), by_start(all_ends(spans@))),
    ensures
        result@ == replaced(source.spec_bytes(), all_ends(spans@), value@),
{
    let ghost bytes = source.spec_bytes();
    let sorted = sorted_by_start(spans);
    let ghost order = all_ends(sorted@);
    let ghost pieces = kept(bytes, order);
    proof {
        encode_utf8_valid_utf8(source@);
        lemma_end_boundaries(bytes);
    }
    let length = source.as_bytes().len();
    let mut result = String::new();
    let mut cursor: usize = 0;
    let mut at: usize = 0;
    while at < sorted.len()
        invariant
            at <= sorted@.len(),
            bytes == source.spec_bytes(),
            valid_utf8(bytes),
            order == all_ends(sorted@),
            apart(bytes, order),
            pieces == kept(bytes, order),
            cursor == (if at == 0 {
                0
            } else {
                order[at - 1].1
            }),
            cursor <= bytes.len(),
            is_char_boundary(bytes, cursor as int),
            result@ == (if at == 0 {
                Seq::empty()
            } else {
                joined(pieces.take(at as int), value@) + value@
            }),
        decreases sorted@.len() - at,
    {
        let start = sorted[at].start;
        let end = sorted[at].end;
        assert(order[at as int] == (start as int, end as int));
        if at > 0 {
            assert(order[at - 1].1 <= order[at as int].0);
        }
        result.append(cut(source, cursor, start));
        proof {
            let more = pieces.take(at + 1);
            assert(more.drop_last() =~= pieces.take(at as int));
            assert(more.last() == text_between(bytes, cursor as int, start as int));
            if at == 0 {
                assert(result@ =~= more[0]);
            }
            assert(result@ == joined(more, value@));
        }
        result.append(value);
        cursor = end;
        at = at + 1;
    }
    result.append(cut(source, cursor, length));
    proof {
        assert(pieces.drop_last() =~= pieces.take(at as int));
        assert(pieces.last() == text_between(bytes, cursor as int, length as int));
        if at == 0 {
            assert(result@ =~= pieces[0]);
        }
    }
    result
}

// ---------------------------------------------------------------------------
// What a replacement leaves

/// The bytes before, between and behind spans that are apart.
pub open spec fn kept_bytes(bytes: Seq<u8>, spans: Seq<(int, int)>) -> Seq<Seq<u8>> {
    Seq::new(
        spans.len() + 1,
        |i: int|
            bytes.subrange(
                if i == 0 {
                    0
                } else {
                    spans[i - 1].1
                },
                if i == spans.len() {
                    bytes.len() as int
                } else {
                    spans[i].0
                },
            ),
    )
}

/// Pieces of bytes in a row, with `value` between each two.
pub open spec fn woven(pieces: Seq<Seq<u8>>, value: Seq<u8>) -> Seq<u8>
    decreases pieces.len(),
{
    if pieces.len() == 0 {
        Seq::empty()
    } else if pieces.len() == 1 {
        pieces[0]
    } else {
        woven(pieces.drop_last(), value) + value + pieces.last()
    }
}

/// How many bytes are in spans.
pub open spec fn spanned(spans: Seq<(int, int)>) -> int
    decreases spans.len(),
{
    if spans.len() == 0 {
        0
    } else {
        spanned(spans.drop_last()) + spans.last().1 - spans.last().0
    }
}

/// The bytes of texts that are joined.
proof fn lemma_joined_bytes(texts: Seq<Seq<char>>, pieces: Seq<Seq<u8>>, value: Seq<char>)
    requires
        texts.len() == pieces.len(),
        forall|i: int| 0 <= i < texts.len() ==> encode_utf8(#[trigger] texts[i]) == pieces[i],
    ensures
        encode_utf8(joined(texts, value)) == woven(pieces, encode_utf8(value)),
    decreases texts.len(),
{
    if texts.len() == 1 {
        assert(encode_utf8(texts[0]) == pieces[0]);
    } else if texts.len() > 1 {
        let fewer = texts.drop_last();
        assert forall|i: int| 0 <= i < fewer.len() implies encode_utf8(#[trigger] fewer[i])
            == pieces.drop_last()[i] by {
            assert(fewer[i] == texts[i]);
        }
        lemma_joined_bytes(fewer, pieces.drop_last(), value);
        let head = joined(fewer, value);
        assert(texts[texts.len() - 1] == texts.last());
        lemma_encode_concat(head + value, texts.last());
        lemma_encode_concat(head, value);
    } else {
        assert(encode_utf8(joined(texts, value)) =~= Seq::empty());
    }
}

/// How long what is kept of the bytes up to some span is, with the values.
proof fn lemma_woven_length(bytes: Seq<u8>, order: Seq<(int, int)>, value: Seq<u8>, count: int)
    requires
        apart(bytes, order),
        0 <= count <= order.len(),
    ensures
        woven(kept_bytes(bytes, order).take(count + 1), value).len() == (if count == order.len() {
            bytes.len() as int
        } else {
            order[count].0
        }) - spanned(order.take(count)) + count * value.len(),
    decreases count,
{
    let pieces = kept_bytes(bytes, order).take(count + 1);
    if count < order.len() {
        assert(is_cut(bytes, order[count].0, order[count].1));
    }
    if count > 0 {
        lemma_woven_length(bytes, order, value, count - 1);
        assert(pieces.drop_last() =~= kept_bytes(bytes, order).take(count));
        assert(order.take(count).drop_last() =~= order.take(count - 1));
        assert(order.take(count).last() == order[count - 1]);
        assert(is_cut(bytes, order[count - 1].0, order[count - 1].1));
        if count < order.len() {
            assert(order[count - 1].1 <= order[count].0);
        }
        assert(count * value.len() == (count - 1) * value.len() + value.len())
            by (nonlinear_arith);
    } else {
        assert(0 * value.len() == 0) by (nonlinear_arith);
    }
}

/// The length of spans does not depend on their order.
proof fn lemma_spanned(spans: Seq<(int, int)>)
    ensures
        spanned(by_start(spans)) == spanned(spans),
    decreases spans.len(),
{
    if spans.len() > 0 {
        lemma_spanned(spans.drop_last());
        lemma_spanned_placed(by_start(spans.drop_last()), spans.last());
    }
}

proof fn lemma_spanned_placed(sorted: Seq<(int, int)>, span: (int, int))
    ensures
        spanned(placed(sorted, span)) == spanned(sorted) + span.1 - span.0,
    decreases sorted.len(),
{
    if sorted.len() == 0 {
        assert(seq![span].drop_last() =~= Seq::empty());
        assert(spanned(seq![span].drop_last()) == 0);
    } else if sorted.last().0 <= span.0 {
        assert(sorted.push(span).drop_last() =~= sorted);
    } else {
        let inner = placed(sorted.drop_last(), span);
        lemma_spanned_placed(sorted.drop_last(), span);
        assert(inner.push(sorted.last()).drop_last() =~= inner);
    }
}

/// Replacing spans that are apart leaves every byte before, between and behind
/// them as it was, in order, with the value in place of each span.
pub proof fn law_replace_keeps_the_rest(
    source: Seq<char>,
    spans: Seq<(int, int)>,
    value: Seq<char>,
)
    requires
        apart(encode_utf8(source), by_start(spans)),
    ensures
        ({
            let bytes = encode_utf8(source);
            let result = encode_utf8(replaced(bytes, spans, value));
            &&& result == woven(kept_bytes(bytes, by_start(spans)), encode_utf8(value))
            &&& result.len() == bytes.len() - spanned(spans) + spans.len() * encode_utf8(
                value,
            ).len()
        }),
{
    let bytes = encode_utf8(source);
    let order = by_start(spans);
    let pieces = kept_bytes(bytes, order);
    encode_utf8_valid_utf8(source);
    lemma_end_boundaries(bytes);
    lemma_by_start(spans);
    assert forall|i: int| 0 <= i < pieces.len() implies encode_utf8(
        #[trigger] kept(bytes, order)[i],
    ) == pieces[i] by {
        let start = if i == 0 {
            0
        } else {
            order[i - 1].1
        };
        let end = if i == order.len() {
            bytes.len() as int
        } else {
            order[i].0
        };
        if i > 0 {
            assert(is_cut(bytes, order[i - 1].0, order[i - 1].1));
        }
        if i < order.len() {
            assert(is_cut(bytes, order[i].0, order[i].1));
        }
        if 0 < i < order.len() {
            assert(order[i - 1].1 <= order[i].0);
        }
        lemma_cut(bytes, start, end);
        decode_utf8_encode_utf8(bytes.subrange(start, end));
    }
    lemma_joined_bytes(kept(bytes, order), pieces, value);
    lemma_woven_length(bytes, order, encode_utf8(value), order.len() as int);
    lemma_spanned(spans);
    assert(pieces.take(order.len() + 1int) =~= pieces);
    assert(order.take(order.len() as int) =~= order);
}

/// Replacing one span leaves every byte before and behind it as it was.
pub proof fn lemma_replace_one(source: Seq<char>, span: (int, int), value: Seq<char>)
    requires
        is_cut(encode_utf8(source), span.0, span.1),
    ensures
        encode_utf8(replaced(encode_utf8(source), seq![span], value)) == encode_utf8(
            source,
        ).subrange(0, span.0) + encode_utf8(value) + encode_utf8(source).subrange(
            span.1,
            encode_utf8(source).len() as int,
        ),
{
    let bytes = encode_utf8(source);
    let spans = seq![span];
    let pieces = kept_bytes(bytes, spans);
    lemma_in_order(spans);
    law_replace_keeps_the_rest(source, spans, value);
    assert(pieces.drop_last().len() == 1);
    assert(woven(pieces.drop_last(), encode_utf8(value)) == pieces[0]);
}

/// Whether a span comes no later than another.
pub open spec fn no_later(left: (int, int), right: (int, int)) -> bool {
    left.0 < right.0 || (left.0 == right.0 && left.1 <= right.1)
}

/// In which order spans are given makes no difference. Spans of which none is
/// empty are apart in any order if they are in one.
pub proof fn law_replace_in_any_order(
    bytes: Seq<u8>,
    spans: Seq<(int, int)>,
    other: Seq<(int, int)>,
    value: Seq<char>,
)
    requires
        apart(bytes, by_start(spans)),
        apart(bytes, by_start(other)) || forall|i: int|
            0 <= i < spans.len() ==> (#[trigger] spans[i]).0 < spans[i].1,
        spans.to_multiset() == other.to_multiset(),
    ensures
        apart(bytes, by_start(other)),
        replaced(bytes, other, value) == replaced(bytes, spans, value),
{
    let order = by_start(spans);
    let others = by_start(other);
    let leq = |left: (int, int), right: (int, int)| no_later(left, right);
    lemma_by_start(spans);
    lemma_by_start(other);
    spans.to_multiset_ensures();
    order.to_multiset_ensures();
    others.to_multiset_ensures();
    assert(other.len() == spans.len()) by {
        other.to_multiset_ensures();
    }
    assert forall|i: int, j: int| 0 <= i < j < order.len() implies #[trigger] leq(
        order[i],
        order[j],
    ) by {
        assert(order[i].1 <= order[j].0);
        assert(is_cut(bytes, order[i].0, order[i].1) && is_cut(bytes, order[j].0, order[j].1));
    }
    assert forall|i: int, j: int| 0 <= i < j < others.len() implies #[trigger] leq(
        others[i],
        others[j],
    ) by {
        if apart(bytes, others) {
            assert(others[i].1 <= others[j].0);
            assert(is_cut(bytes, others[i].0, others[i].1) && is_cut(
                bytes,
                others[j].0,
                others[j].1,
            ));
        } else {
            assert(others[i].0 <= others[j].0);
            assert(others.contains(others[i]) && others.contains(others[j]));
            assert(order.to_multiset().count(others[i]) > 0);
            assert(order.to_multiset().count(others[j]) > 0);
            let k = choose|k: int| 0 <= k < order.len() && order[k] == others[i];
            let l = choose|l: int| 0 <= l < order.len() && order[l] == others[j];
            assert(spans.to_multiset().count(order[k]) > 0);
            assert(spans.to_multiset().count(order[l]) > 0);
            let first = choose|at: int| 0 <= at < spans.len() && spans[at] == order[k];
            let second = choose|at: int| 0 <= at < spans.len() && spans[at] == order[l];
            assert(spans[first].0 < spans[first].1 && spans[second].0 < spans[second].1);
            if k < l {
                assert(order[k].1 <= order[l].0);
            } else if l < k {
                assert(order[l].1 <= order[k].0);
            }
        }
    }
    vstd::seq_lib::lemma_sorted_unique(order, others, leq);
}

/// Replacing spans by what they already hold changes nothing.
pub proof fn law_replace_same_text(source: Seq<char>, spans: Seq<(int, int)>, value: Seq<char>)
    requires
        apart(encode_utf8(source), by_start(spans)),
        forall|i: int|
            0 <= i < spans.len() ==> text_between(
                encode_utf8(source),
                (#[trigger] by_start(spans)[i]).0,
                by_start(spans)[i].1,
            ) == value,
    ensures
        replaced(encode_utf8(source), spans, value) == source,
{
    let bytes = encode_utf8(source);
    let order = by_start(spans);
    encode_utf8_valid_utf8(source);
    lemma_end_boundaries(bytes);
    lemma_by_start(spans);
    lemma_same_text_from(bytes, order, value, order.len() as int);
    assert(bytes.subrange(0, bytes.len() as int) =~= bytes);
    let pieces = kept(bytes, order);
    assert(pieces.take(order.len() as int + 1) =~= pieces);
    encode_utf8_decode_utf8(source);
}

/// What the first pieces and the spans between them hold, where the spans hold
/// `value`.
proof fn lemma_same_text_from(
    bytes: Seq<u8>,
    order: Seq<(int, int)>,
    value: Seq<char>,
    count: int,
)
    requires
        valid_utf8(bytes),
        apart(bytes, order),
        0 <= count <= order.len(),
        forall|i: int|
            0 <= i < order.len() ==> text_between(bytes, (#[trigger] order[i]).0, order[i].1)
                == value,
    ensures
        joined(kept(bytes, order).take(count + 1), value) == text_between(
            bytes,
            0,
            if count == order.len() {
                bytes.len() as int
            } else {
                order[count].0
            },
        ),
    decreases count,
{
    let pieces = kept(bytes, order).take(count + 1);
    let end = if count == order.len() {
        bytes.len() as int
    } else {
        order[count].0
    };
    lemma_end_boundaries(bytes);
    if count > 0 {
        lemma_same_text_from(bytes, order, value, count - 1);
        assert(pieces.drop_last() =~= kept(bytes, order).take(count));
        let start = order[count - 1].0;
        let middle = order[count - 1].1;
        if count < order.len() {
            assert(order[count - 1].1 <= order[count].0);
        }
        lemma_text_between_concat(bytes, 0, start, middle);
        lemma_text_between_concat(bytes, 0, middle, end);
        assert(pieces.last() == text_between(bytes, middle, end));
    }
}

/// The texts on both sides of a cut make up the text.
proof fn lemma_text_between_concat(bytes: Seq<u8>, start: int, middle: int, end: int)
    requires
        valid_utf8(bytes),
        is_cut(bytes, start, middle),
        is_cut(bytes, middle, end),
    ensures
        text_between(bytes, start, end) == text_between(bytes, start, middle) + text_between(
            bytes,
            middle,
            end,
        ),
{
    lemma_cut(bytes, start, middle);
    lemma_cut(bytes, middle, end);
    let left = text_between(bytes, start, middle);
    let right = text_between(bytes, middle, end);
    decode_utf8_encode_utf8(bytes.subrange(start, middle));
    decode_utf8_encode_utf8(bytes.subrange(middle, end));
    lemma_encode_concat(left, right);
    assert(bytes.subrange(start, end) =~= bytes.subrange(start, middle) + bytes.subrange(
        middle,
        end,
    ));
    encode_utf8_decode_utf8(left + right);
}

} // verus!
