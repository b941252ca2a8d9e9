//! Text as sequences of characters and of UTF-8 bytes: the vocabulary that the
//! contracts of this crate are written in, and the small operations on strings
//! that its code is built from.

use vstd::prelude::*;
use vstd::string::*;
use vstd::utf8::*;

verus! {

// ---------------------------------------------------------------------------
// Views

/// The contents of a list of strings.
pub open spec fn texts(list: Seq<String>) -> Seq<Seq<char>> {
    Seq::new(list.len(), |i: int| list[i]@)
}

/// The contents of a list of string slices.
pub open spec fn slices(list: Seq<&str>) -> Seq<Seq<char>> {
    Seq::new(list.len(), |i: int| list[i]@)
}

/// The contents of a string that may be missing.
pub open spec fn maybe_text(text: Option<String>) -> Option<Seq<char>> {
    match text {
        Some(held) => Some(held@),
        None => None,
    }
}

/// The contents of a string slice that may be missing.
pub open spec fn maybe_slice(text: Option<&str>) -> Option<Seq<char>> {
    match text {
        Some(held) => Some(held@),
        None => None,
    }
}

// ---------------------------------------------------------------------------
// Building and comparing strings

/// `String::push`: the string with one character more at its end.
pub assume_specification[ String::push ](text: &mut String, character: char)
    ensures
        final(text)@ == old(text)@.push(character),
;

/// The characters of `text`.
pub fn chars_of(text: &str) -> (characters: Vec<char>)
    ensures
        characters@ == text@,
{
    let mut characters: Vec<char> = Vec::new();
    for character in walk: text.chars()
        invariant
            walk.seq() == text@,
            characters@ == walk.seq().take(walk.index() as int),
    {
        characters.push(character);
    }
    characters
}

/// The string that holds `characters[start..end]`.
pub fn text_of(characters: &[char], start: usize, end: usize) -> (text: String)
    requires
        start <= end <= characters@.len(),
    ensures
        text@ == characters@.subrange(start as int, end as int),
{
    let mut text = String::new();
    let mut at: usize = start;
    while at < end
        invariant
            start <= at <= end <= characters@.len(),
            text@ == characters@.subrange(start as int, at as int),
        decreases end - at,
    {
        text.push(characters[at]);
        at = at + 1;
    }
    text
}

/// Whether two string slices hold the same text.
pub fn same_text(left: &str, right: &str) -> (same: bool)
    ensures
        same == (left@ == right@),
{
    let left_bytes = left.as_bytes();
    let right_bytes = right.as_bytes();
    proof {
        encode_utf8_decode_utf8(left@);
        encode_utf8_decode_utf8(right@);
    }
    if left_bytes.len() != right_bytes.len() {
        return false;
    }
    let mut at: usize = 0;
    while at < left_bytes.len()
        invariant
            at <= left_bytes@.len() == right_bytes@.len(),
            left_bytes@ == left.spec_bytes(),
            right_bytes@ == right.spec_bytes(),
            forall|i: int| 0 <= i < at ==> left_bytes@[i] == right_bytes@[i],
        decreases left_bytes@.len() - at,
    {
        if left_bytes[at] != right_bytes[at] {
            return false;
        }
        at = at + 1;
    }
    assert(left_bytes@ =~= right_bytes@);
    true
}

/// Whether `list` holds `text`.
pub fn holds(list: &[String], text: &str) -> (held: bool)
    ensures
        held == texts(list@).contains(text@),
{
    let mut at: usize = 0;
    while at < list.len()
        invariant
            at <= list@.len(),
            forall|i: int| 0 <= i < at ==> list@[i]@ != text@,
        decreases list@.len() - at,
    {
        if same_text(list[at].as_str(), text) {
            assert(texts(list@)[at as int] == text@);
            return true;
        }
        at = at + 1;
    }
    false
}

/// The same strings once more.
pub fn copied_texts(list: &[String]) -> (copies: Vec<String>)
    ensures
        texts(copies@) == texts(list@),
{
    let mut copies: Vec<String> = Vec::new();
    let mut at: usize = 0;
    while at < list.len()
        invariant
            at <= list@.len(),
            copies@.len() == at,
            forall|i: int| 0 <= i < at ==> (#[trigger] copies@[i])@ == list@[i]@,
        decreases list@.len() - at,
    {
        copies.push(list[at].clone());
        at = at + 1;
    }
    assert(texts(copies@) =~= texts(list@));
    copies
}

// ---------------------------------------------------------------------------
// Joining and splitting

/// `parts` one after the other, with `separator` between neighbours.
pub open spec fn joined(parts: Seq<Seq<char>>, separator: Seq<char>) -> Seq<char>
    decreases parts.len(),
{
    if parts.len() == 0 {
        Seq::empty()
    } else if parts.len() == 1 {
        parts[0]
    } else {
        joined(parts.drop_last(), separator) + separator + parts.last()
    }
}

/// Joins strings with `separator` between neighbours.
pub fn join(parts: &[String], separator: &str) -> (text: String)
    ensures
        text@ == joined(texts(parts@), separator@),
{
    let mut text = String::new();
    let mut at: usize = 0;
    let ghost all = texts(parts@);
    while at < parts.len()
        invariant
            at <= parts@.len(),
            all == texts(parts@),
            text@ == joined(all.take(at as int), separator@),
        decreases parts@.len() - at,
    {
        assert(all.take(at + 1).drop_last() =~= all.take(at as int));
        assert(all.take(at + 1).last() == parts@[at as int]@);
        if at > 0 {
            text.append(separator);
        }
        text.append(parts[at].as_str());
        at = at + 1;
    }
    assert(all.take(at as int) =~= all);
    text
}

/// [`join`] for string slices.
pub fn join_slices(parts: &[&str], separator: &str) -> (text: String)
    ensures
        text@ == joined(slices(parts@), separator@),
{
    let mut text = String::new();
    let mut at: usize = 0;
    let ghost all = slices(parts@);
    while at < parts.len()
        invariant
            at <= parts@.len(),
            all == slices(parts@),
            text@ == joined(all.take(at as int), separator@),
        decreases parts@.len() - at,
    {
        assert(all.take(at + 1).drop_last() =~= all.take(at as int));
        assert(all.take(at + 1).last() == parts@[at as int]@);
        if at > 0 {
            text.append(separator);
        }
        text.append(parts[at]);
        at = at + 1;
    }
    assert(all.take(at as int) =~= all);
    text
}

/// `text` cut at every `separator`: always at least one part, none of which
/// holds the separator.
pub open spec fn split_at_each(text: Seq<char>, separator: char) -> Seq<Seq<char>>
    decreases text.len(),
{
    if text.len() == 0 {
        seq![Seq::empty()]
    } else {
        let parts = split_at_each(text.drop_last(), separator);
        if text.last() == separator {
            parts.push(Seq::empty())
        } else {
            parts.drop_last().push(parts.last().push(text.last()))
        }
    }
}

/// Cuts `text` at every `separator`.
pub fn split(text: &str, separator: char) -> (parts: Vec<String>)
    ensures
        texts(parts@) == split_at_each(text@, separator),
{
    let characters = chars_of(text);
    let mut parts: Vec<String> = Vec::new();
    let mut current = String::new();
    let mut at: usize = 0;
    assert(text@.take(0) =~= Seq::empty());
    assert(texts(parts@).push(current@) =~= split_at_each(text@.take(0), separator));
    while at < characters.len()
        invariant
            at <= characters@.len(),
            characters@ == text@,
            texts(parts@).push(current@) == split_at_each(text@.take(at as int), separator),
        decreases characters@.len() - at,
    {
        let character = characters[at];
        let ghost before = split_at_each(text@.take(at as int), separator);
        let ghost done = texts(parts@);
        assert(text@.take(at + 1).drop_last() =~= text@.take(at as int));
        assert(before.drop_last() =~= done);
        assert(before.last() == current@);
        if character == separator {
            parts.push(current);
            current = String::new();
            assert(texts(parts@) =~= before);
        } else {
            current.push(character);
        }
        at = at + 1;
    }
    assert(text@.take(at as int) =~= text@);
    let ghost done = texts(parts@);
    let ghost last = current@;
    parts.push(current);
    assert(texts(parts@) =~= done.push(last));
    parts
}

/// The parts of a split: at least one, none with the separator in it, and the
/// text again when they are joined.
pub proof fn lemma_split(text: Seq<char>, separator: char)
    ensures
        split_at_each(text, separator).len() > 0,
        forall|i: int|
            0 <= i < split_at_each(text, separator).len() ==> !(
            #[trigger] split_at_each(text, separator)[i]).contains(separator),
        joined(split_at_each(text, separator), seq![separator]) == text,
    decreases text.len(),
{
    let parts = split_at_each(text, separator);
    if text.len() == 0 {
        assert(joined(parts, seq![separator]) =~= text);
    } else {
        let before = text.drop_last();
        let earlier = split_at_each(before, separator);
        lemma_split(before, separator);
        if text.last() == separator {
            assert(parts.drop_last() =~= earlier);
            assert(joined(parts, seq![separator]) =~= before + seq![separator] + Seq::empty());
            assert(text =~= before + seq![separator] + Seq::<char>::empty());
        } else {
            let last = earlier.last().push(text.last());
            assert forall|i: int| 0 <= i < parts.len() implies !(#[trigger] parts[i]).contains(
                separator,
            ) by {
                if i < earlier.len() - 1 {
                    assert(parts[i] == earlier[i]);
                } else {
                    assert(parts[i] == last);
                    assert(!earlier[earlier.len() - 1].contains(separator));
                    if last.contains(separator) {
                        let k = choose|k: int| 0 <= k < last.len() && last[k] == separator;
                        assert(earlier.last()[k] == separator);
                    }
                }
            }
            assert(parts.drop_last() =~= earlier.drop_last());
            if parts.len() == 1 {
                assert(joined(parts, seq![separator]) =~= text);
            } else {
                let head = joined(earlier.drop_last(), seq![separator]) + seq![separator];
                assert(before == head + earlier.last());
                assert(head + last =~= (head + earlier.last()).push(text.last()));
                assert(text =~= before.push(text.last()));
            }
        }
    }
}

/// Text without the separator lengthens the last part of a split.
proof fn lemma_split_append(text: Seq<char>, more: Seq<char>, separator: char)
    requires
        !more.contains(separator),
    ensures
        split_at_each(text + more, separator) == split_at_each(text, separator).drop_last().push(
            split_at_each(text, separator).last() + more,
        ),
    decreases more.len(),
{
    let parts = split_at_each(text, separator);
    lemma_split(text, separator);
    if more.len() == 0 {
        assert(text + more =~= text);
        assert(parts.last() + more =~= parts.last());
        assert(parts.drop_last().push(parts.last()) =~= parts);
    } else {
        let fewer = more.drop_last();
        assert(more[more.len() - 1] == more.last());
        if fewer.contains(separator) {
            let k = choose|k: int| 0 <= k < fewer.len() && fewer[k] == separator;
            assert(more[k] == separator);
        }
        lemma_split_append(text, fewer, separator);
        assert((text + more).drop_last() =~= text + fewer);
        let shorter = split_at_each(text + fewer, separator);
        assert(shorter.drop_last() =~= parts.drop_last());
        assert(shorter.last() == parts.last() + fewer);
        assert((parts.last() + fewer).push(more.last()) =~= parts.last() + more);
    }
}

/// Splitting undoes joining, where no part holds the separator.
pub proof fn lemma_split_joined(parts: Seq<Seq<char>>, separator: char)
    requires
        parts.len() > 0,
        forall|i: int| 0 <= i < parts.len() ==> !(#[trigger] parts[i]).contains(separator),
    ensures
        split_at_each(joined(parts, seq![separator]), separator) == parts,
    decreases parts.len(),
{
    let empty = Seq::<char>::empty();
    if parts.len() == 1 {
        lemma_split_append(empty, parts[0], separator);
        assert(empty + parts[0] =~= parts[0]);
        assert(split_at_each(parts[0], separator) =~= parts);
    } else {
        let head = joined(parts.drop_last(), seq![separator]);
        assert forall|i: int| 0 <= i < parts.drop_last().len() implies !(
        #[trigger] parts.drop_last()[i]).contains(separator) by {
            assert(parts[i] == parts.drop_last()[i]);
        }
        lemma_split_joined(parts.drop_last(), separator);
        let with_separator = head + seq![separator];
        assert(with_separator.drop_last() =~= head);
        assert(split_at_each(with_separator, separator) =~= parts.drop_last().push(empty));
        assert(parts[parts.len() - 1] == parts.last());
        lemma_split_append(with_separator, parts.last(), separator);
        assert(parts.drop_last().push(empty).drop_last() =~= parts.drop_last());
        assert(empty + parts.last() =~= parts.last());
        assert(parts.drop_last().push(parts.last()) =~= parts);
    }
}

// ---------------------------------------------------------------------------
// Searching

/// Position of the first `wanted` in `text`, or its length where there is none.
pub open spec fn first_of(text: Seq<char>, wanted: char) -> int
    decreases text.len(),
{
    if text.len() == 0 || text[0] == wanted {
        0
    } else {
        1 + first_of(text.drop_first(), wanted)
    }
}

/// What [`first_of`] says, without recursion.
pub proof fn lemma_first_of(text: Seq<char>, wanted: char)
    ensures
        0 <= first_of(text, wanted) <= text.len(),
        forall|i: int| 0 <= i < first_of(text, wanted) ==> #[trigger] text[i] != wanted,
        first_of(text, wanted) < text.len() ==> text[first_of(text, wanted)] == wanted,
    decreases text.len(),
{
    if text.len() != 0 && text[0] != wanted {
        let rest = text.drop_first();
        lemma_first_of(rest, wanted);
        assert forall|i: int| 0 <= i < first_of(text, wanted) implies #[trigger] text[i]
            != wanted by {
            if i > 0 {
                assert(rest[i - 1] == text[i]);
            }
        }
    }
}

/// There is only one first position.
pub proof fn lemma_first_of_unique(text: Seq<char>, wanted: char, at: int)
    requires
        0 <= at <= text.len(),
        forall|i: int| 0 <= i < at ==> #[trigger] text[i] != wanted,
        at < text.len() ==> text[at] == wanted,
    ensures
        first_of(text, wanted) == at,
{
    lemma_first_of(text, wanted);
    let found = first_of(text, wanted);
    if found < at {
        assert(text[found] != wanted);
    } else if at < found {
        assert(text[at] != wanted);
    }
}

/// Position of the first `wanted` in `text`, or its length where there is none.
pub fn find(text: &[char], wanted: char) -> (at: usize)
    ensures
        at == first_of(text@, wanted),
{
    let mut at: usize = 0;
    while at < text.len() && text[at] != wanted
        invariant
            at <= text@.len(),
            forall|i: int| 0 <= i < at ==> #[trigger] text@[i] != wanted,
        decreases text@.len() - at,
    {
        at = at + 1;
    }
    proof {
        lemma_first_of_unique(text@, wanted, at as int);
    }
    at
}

/// Whether `needle` stands in `text` at position `at`.
pub open spec fn stands_at(text: Seq<char>, needle: Seq<char>, at: int) -> bool {
    &&& 0 <= at <= text.len() - needle.len()
    &&& text.subrange(at, at + needle.len()) == needle
}

/// Whether `needle` stands anywhere in `text`.
pub open spec fn occurs(text: Seq<char>, needle: Seq<char>) -> bool {
    exists|at: int| stands_at(text, needle, at)
}

/// Whether `needle` stands in `text[at..]` right at its start.
fn stands(text: &[char], needle: &[char], at: usize) -> (found: bool)
    requires
        at <= text@.len(),
    ensures
        found == stands_at(text@, needle@, at as int),
{
    if text.len() - at < needle.len() {
        return false;
    }
    let mut offset: usize = 0;
    while offset < needle.len()
        invariant
            offset <= needle@.len() <= text@.len() - at,
            text@.len() <= usize::MAX,
            forall|i: int| 0 <= i < offset ==> text@[at + i] == needle@[i],
        decreases needle@.len() - offset,
    {
        if text[at + offset] != needle[offset] {
            assert(text@.subrange(at as int, at + needle@.len())[offset as int] != needle@[offset as int]);
            return false;
        }
        offset = offset + 1;
    }
    assert(text@.subrange(at as int, at + needle@.len()) =~= needle@);
    true
}

/// Whether `needle` stands anywhere in `text`.
pub fn contains(text: &str, needle: &str) -> (found: bool)
    ensures
        found == occurs(text@, needle@),
{
    let held = chars_of(text);
    let wanted = chars_of(needle);
    let mut at: usize = 0;
    while at <= held.len()
        invariant
            at <= held@.len() + 1,
            held@ == text@,
            wanted@ == needle@,
            forall|i: int| 0 <= i < at ==> !stands_at(text@, needle@, i),
        decreases held@.len() + 1 - at,
    {
        if stands(held.as_slice(), wanted.as_slice(), at) {
            return true;
        }
        if at == held.len() {
            return false;
        }
        at = at + 1;
    }
    false
}

// ---------------------------------------------------------------------------
// Prefixes and whitespace

/// What follows `prefix` in a text that starts with it.
pub open spec fn after_prefix(text: Seq<char>, prefix: Seq<char>) -> Option<Seq<char>> {
    if stands_at(text, prefix, 0) {
        Some(text.skip(prefix.len() as int))
    } else {
        None
    }
}

/// What follows `prefix` in `text`, if `text` starts with it.
pub fn strip_prefix(text: &str, prefix: &str) -> (rest: Option<String>)
    ensures
        maybe_text(rest) == after_prefix(text@, prefix@),
{
    let held = chars_of(text);
    let wanted = chars_of(prefix);
    if stands(held.as_slice(), wanted.as_slice(), 0) {
        let rest = text_of(held.as_slice(), wanted.len(), held.len());
        assert(rest@ =~= text@.skip(prefix@.len() as int));
        Some(rest)
    } else {
        None
    }
}

/// What comes before `suffix` in a text that ends in it.
pub open spec fn before_suffix(text: Seq<char>, suffix: Seq<char>) -> Option<Seq<char>> {
    if stands_at(text, suffix, text.len() - suffix.len()) {
        Some(text.take(text.len() - suffix.len()))
    } else {
        None
    }
}

/// What comes before `suffix` in `text`, if `text` ends in it.
pub fn strip_suffix(text: &str, suffix: &str) -> (start: Option<String>)
    ensures
        maybe_text(start) == before_suffix(text@, suffix@),
{
    let held = chars_of(text);
    let wanted = chars_of(suffix);
    if wanted.len() <= held.len() && stands(
        held.as_slice(),
        wanted.as_slice(),
        held.len() - wanted.len(),
    ) {
        let start = text_of(held.as_slice(), 0, held.len() - wanted.len());
        assert(start@ =~= text@.take(text@.len() - suffix@.len()));
        Some(start)
    } else {
        None
    }
}

/// Whether `character` has Unicode's White_Space property.
pub open spec fn is_whitespace(character: char) -> bool {
    let code = character as u32;
    ||| 0x09 <= code <= 0x0d
    ||| code == 0x20
    ||| code == 0x85
    ||| code == 0xa0
    ||| code == 0x1680
    ||| 0x2000 <= code <= 0x200a
    ||| code == 0x2028
    ||| code == 0x2029
    ||| code == 0x202f
    ||| code == 0x205f
    ||| code == 0x3000
}

/// Whether `character` has Unicode's White_Space property.
pub fn whitespace(character: char) -> (is: bool)
    ensures
        is == is_whitespace(character),
{
    let code: u32 = character as u32;
    (0x09 <= code && code <= 0x0d) || code == 0x20 || code == 0x85 || code == 0xa0 || code == 0x1680
        || (0x2000 <= code && code <= 0x200a) || code == 0x2028 || code == 0x2029 || code == 0x202f
        || code == 0x205f || code == 0x3000
}

/// `text` without the whitespace at its ends.
pub open spec fn trimmed(text: Seq<char>) -> Seq<char>
    decreases text.len(),
{
    if text.len() == 0 {
        text
    } else if is_whitespace(text[0]) {
        trimmed(text.drop_first())
    } else if is_whitespace(text.last()) {
        trimmed(text.drop_last())
    } else {
        text
    }
}

/// `text` without the whitespace at its ends.
pub fn trim(text: &str) -> (inner: String)
    ensures
        inner@ == trimmed(text@),
{
    let characters = chars_of(text);
    let mut start: usize = 0;
    let mut end: usize = characters.len();
    assert(text@.subrange(0, end as int) =~= text@);
    while start < end && whitespace(characters[start])
        invariant
            start <= end == characters@.len(),
            characters@ == text@,
            trimmed(text@) == trimmed(text@.subrange(start as int, end as int)),
        decreases end - start,
    {
        assert(text@.subrange(start as int, end as int).drop_first() =~= text@.subrange(
            start + 1,
            end as int,
        ));
        start = start + 1;
    }
    while start < end && whitespace(characters[end - 1])
        invariant
            start <= end <= characters@.len(),
            characters@ == text@,
            start < end ==> !is_whitespace(text@[start as int]),
            trimmed(text@) == trimmed(text@.subrange(start as int, end as int)),
        decreases end - start,
    {
        assert(text@.subrange(start as int, end as int).drop_last() =~= text@.subrange(
            start as int,
            end - 1,
        ));
        end = end - 1;
    }
    text_of(characters.as_slice(), start, end)
}

// ---------------------------------------------------------------------------
// Decimal numbers

/// Whether `character` is an ASCII digit.
pub open spec fn is_digit(character: char) -> bool {
    '0' <= character <= '9'
}

/// Whether every character of `text` is an ASCII digit.
pub open spec fn all_digits(text: Seq<char>) -> bool {
    forall|i: int| 0 <= i < text.len() ==> is_digit(#[trigger] text[i])
}

/// The number that a digit stands for.
pub open spec fn digit_value(character: char) -> nat {
    ((character as u32) - ('0' as u32)) as nat
}

/// The digit that stands for a number below ten.
pub open spec fn digit(number: nat) -> char {
    (number + ('0' as u32)) as char
}

/// The number that a row of decimal digits stands for.
pub open spec fn decimal_value(text: Seq<char>) -> nat
    decreases text.len(),
{
    if text.len() == 0 {
        0
    } else {
        10 * decimal_value(text.drop_last()) + digit_value(text.last())
    }
}

/// A number in decimal digits, without leading zeros.
pub open spec fn decimal(number: nat) -> Seq<char>
    decreases number,
{
    if number < 10 {
        seq![digit(number)]
    } else {
        decimal(number / 10).push(digit(number % 10))
    }
}

/// A decimal text is made of digits, has no leading zero, and stands for the
/// number it was made from.
pub proof fn lemma_decimal(number: nat)
    ensures
        decimal(number).len() > 0,
        all_digits(decimal(number)),
        decimal_value(decimal(number)) == number,
        decimal(number).len() > 1 ==> decimal(number)[0] != '0',
        decimal(number)[0] == '0' <==> number == 0,
    decreases number,
{
    let text = decimal(number);
    if number < 10 {
        assert(text.drop_last() =~= Seq::empty());
        assert(decimal_value(text.drop_last()) == 0);
    } else {
        lemma_decimal(number / 10);
        assert(text.drop_last() =~= decimal(number / 10));
        assert(text[0] == decimal(number / 10)[0]);
    }
}

/// A row of digits without a leading zero is the decimal text of its value.
pub proof fn lemma_decimal_value(text: Seq<char>)
    requires
        text.len() > 0,
        all_digits(text),
        text.len() > 1 ==> text[0] != '0',
    ensures
        decimal(decimal_value(text)) == text,
        text[0] != '0' ==> decimal_value(text) > 0,
    decreases text.len(),
{
    let rest = text.drop_last();
    assert(is_digit(text.last()));
    if text.len() == 1 {
        assert(rest =~= Seq::empty());
        assert(decimal_value(rest) == 0);
        assert(digit(digit_value(text[0])) == text[0]);
        assert(decimal(decimal_value(text)) =~= text);
    } else {
        assert forall|i: int| 0 <= i < rest.len() implies is_digit(#[trigger] rest[i]) by {
            assert(is_digit(text[i]));
        }
        assert(rest[0] == text[0]);
        lemma_decimal_value(rest);
        let low = digit_value(text.last());
        let value = decimal_value(text);
        assert(value == 10 * decimal_value(rest) + low);
        assert(value / 10 == decimal_value(rest));
        assert(value % 10 == low);
        assert(digit(low) == text.last());
        assert(decimal(value) =~= text);
    }
}

/// More digits never stand for a smaller number.
proof fn lemma_decimal_value_grows(text: Seq<char>, length: int)
    requires
        0 <= length <= text.len(),
    ensures
        decimal_value(text.take(length)) <= decimal_value(text),
    decreases text.len() - length,
{
    if length == text.len() {
        assert(text.take(length) =~= text);
    } else {
        lemma_decimal_value_grows(text, length + 1);
        assert(text.take(length + 1).drop_last() =~= text.take(length));
    }
}

/// Reads a row of digits, if the number they stand for fits.
pub fn parse_decimal(text: &[char]) -> (number: Option<u64>)
    requires
        all_digits(text@),
    ensures
        match number {
            Some(value) => value as nat == decimal_value(text@),
            None => decimal_value(text@) > u64::MAX,
        },
{
    let mut value: u64 = 0;
    let mut at: usize = 0;
    assert(text@.take(0) =~= Seq::empty());
    while at < text.len()
        invariant
            at <= text@.len(),
            all_digits(text@),
            value as nat == decimal_value(text@.take(at as int)),
        decreases text@.len() - at,
    {
        let character = text[at];
        assert(is_digit(text@[at as int]));
        let low: u64 = (character as u32 - '0' as u32) as u64;
        proof {
            assert(text@.take(at + 1).drop_last() =~= text@.take(at as int));
            lemma_decimal_value_grows(text@, at + 1);
        }
        let shifted: u64 = match value.checked_mul(10) {
            Some(shifted) => shifted,
            None => { return None; },
        };
        value = match shifted.checked_add(low) {
            Some(sum) => sum,
            None => { return None; },
        };
        at = at + 1;
    }
    assert(text@.take(at as int) =~= text@);
    Some(value)
}

/// Writes a number in decimal digits.
pub fn decimal_text(number: u64) -> (text: String)
    ensures
        text@ == decimal(number as nat),
    decreases number,
{
    let low: u32 = (number % 10) as u32;
    let character: char = digit_char(low);
    if number < 10 {
        let mut text = String::new();
        text.push(character);
        assert(text@ =~= decimal(number as nat));
        text
    } else {
        let mut text = decimal_text(number / 10);
        text.push(character);
        text
    }
}

/// The digit that stands for a number below ten.
fn digit_char(number: u32) -> (character: char)
    requires
        number < 10,
    ensures
        character == digit(number as nat),
{
    match number {
        0 => '0',
        1 => '1',
        2 => '2',
        3 => '3',
        4 => '4',
        5 => '5',
        6 => '6',
        7 => '7',
        8 => '8',
        _ => '9',
    }
}

} // verus!
