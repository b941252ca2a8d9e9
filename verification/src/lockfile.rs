//! Keeps a lockfile's record of the project's own version in step with the
//! manifest, so the version commit doesn't leave `npm install` or
//! `cargo build` a dirty tree to clean up.

use core::ops::Range;

use vstd::prelude::*;
use vstd::slice::slice_subrange;
use vstd::string::*;
use vstd::utf8::*;

use crate::ascii::{QUESTION_MARK, STAR};
use crate::disk::{
    child, label, label_of, nearest, nearest_file, parent, parent_of, progress, same_path, Disk,
    DiskModel, Lookup, Progress,
};
use crate::document::{
    entry, json_document, json_node, lemma_field_prints, parse_json, parse_toml, print_toml,
    text_at, toml_document, toml_entries, toml_field, toml_get, toml_node, Node,
};
use crate::edit::{edit_models, Edit, EditModel};
use crate::error::{Failure, VersionerError};
use crate::manifest::{
    inherits, is_inherited, nested, nested_value, Format, Key, Manifest, ManifestModel,
};
use crate::order::{
    dedup, deduplicated, is_increasing, lemma_deduplicated, lemma_sorted, sort, sorted,
};
use crate::scan::{
    all_ends, apart, are_apart, by_start, ends, in_json, in_toml, json_string, kept_bytes,
    law_replace_keeps_the_rest, lemma_in_order, replace, replaced, woven,
};
use crate::utf8::{cut, is_cut, text_between};
use crate::text::{
    chars_of, contains, copied_texts, find, holds, maybe_slice, occurs, lemma_first_of, same_text,
    slices, split, split_at_each, stands_at, texts,
};

verus! {

// ---------------------------------------------------------------------------
// Names of Python packages

/// The lowercase form of a character, as Unicode maps it.
pub uninterp spec fn lowercase(character: char) -> Seq<char>;

/// `char::to_lowercase`, its characters in a row. An ASCII letter becomes its
/// small letter, any other ASCII character stays. What becomes of the rest is
/// left to the name.
#[verifier::external_body]
fn lowercase_of(character: char) -> (lower: String)
    ensures
        lower@ == lowercase(character),
        'A' <= character <= 'Z' ==> lower@ == seq![(character as u32 + 32) as char],
        (character as u32) < 128 && !('A' <= character <= 'Z') ==> lower@ == seq![character],
{
    character.to_lowercase().collect()
}

/// The small form of a character: an ASCII capital becomes its small letter,
/// other ASCII characters stay, and the rest goes as Unicode maps it.
pub open spec fn small(character: char) -> Seq<char> {
    if 'A' <= character <= 'Z' {
        seq![(character as u32 + 32) as char]
    } else if (character as u32) < 128 {
        seq![character]
    } else {
        lowercase(character)
    }
}

/// `-`, `_` or `.`
pub open spec fn is_separator(character: char) -> bool {
    character == '-' || character == '_' || character == '.'
}

/// A name as PEP 503 compares it: lowercase, with runs of `-`, `_` and `.` all
/// equal to one `-`.
pub open spec fn normalized_python(name: Seq<char>) -> Seq<char>
    decreases name.len(),
{
    if name.len() == 0 {
        name
    } else {
        let prior = normalized_python(name.drop_last());
        if !is_separator(name.last()) {
            prior + small(name.last())
        } else if prior.len() > 0 && prior.last() == '-' {
            prior
        } else {
            prior.push('-')
        }
    }
}

/// PEP 503: case-insensitive, with runs of `-`, `_` and `.` all equal to `-`.
pub fn normalize_python(name: &str) -> (normalized: String)
    ensures
        normalized@ == normalized_python(name@),
{
    let characters = chars_of(name);
    let mut normalized = String::new();
    let mut dash = false;
    let mut at: usize = 0;
    assert(name@.take(0) =~= Seq::empty());
    while at < characters.len()
        invariant
            at <= characters@.len(),
            characters@ == name@,
            normalized@ == normalized_python(name@.take(at as int)),
            dash == (normalized@.len() > 0 && normalized@.last() == '-'),
        decreases characters@.len() - at,
    {
        let character = characters[at];
        assert(name@.take(at + 1).drop_last() =~= name@.take(at as int));
        assert(name@.take(at + 1).last() == character);
        if character == '-' || character == '_' || character == '.' {
            if !dash {
                normalized.push('-');
                dash = true;
            }
        } else {
            let lower = lowercase_of(character);
            assert(lower@ == small(character));
            let added = chars_of(lower.as_str());
            let ghost before = normalized@;
            normalized.append(lower.as_str());
            if added.len() > 0 {
                dash = added[added.len() - 1] == '-';
                assert(normalized@.last() == added@.last());
            } else {
                assert(normalized@ =~= before);
            }
        }
        at = at + 1;
    }
    assert(name@.take(at as int) =~= name@);
    normalized
}

/// Whether two names have the same characters, but for the case of letters and
/// for the separators that each run of separators is made of.
pub open spec fn same_but_spelling(left: Seq<char>, right: Seq<char>) -> bool
    decreases left.len() + right.len(),
{
    if left.len() == 0 || right.len() == 0 {
        left.len() == right.len()
    } else if is_separator(left.last()) != is_separator(right.last()) {
        false
    } else if !is_separator(left.last()) {
        small(left.last()) == small(right.last()) && same_but_spelling(
            left.drop_last(),
            right.drop_last(),
        )
    } else if left.len() > 1 && is_separator(left.drop_last().last()) {
        same_but_spelling(left.drop_last(), right)
    } else if right.len() > 1 && is_separator(right.drop_last().last()) {
        same_but_spelling(left, right.drop_last())
    } else {
        same_but_spelling(left.drop_last(), right.drop_last())
    }
}

/// Neither the case of letters nor which separators a name is written with, and
/// how many in a row, makes a difference.
pub proof fn law_spelling_does_not_count(left: Seq<char>, right: Seq<char>)
    requires
        same_but_spelling(left, right),
    ensures
        normalized_python(left) == normalized_python(right),
    decreases left.len() + right.len(),
{
    if left.len() > 0 && right.len() > 0 {
        let fewer = left.drop_last();
        if !is_separator(left.last()) {
            law_spelling_does_not_count(fewer, right.drop_last());
        } else if fewer.len() > 0 && is_separator(fewer.last()) {
            law_spelling_does_not_count(fewer, right);
            lemma_ends_in_dash(fewer);
        } else if right.len() > 1 && is_separator(right.drop_last().last()) {
            law_spelling_does_not_count(left, right.drop_last());
            lemma_ends_in_dash(right.drop_last());
        } else {
            law_spelling_does_not_count(fewer, right.drop_last());
        }
    }
}

/// Whether a name is written as PEP 503 compares it: ASCII without capitals,
/// and single `-` for separators.
pub open spec fn is_normal(name: Seq<char>) -> bool {
    &&& forall|i: int|
        0 <= i < name.len() ==> ((#[trigger] name[i]) as u32) < 128 && !('A' <= name[i] <= 'Z')
            && name[i] != '_' && name[i] != '.'
    &&& forall|i: int|
        0 < i < name.len() ==> !((#[trigger] name[i]) == '-' && name[i - 1] == '-')
}

/// An ASCII name comes out without capitals, without `_` and `.`, and without
/// two `-` in a row.
pub proof fn law_names_come_out_normal(name: Seq<char>)
    requires
        is_ascii_chars(name),
    ensures
        is_normal(normalized_python(name)),
        !occurs(normalized_python(name), "--"@),
    decreases name.len(),
{
    if name.len() > 0 {
        let fewer = name.drop_last();
        let last = name.last();
        assert(name[name.len() - 1] == last);
        assert forall|i: int| 0 <= i < fewer.len() implies 0 <= (#[trigger] fewer[i]) as u32
            <= 0x7f by {
            assert(fewer[i] == name[i]);
        }
        law_names_come_out_normal(fewer);
    }
    let result = normalized_python(name);
    reveal_strlit("--");
    if occurs(result, "--"@) {
        let at = choose|at: int| stands_at(result, "--"@, at);
        let found = result.subrange(at, at + 2);
        assert(found[0] == "--"@[0] && found[1] == "--"@[1]);
        assert(result[at] == found[0] && result[at + 1] == found[1]);
    }
}

/// A name that is written as it is compared stays as it is.
pub proof fn law_normal_names_stay(name: Seq<char>)
    requires
        is_normal(name),
    ensures
        normalized_python(name) == name,
    decreases name.len(),
{
    if name.len() > 0 {
        let fewer = name.drop_last();
        let last = name.last();
        assert(name[name.len() - 1] == last);
        if fewer.len() > 0 {
            assert(fewer.last() == name[name.len() - 2]);
        }
        assert forall|i: int| 0 < i < fewer.len() implies !((#[trigger] fewer[i]) == '-' && fewer[i
            - 1] == '-') by {
            assert(fewer[i] == name[i]);
        }
        law_normal_names_stay(fewer);
        assert(normalized_python(name) =~= name);
    }
}

/// Normalizing an ASCII name once more changes nothing.
pub proof fn law_normalizing_twice(name: Seq<char>)
    requires
        is_ascii_chars(name),
    ensures
        normalized_python(normalized_python(name)) == normalized_python(name),
{
    law_names_come_out_normal(name);
    law_normal_names_stay(normalized_python(name));
}

proof fn lemma_ends_in_dash(name: Seq<char>)
    requires
        name.len() > 0,
        is_separator(name.last()),
    ensures
        normalized_python(name).len() > 0,
        normalized_python(name).last() == '-',
{
}

// ---------------------------------------------------------------------------
// Wildcards

/// Whether `name` matches `pattern`, in which `*` stands for any bytes and `?`
/// for any one.
pub open spec fn matches_wildcard(pattern: Seq<u8>, name: Seq<u8>) -> bool
    decreases pattern.len(),
{
    if pattern.len() == 0 {
        name.len() == 0
    } else if pattern[0] == STAR {
        exists|taken: int|
            0 <= taken <= name.len() && matches_wildcard(
                pattern.drop_first(),
                #[trigger] name.skip(taken),
            )
    } else {
        name.len() > 0 && (pattern[0] == QUESTION_MARK || pattern[0] == name[0])
            && matches_wildcard(pattern.drop_first(), name.drop_first())
    }
}

/// A `*` takes nothing, or the first byte and what it takes of the rest.
proof fn lemma_star(pattern: Seq<u8>, name: Seq<u8>)
    requires
        pattern.len() > 0,
        pattern[0] == STAR,
    ensures
        matches_wildcard(pattern, name) <==> matches_wildcard(pattern.drop_first(), name) || (
        name.len() > 0 && matches_wildcard(pattern, name.drop_first())),
{
    let rest = pattern.drop_first();
    assert(name.skip(0) =~= name);
    if matches_wildcard(rest, name) {
        assert(matches_wildcard(rest, name.skip(0)));
    }
    if name.len() > 0 && matches_wildcard(pattern, name.drop_first()) {
        let taken = choose|taken: int|
            0 <= taken <= name.drop_first().len() && matches_wildcard(
                rest,
                #[trigger] name.drop_first().skip(taken),
            );
        assert(name.drop_first().skip(taken) =~= name.skip(taken + 1));
        assert(matches_wildcard(rest, name.skip(taken + 1)));
    }
    if matches_wildcard(pattern, name) {
        let taken = choose|taken: int|
            0 <= taken <= name.len() && matches_wildcard(rest, #[trigger] name.skip(taken));
        if taken > 0 {
            assert(name.drop_first().skip(taken - 1) =~= name.skip(taken));
            assert(matches_wildcard(rest, name.drop_first().skip(taken - 1)));
        }
    }
}

/// Whether `name` matches `pattern`, in which `*` stands for any bytes and `?`
/// for any one.
pub fn wildcard(pattern: &[u8], name: &[u8]) -> (matches: bool)
    ensures
        matches == matches_wildcard(pattern@, name@),
    decreases pattern@.len() + name@.len(),
{
    if pattern.len() == 0 {
        return name.len() == 0;
    }
    let rest = slice_subrange(pattern, 1, pattern.len());
    assert(rest@ =~= pattern@.drop_first());
    if pattern[0] == STAR {
        proof {
            lemma_star(pattern@, name@);
        }
        if wildcard(rest, name) {
            return true;
        }
        if name.len() == 0 {
            return false;
        }
        let shorter = slice_subrange(name, 1, name.len());
        assert(shorter@ =~= name@.drop_first());
        return wildcard(pattern, shorter);
    }
    if name.len() == 0 {
        return false;
    }
    let shorter = slice_subrange(name, 1, name.len());
    assert(shorter@ =~= name@.drop_first());
    (pattern[0] == QUESTION_MARK || pattern[0] == name[0]) && wildcard(rest, shorter)
}

// ---------------------------------------------------------------------------
// Workspace members

/// Paths as models.
pub open spec fn paths(list: Seq<Vec<String>>) -> Seq<Seq<Seq<char>>> {
    Seq::new(list.len(), |i: int| texts(list[i]@))
}

/// The parts of a pattern that say something: neither empty nor `.`.
pub open spec fn telling(parts: Seq<Seq<char>>) -> Seq<Seq<char>>
    decreases parts.len(),
{
    if parts.len() == 0 {
        parts
    } else if parts.last().len() == 0 || parts.last() == "."@ {
        telling(parts.drop_last())
    } else {
        telling(parts.drop_last()).push(parts.last())
    }
}

/// The segments of a `/`-separated pattern.
pub open spec fn segments_of(pattern: Seq<char>) -> Seq<Seq<char>> {
    telling(split_at_each(pattern, '/'))
}

/// Whether a segment is more than a literal name.
pub open spec fn is_wild(segment: Seq<char>) -> bool {
    segment.contains('*') || segment.contains('?')
}

/// The names that match a segment.
pub open spec fn matching(names: Seq<Seq<char>>, segment: Seq<char>) -> Seq<Seq<char>>
    decreases names.len(),
{
    if names.len() == 0 {
        names
    } else if matches_wildcard(encode_utf8(segment), encode_utf8(names.last())) {
        matching(names.drop_last(), segment).push(names.last())
    } else {
        matching(names.drop_last(), segment)
    }
}

/// A path for each of the names, in one directory.
pub open spec fn children(directory: Seq<Seq<char>>, names: Seq<Seq<char>>) -> Seq<
    Seq<Seq<char>>,
> {
    Seq::new(names.len(), |i: int| directory.push(names[i]))
}

/// One segment further from each directory: into the directory of that name,
/// or into those that match, sorted.
pub open spec fn stepped(
    found: Seq<Seq<Seq<char>>>,
    segment: Seq<char>,
    disk: DiskModel,
) -> Progress<Seq<Seq<Seq<char>>>>
    decreases found.len(),
{
    if found.len() == 0 {
        Progress::Done(found)
    } else {
        match stepped(found.drop_last(), segment, disk) {
            Progress::Done(prior) => if !is_wild(segment) {
                Progress::Done(prior.push(found.last().push(segment)))
            } else {
                match disk.listing(found.last()) {
                    Some(names) => Progress::Done(
                        prior + children(found.last(), sorted(matching(names, segment))),
                    ),
                    None => Progress::List(found.last()),
                }
            },
            missing => missing,
        }
    }
}

/// The directories that the segments lead to from each of those found so far.
pub open spec fn expanded(
    found: Seq<Seq<Seq<char>>>,
    segments: Seq<Seq<char>>,
    disk: DiskModel,
) -> Progress<Seq<Seq<Seq<char>>>>
    decreases segments.len(),
{
    if segments.len() == 0 {
        Progress::Done(found)
    } else {
        match stepped(found, segments[0], disk) {
            Progress::Done(next) => expanded(next, segments.drop_first(), disk),
            missing => missing,
        }
    }
}

/// The segments of a `/`-separated pattern.
fn segments(pattern: &str) -> (segments: Vec<String>)
    ensures
        texts(segments@) == segments_of(pattern@),
{
    let parts = split(pattern, '/');
    let ghost all = texts(parts@);
    let mut segments: Vec<String> = Vec::new();
    let mut at: usize = 0;
    assert(texts(segments@) =~= telling(all.take(0)));
    while at < parts.len()
        invariant
            at <= parts@.len(),
            all == texts(parts@),
            texts(segments@) == telling(all.take(at as int)),
        decreases parts@.len() - at,
    {
        assert(all.take(at + 1).drop_last() =~= all.take(at as int));
        assert(all.take(at + 1).last() == parts@[at as int]@);
        let ghost before = texts(segments@);
        let characters = chars_of(parts[at].as_str());
        if characters.len() > 0 && !same_text(parts[at].as_str(), ".") {
            segments.push(parts[at].clone());
            assert(texts(segments@) =~= before.push(parts@[at as int]@));
        }
        at = at + 1;
    }
    assert(all.take(at as int) =~= all);
    segments
}

/// Whether a text holds a character.
fn has(text: &str, character: char) -> (has: bool)
    ensures
        has == text@.contains(character),
{
    let characters = chars_of(text);
    let at = find(characters.as_slice(), character);
    proof {
        lemma_first_of(text@, character);
        if at < text@.len() {
            assert(text@[at as int] == character);
        }
    }
    at < characters.len()
}

/// The names that match a segment, sorted.
fn matched(names: &[String], segment: &str) -> (matched: Vec<String>)
    ensures
        texts(matched@) == sorted(matching(texts(names@), segment@)),
{
    let ghost all = texts(names@);
    let mut kept: Vec<String> = Vec::new();
    let mut at: usize = 0;
    assert(texts(kept@) =~= matching(all.take(0), segment@));
    while at < names.len()
        invariant
            at <= names@.len(),
            all == texts(names@),
            texts(kept@) == matching(all.take(at as int), segment@),
        decreases names@.len() - at,
    {
        assert(all.take(at + 1).drop_last() =~= all.take(at as int));
        assert(all.take(at + 1).last() == names@[at as int]@);
        let ghost before = texts(kept@);
        if wildcard(segment.as_bytes(), names[at].as_str().as_bytes()) {
            kept.push(names[at].clone());
            assert(texts(kept@) =~= before.push(names@[at as int]@));
        }
        at = at + 1;
    }
    assert(all.take(at as int) =~= all);
    sort(kept.as_slice())
}

/// One segment further from each directory.
fn step(found: &[Vec<String>], segment: &str, disk: &Disk) -> (next: Lookup<Vec<Vec<String>>>)
    ensures
        progress(next, |list: Vec<Vec<String>>| paths(list@)) == stepped(
            paths(found@),
            segment@,
            disk@,
        ),
{
    let wild = has(segment, '*') || has(segment, '?');
    let ghost all = paths(found@);
    let mut next: Vec<Vec<String>> = Vec::new();
    let mut at: usize = 0;
    assert(paths(next@) =~= all.take(0));
    while at < found.len()
        invariant
            at <= found@.len(),
            all == paths(found@),
            wild == is_wild(segment@),
            stepped(all.take(at as int), segment@, disk@) == Progress::Done(paths(next@)),
        decreases found@.len() - at,
    {
        let directory = found[at].as_slice();
        let ghost more = all.take(at + 1);
        assert(more.drop_last() =~= all.take(at as int));
        assert(more.last() == texts(directory@));
        let ghost before = paths(next@);
        if !wild {
            next.push(child(directory, segment));
            assert(paths(next@) =~= before.push(texts(directory@).push(segment@)));
        } else {
            match disk.listing(directory) {
                Some(names) => {
                    let matched = matched(names, segment);
                    let ghost wanted = texts(matched@);
                    let mut index: usize = 0;
                    assert(paths(next@) =~= before + children(texts(directory@), wanted.take(0)));
                    while index < matched.len()
                        invariant
                            index <= matched@.len(),
                            wanted == texts(matched@),
                            paths(next@) == before + children(
                                texts(directory@),
                                wanted.take(index as int),
                            ),
                        decreases matched@.len() - index,
                    {
                        let ghost prior = paths(next@);
                        let longer = child(directory, matched[index].as_str());
                        let ghost added = texts(longer@);
                        next.push(longer);
                        assert(paths(next@) =~= prior.push(added));
                        assert(children(texts(directory@), wanted.take(index + 1)) =~= children(
                            texts(directory@),
                            wanted.take(index as int),
                        ).push(added));
                        assert(paths(next@) =~= before + children(
                            texts(directory@),
                            wanted.take(index + 1),
                        ));
                        index = index + 1;
                    }
                    assert(wanted.take(index as int) =~= wanted);
                },
                None => {
                    let missing = copied_texts(directory);
                    proof {
                        lemma_stepped_stops(all, segment@, disk@, at + 1);
                    }
                    return Lookup::List(missing);
                },
            }
        }
        at = at + 1;
    }
    assert(all.take(at as int) =~= all);
    Lookup::Done(next)
}

/// Where a listing is missing, more directories do not help.
proof fn lemma_stepped_stops(
    found: Seq<Seq<Seq<char>>>,
    segment: Seq<char>,
    disk: DiskModel,
    count: int,
)
    requires
        0 <= count <= found.len(),
        !(stepped(found.take(count), segment, disk) is Done),
    ensures
        stepped(found, segment, disk) == stepped(found.take(count), segment, disk),
    decreases found.len(),
{
    if count == found.len() {
        assert(found.take(count) =~= found);
    } else {
        assert(found.drop_last().take(count) =~= found.take(count));
        lemma_stepped_stops(found.drop_last(), segment, disk, count);
    }
}

/// Directories matching a `/`-separated pattern whose segments may use `*`
/// and `?`, sorted for a stable result.
pub fn expand(base: &[String], pattern: &str, disk: &Disk) -> (found: Lookup<Vec<Vec<String>>>)
    ensures
        progress(found, |list: Vec<Vec<String>>| paths(list@)) == expanded(
            seq![texts(base@)],
            segments_of(pattern@),
            disk@,
        ),
{
    let segments = segments(pattern);
    let ghost all = texts(segments@);
    let mut found: Vec<Vec<String>> = vec![copied_texts(base)];
    let mut at: usize = 0;
    let ghost start = seq![texts(base@)];
    assert(paths(found@) =~= start);
    assert(all.skip(0) =~= all);
    while at < segments.len()
        invariant
            at <= segments@.len(),
            all == texts(segments@),
            expanded(start, all, disk@) == expanded(paths(found@), all.skip(at as int), disk@),
            start == seq![texts(base@)],
            all == segments_of(pattern@),
        decreases segments@.len() - at,
    {
        assert(all.skip(at as int).drop_first() =~= all.skip(at + 1));
        assert(all.skip(at as int)[0] == segments@[at as int]@);
        match step(found.as_slice(), segments[at].as_str(), disk) {
            Lookup::Done(next) => {
                found = next;
            },
            missing => {
                return missing;
            },
        }
        at = at + 1;
    }
    Lookup::Done(found)
}

/// The texts among the values of a list.
pub open spec fn texts_among(items: Seq<Node>) -> Seq<Seq<char>>
    decreases items.len(),
{
    if items.len() == 0 {
        Seq::empty()
    } else {
        match items.last().text() {
            Some(text) => texts_among(items.drop_last()).push(text),
            None => texts_among(items.drop_last()),
        }
    }
}

/// The patterns under a key of `[workspace]`.
pub open spec fn patterns_of(entries: Map<Seq<char>, Node>, key: Seq<char>) -> Seq<Seq<char>> {
    match nested(entries, "workspace"@, key) {
        Some(value) => match value.items() {
            Some(items) => texts_among(items),
            None => Seq::empty(),
        },
        None => Seq::empty(),
    }
}

/// The directories that any of the patterns leads to.
pub open spec fn all_expanded(
    base: Seq<Seq<char>>,
    patterns: Seq<Seq<char>>,
    disk: DiskModel,
) -> Progress<Seq<Seq<Seq<char>>>>
    decreases patterns.len(),
{
    if patterns.len() == 0 {
        Progress::Done(Seq::empty())
    } else {
        match all_expanded(base, patterns.drop_last(), disk) {
            Progress::Done(prior) => match expanded(
                seq![base],
                segments_of(patterns.last()),
                disk,
            ) {
                Progress::Done(found) => Progress::Done(prior + found),
                missing => missing,
            },
            missing => missing,
        }
    }
}

/// The paths that are not excluded.
pub open spec fn remaining(
    list: Seq<Seq<Seq<char>>>,
    excluded: Seq<Seq<Seq<char>>>,
) -> Seq<Seq<Seq<char>>>
    decreases list.len(),
{
    if list.len() == 0 {
        list
    } else if excluded.contains(list.last()) {
        remaining(list.drop_last(), excluded)
    } else {
        remaining(list.drop_last(), excluded).push(list.last())
    }
}

/// The name of the crate whose manifest has these contents, if its version is
/// `version.workspace = true`.
pub open spec fn inheriting_name(contents: Result<Seq<char>, Seq<char>>) -> Option<Seq<char>> {
    match contents {
        Ok(source) => match toml_document(source) {
            Ok(entries) => match nested(entries, "package"@, "version"@) {
                Some(version) => if is_inherited(version) {
                    match nested(entries, "package"@, "name"@) {
                        Some(name) => name.text(),
                        None => None,
                    }
                } else {
                    None
                },
                None => None,
            },
            Err(_) => None,
        },
        Err(_) => None,
    }
}

/// The names of those crates among the members whose version is inherited.
pub open spec fn inheriting_names(
    members: Seq<Seq<Seq<char>>>,
    disk: DiskModel,
) -> Progress<Seq<Seq<char>>>
    decreases members.len(),
{
    if members.len() == 0 {
        Progress::Done(Seq::empty())
    } else {
        match inheriting_names(members.drop_last(), disk) {
            Progress::Done(prior) => {
                let path = members.last().push("Cargo.toml"@);
                match disk.file(path) {
                    Some(file) => match inheriting_name(file.contents) {
                        Some(name) => Progress::Done(prior.push(name)),
                        None => Progress::Done(prior),
                    },
                    None => Progress::Look(path),
                }
            },
            missing => missing,
        }
    }
}

/// The names of the workspace crates that inherit the version of a workspace
/// manifest with these entries in `directory`, in order and each once. The root
/// package, when there is one, can inherit from its own workspace.
pub open spec fn inheriting(
    entries: Map<Seq<char>, Node>,
    directory: Seq<Seq<char>>,
    disk: DiskModel,
) -> Progress<Seq<Seq<char>>> {
    match all_expanded(directory, patterns_of(entries, "exclude"@), disk) {
        Progress::Done(excluded) => match all_expanded(
            directory,
            patterns_of(entries, "members"@),
            disk,
        ) {
            Progress::Done(listed) => match inheriting_names(
                seq![directory] + remaining(listed, excluded),
                disk,
            ) {
                Progress::Done(names) => Progress::Done(deduplicated(sorted(names))),
                missing => missing,
            },
            Progress::Look(path) => Progress::Look(path),
            Progress::List(path) => Progress::List(path),
        },
        Progress::Look(path) => Progress::Look(path),
        Progress::List(path) => Progress::List(path),
    }
}

/// [`inheriting`], for the contents of the manifest.
pub open spec fn members_of(
    source: Seq<char>,
    directory: Seq<Seq<char>>,
    disk: DiskModel,
) -> Progress<Seq<Seq<char>>> {
    match toml_document(source) {
        Ok(entries) => inheriting(entries, directory, disk),
        Err(_) => Progress::Done(Seq::empty()),
    }
}

/// The patterns under a key of `[workspace]`.
fn patterns(document: &toml::Table, key: &str) -> (patterns: Vec<String>)
    ensures
        texts(patterns@) == patterns_of(toml_entries(*document), key@),
{
    let mut patterns: Vec<String> = Vec::new();
    assert(texts(patterns@) =~= Seq::empty());
    if let Some(value) = nested_value(document, "workspace", key) {
        if let Some(items) = value.as_array() {
            let ghost all = toml_node(*value).items()->0;
            let mut at: usize = 0;
            assert(texts(patterns@) =~= texts_among(all.take(0)));
            while at < items.len()
                invariant
                    at <= items@.len(),
                    all == Seq::new(items@.len(), |i: int| toml_node(items@[i])),
                    texts(patterns@) == texts_among(all.take(at as int)),
                decreases items@.len() - at,
            {
                assert(all.take(at + 1).drop_last() =~= all.take(at as int));
                assert(all.take(at + 1).last() == toml_node(items@[at as int]));
                let ghost before = texts(patterns@);
                if let Some(text) = items[at].as_str() {
                    patterns.push(text.to_owned());
                    assert(texts(patterns@) =~= before.push(text@));
                }
                at = at + 1;
            }
            assert(all.take(at as int) =~= all);
        }
    }
    patterns
}

/// Where an expansion is stuck, more patterns do not help.
proof fn lemma_all_expanded_stops(
    base: Seq<Seq<char>>,
    patterns: Seq<Seq<char>>,
    disk: DiskModel,
    count: int,
)
    requires
        0 <= count <= patterns.len(),
        !(all_expanded(base, patterns.take(count), disk) is Done),
    ensures
        all_expanded(base, patterns, disk) == all_expanded(base, patterns.take(count), disk),
    decreases patterns.len(),
{
    if count == patterns.len() {
        assert(patterns.take(count) =~= patterns);
    } else {
        assert(patterns.drop_last().take(count) =~= patterns.take(count));
        lemma_all_expanded_stops(base, patterns.drop_last(), disk, count);
    }
}

/// The directories that any of the patterns leads to.
fn expand_all(base: &[String], patterns: &[String], disk: &Disk) -> (found: Lookup<
    Vec<Vec<String>>,
>)
    ensures
        progress(found, |list: Vec<Vec<String>>| paths(list@)) == all_expanded(
            texts(base@),
            texts(patterns@),
            disk@,
        ),
{
    let ghost all = texts(patterns@);
    let mut found: Vec<Vec<String>> = Vec::new();
    let mut at: usize = 0;
    assert(paths(found@) =~= Seq::empty());
    while at < patterns.len()
        invariant
            at <= patterns@.len(),
            all == texts(patterns@),
            all_expanded(texts(base@), all.take(at as int), disk@) == Progress::Done(paths(found@)),
        decreases patterns@.len() - at,
    {
        assert(all.take(at + 1).drop_last() =~= all.take(at as int));
        assert(all.take(at + 1).last() == patterns@[at as int]@);
        match expand(base, patterns[at].as_str(), disk) {
            Lookup::Done(more) => {
                let ghost before = paths(found@);
                let ghost added = paths(more@);
                let mut more = more;
                found.append(&mut more);
                assert(paths(found@) =~= before + added);
            },
            missing => {
                proof {
                    lemma_all_expanded_stops(texts(base@), all, disk@, at + 1);
                }
                return missing;
            },
        }
        at = at + 1;
    }
    assert(all.take(at as int) =~= all);
    Lookup::Done(found)
}

/// Whether a path is in a list.
fn lists_path(list: &[Vec<String>], path: &[String]) -> (listed: bool)
    ensures
        listed == paths(list@).contains(texts(path@)),
{
    let mut at: usize = 0;
    while at < list.len()
        invariant
            at <= list@.len(),
            forall|i: int| 0 <= i < at ==> texts(#[trigger] list@[i]@) != texts(path@),
        decreases list@.len() - at,
    {
        if same_path(list[at].as_slice(), path) {
            assert(paths(list@)[at as int] == texts(path@));
            return true;
        }
        at = at + 1;
    }
    false
}

/// `directory`, and the paths of `listed` that are not excluded.
fn members(directory: &[String], listed: &[Vec<String>], excluded: &[Vec<String>]) -> (members: Vec<
    Vec<String>,
>)
    ensures
        paths(members@) == seq![texts(directory@)] + remaining(paths(listed@), paths(excluded@)),
{
    let ghost all = paths(listed@);
    let ghost start = seq![texts(directory@)];
    let mut members: Vec<Vec<String>> = vec![copied_texts(directory)];
    let mut at: usize = 0;
    assert(paths(members@) =~= start + remaining(all.take(0), paths(excluded@)));
    while at < listed.len()
        invariant
            at <= listed@.len(),
            all == paths(listed@),
            paths(members@) == start + remaining(all.take(at as int), paths(excluded@)),
        decreases listed@.len() - at,
    {
        assert(all.take(at + 1).drop_last() =~= all.take(at as int));
        assert(all.take(at + 1).last() == texts(listed@[at as int]@));
        let ghost before = paths(members@);
        if !lists_path(excluded, listed[at].as_slice()) {
            let member = copied_texts(listed[at].as_slice());
            members.push(member);
            assert(paths(members@) =~= before.push(texts(listed@[at as int]@)));
            assert(paths(members@) =~= start + remaining(all.take(at + 1), paths(excluded@)));
        }
        at = at + 1;
    }
    assert(all.take(at as int) =~= all);
    members
}

/// The name of the crate whose manifest has these contents, if its version is
/// `version.workspace = true`.
fn inherited_name(contents: &Result<String, String>) -> (name: Option<String>)
    ensures
        crate::text::maybe_text(name) == inheriting_name(crate::disk::contents_model(*contents)),
{
    let source = match contents {
        Ok(source) => source,
        Err(_) => {
            return None;
        },
    };
    let document = match parse_toml(source.as_str()) {
        Ok(document) => document,
        Err(_) => {
            return None;
        },
    };
    match nested_value(&document, "package", "version") {
        Some(version) => {
            if !inherits(version) {
                return None;
            }
        },
        None => {
            return None;
        },
    }
    match nested_value(&document, "package", "name") {
        Some(name) => match name.as_str() {
            Some(text) => Some(text.to_owned()),
            None => None,
        },
        None => None,
    }
}

/// Where a manifest is missing, more members do not help.
proof fn lemma_inheriting_names_stops(
    members: Seq<Seq<Seq<char>>>,
    disk: DiskModel,
    count: int,
)
    requires
        0 <= count <= members.len(),
        !(inheriting_names(members.take(count), disk) is Done),
    ensures
        inheriting_names(members, disk) == inheriting_names(members.take(count), disk),
    decreases members.len(),
{
    if count == members.len() {
        assert(members.take(count) =~= members);
    } else {
        assert(members.drop_last().take(count) =~= members.take(count));
        lemma_inheriting_names_stops(members.drop_last(), disk, count);
    }
}

/// The names of those crates among the members whose version is inherited.
fn inherited_names(members: &[Vec<String>], disk: &Disk) -> (names: Lookup<Vec<String>>)
    ensures
        progress(names, |list: Vec<String>| texts(list@)) == inheriting_names(
            paths(members@),
            disk@,
        ),
{
    let ghost all = paths(members@);
    let mut names: Vec<String> = Vec::new();
    let mut at: usize = 0;
    assert(texts(names@) =~= Seq::empty());
    while at < members.len()
        invariant
            at <= members@.len(),
            all == paths(members@),
            inheriting_names(all.take(at as int), disk@) == Progress::Done(texts(names@)),
        decreases members@.len() - at,
    {
        assert(all.take(at + 1).drop_last() =~= all.take(at as int));
        assert(all.take(at + 1).last() == texts(members@[at as int]@));
        let ghost before = texts(names@);
        let path = child(members[at].as_slice(), "Cargo.toml");
        match disk.file(path.as_slice()) {
            Some(file) => {
                if let Some(name) = inherited_name(&file.contents) {
                    let ghost added = name@;
                    names.push(name);
                    assert(texts(names@) =~= before.push(added));
                }
            },
            None => {
                proof {
                    lemma_inheriting_names_stops(all, disk@, at + 1);
                }
                return Lookup::Look(path);
            },
        }
        at = at + 1;
    }
    assert(all.take(at as int) =~= all);
    Lookup::Done(names)
}

/// Names of the workspace crates whose version is `version.workspace = true`,
/// found through `workspace.members` (literal paths and `*`/`?` wildcards).
pub fn inheriting_members(manifest: &Manifest, disk: &Disk) -> (names: Lookup<Vec<String>>)
    ensures
        progress(names, |list: Vec<String>| texts(list@)) == members_of(
            manifest@.source,
            parent_of(manifest@.path),
            disk@,
        ),
{
    let document = match parse_toml(manifest.source.as_str()) {
        Ok(document) => document,
        Err(_) => {
            let none: Vec<String> = Vec::new();
            assert(texts(none@) =~= Seq::empty());
            return Lookup::Done(none);
        },
    };
    let directory = parent(manifest.path.as_slice());
    let excluding = patterns(&document, "exclude");
    let excluded = match expand_all(directory, excluding.as_slice(), disk) {
        Lookup::Done(excluded) => excluded,
        Lookup::Look(path) => {
            return Lookup::Look(path);
        },
        Lookup::List(path) => {
            return Lookup::List(path);
        },
    };
    let listing = patterns(&document, "members");
    let listed = match expand_all(directory, listing.as_slice(), disk) {
        Lookup::Done(listed) => listed,
        Lookup::Look(path) => {
            return Lookup::Look(path);
        },
        Lookup::List(path) => {
            return Lookup::List(path);
        },
    };
    let members = members(directory, listed.as_slice(), excluded.as_slice());
    match inherited_names(members.as_slice(), disk) {
        Lookup::Done(names) => {
            let in_order = sort(names.as_slice());
            Lookup::Done(dedup(in_order.as_slice()))
        },
        missing => missing,
    }
}

/// The names are in order and each comes once, whatever order the members are
/// listed in.
pub proof fn law_members_are_listed_once(
    source: Seq<char>,
    directory: Seq<Seq<char>>,
    disk: DiskModel,
)
    ensures
        members_of(source, directory, disk) matches Progress::Done(names) ==> is_increasing(names),
{
    if let Ok(entries) = toml_document(source) {
        if let (Progress::Done(excluded), Progress::Done(listed)) = (
            all_expanded(directory, patterns_of(entries, "exclude"@), disk),
            all_expanded(directory, patterns_of(entries, "members"@), disk),
        ) {
            if let Progress::Done(names) = inheriting_names(
                seq![directory] + remaining(listed, excluded),
                disk,
            ) {
                lemma_sorted(names);
                lemma_deduplicated(sorted(names));
            }
        }
    }
}

// ---------------------------------------------------------------------------
// npm

/// The edit of a lockfile, if there is one to make.
pub open spec fn maybe_edit(edit: Result<Option<Edit>, VersionerError>) -> Result<
    Option<EditModel>,
    Failure,
> {
    match edit {
        Ok(Some(edit)) => Ok(Some(edit@)),
        Ok(None) => Ok(None),
        Err(error) => Err(error@),
    }
}

/// The paths of keys in a `package-lock.json` under which the version of the
/// package in directory `key` is recorded.
pub open spec fn npm_paths(key: Seq<char>) -> Seq<Seq<Seq<char>>> {
    if key.len() == 0 {
        seq![seq!["packages"@, key, "version"@], seq!["version"@]]
    } else {
        seq![seq!["packages"@, key, "version"@]]
    }
}

/// Those of the paths under which the parsed document has a string, and where
/// the scanner sees it; none where the scanner sees something else.
pub open spec fn located(
    document: Node,
    bytes: Seq<u8>,
    wanted: Seq<Seq<Seq<char>>>,
) -> Option<Seq<(Seq<Seq<char>>, (int, int))>>
    decreases wanted.len(),
{
    if wanted.len() == 0 {
        Some(Seq::empty())
    } else {
        match (located(document, bytes, wanted.drop_last()), text_at(document, wanted.last())) {
            (None, _) => None,
            (Some(prior), None) => Some(prior),
            (Some(prior), Some(expected)) => match in_json::contents_at(bytes, wanted.last()) {
                Some(span) => if text_between(bytes, span.0, span.1) == expected {
                    Some(prior.push((wanted.last(), span)))
                } else {
                    None
                },
                None => None,
            },
        }
    }
}

/// The spans of located strings.
pub open spec fn spans_of<A>(found: Seq<(A, (int, int))>) -> Seq<(int, int)> {
    Seq::new(found.len(), |i: int| found[i].1)
}

/// Whether a parsed document has the string `value` at every located path.
pub open spec fn all_read(
    document: Node,
    found: Seq<(Seq<Seq<char>>, (int, int))>,
    value: Seq<char>,
) -> bool {
    forall|i: int|
        0 <= i < found.len() ==> text_at(document, (#[trigger] found[i]).0) == Some(value)
}

/// A `package-lock.json` with the version of the package in directory `key`
/// set to `next`, re-parsed to make sure.
pub open spec fn npm_locked(
    path: Seq<Seq<char>>,
    label: Seq<char>,
    source: Seq<char>,
    key: Seq<char>,
    next: Seq<char>,
) -> Result<Option<EditModel>, Failure> {
    let bytes = encode_utf8(source);
    match json_document(source) {
        Err(reason) => Err(Failure::InvalidManifest(label, reason)),
        Ok(document) => match located(document, bytes, npm_paths(key)) {
            None => Err(Failure::Unlocatable(label)),
            Some(found) => {
                let spans = spans_of(found);
                let updated = replaced(bytes, spans, next);
                if found.len() == 0 {
                    Ok(None)
                } else if apart(bytes, by_start(spans)) && (json_document(updated) matches Ok(after)
                    && all_read(after, found, next)) {
                    Ok(
                        Some(
                            EditModel {
                                path,
                                label,
                                from: text_between(bytes, spans[0].0, spans[0].1),
                                original: source,
                                updated,
                            },
                        ),
                    )
                } else {
                    Err(Failure::Unlocatable(label))
                }
            },
        },
    }
}

/// Lists of keys as models.
pub open spec fn key_paths(list: Seq<Vec<&str>>) -> Seq<Seq<Seq<char>>> {
    Seq::new(list.len(), |i: int| slices(list[i]@))
}

/// Where nothing is located, more paths do not help.
proof fn lemma_located_stops(
    document: Node,
    bytes: Seq<u8>,
    wanted: Seq<Seq<Seq<char>>>,
    count: int,
)
    requires
        0 <= count <= wanted.len(),
        located(document, bytes, wanted.take(count)) is None,
    ensures
        located(document, bytes, wanted) is None,
    decreases wanted.len(),
{
    if count == wanted.len() {
        assert(wanted.take(count) =~= wanted);
    } else {
        assert(wanted.drop_last().take(count) =~= wanted.take(count));
        lemma_located_stops(document, bytes, wanted.drop_last(), count);
    }
}

/// `package-lock.json` records the version at the top and under `packages[""]`
/// for its own package, and under `packages["<dir>"]` for a workspace member.
/// Strings that overlap, as they do in no JSON, cannot be pinned down.
pub fn npm_edit(path: &[String], label: &str, source: &str, key: &str, next: &str) -> (edit: Result<
    Option<Edit>,
    VersionerError,
>)
    ensures
        maybe_edit(edit) == npm_locked(texts(path@), label@, source@, key@, next@),
{
    let ghost bytes = source.spec_bytes();
    let document = match parse_json(source) {
        Ok(document) => document,
        Err(reason) => {
            return Err(VersionerError::InvalidManifest(label.to_owned(), reason));
        },
    };
    let mut wanted: Vec<Vec<&str>> = vec![vec!["packages", key, "version"]];
    let characters = chars_of(key);
    if characters.len() == 0 {
        wanted.push(vec!["version"]);
    }
    let ghost all = key_paths(wanted@);
    proof {
        assert(slices(wanted@[0]@) =~= seq!["packages"@, key@, "version"@]);
        if key@.len() == 0 {
            assert(slices(wanted@[1]@) =~= seq!["version"@]);
        }
        assert(all =~= npm_paths(key@));
    }
    // Only entries that exist; each one's span must hold what the parser read.

    let mut kept: Vec<usize> = Vec::new();
    let mut spans: Vec<Range<usize>> = Vec::new();
    let ghost mut found: Seq<(Seq<Seq<char>>, (int, int))> = Seq::empty();
    let mut at: usize = 0;
    while at < wanted.len()
        invariant
            at <= wanted@.len(),
            bytes == source.spec_bytes(),
            all == key_paths(wanted@),
            all == npm_paths(key@),
            json_document(source@) == Ok::<Node, Seq<char>>(json_node(document)),
            located(json_node(document), bytes, all.take(at as int)) == Some(found),
            kept@.len() == found.len(),
            spans@.len() == found.len(),
            forall|i: int|
                0 <= i < found.len() ==> (#[trigger] kept@[i]) < wanted@.len() && found[i].0
                    == all[kept@[i] as int],
            forall|i: int|
                0 <= i < found.len() ==> ends(#[trigger] spans@[i]) == found[i].1,
            forall|i: int|
                0 <= i < found.len() ==> is_cut(
                    bytes,
                    (#[trigger] found[i]).1.0,
                    found[i].1.1,
                ),
        decreases wanted@.len() - at,
    {
        assert(all.take(at + 1).drop_last() =~= all.take(at as int));
        assert(all.take(at + 1).last() == slices(wanted@[at as int]@));
        if let Some(expected) = json_string(&document, wanted[at].as_slice()) {
            match in_json::string_at(source, wanted[at].as_slice()) {
                Some(span) => {
                    if !same_text(cut(source, span.start, span.end), expected) {
                        proof {
                            lemma_located_stops(json_node(document), bytes, all, at + 1);
                        }
                        return Err(VersionerError::Unlocatable(label.to_owned()));
                    }
                    let ghost prior = found;
                    let ghost before = spans@;
                    proof {
                        found = found.push((all[at as int], ends(span)));
                    }
                    kept.push(at);
                    spans.push(span);
                    assert forall|i: int| 0 <= i < found.len() implies ends(#[trigger] spans@[i])
                        == found[i].1 && is_cut(bytes, found[i].1.0, found[i].1.1) by {
                        if i < prior.len() {
                            assert(ends(before[i]) == prior[i].1);
                        }
                    }
                },
                None => {
                    proof {
                        lemma_located_stops(json_node(document), bytes, all, at + 1);
                    }
                    return Err(VersionerError::Unlocatable(label.to_owned()));
                },
            }
        }
        at = at + 1;
    }
    proof {
        assert(all.take(at as int) =~= all);
        assert(all_ends(spans@) =~= spans_of(found));
    }
    if spans.len() == 0 {
        return Ok(None);
    }
    proof {
        assert forall|i: int| 0 <= i < spans@.len() implies is_cut(
            bytes,
            (#[trigger] all_ends(spans@)[i]).0,
            all_ends(spans@)[i].1,
        ) by {
            assert(ends(spans@[i]) == found[i].1);
        }
    }
    if !are_apart(spans.as_slice(), source.as_bytes()) {
        return Err(VersionerError::Unlocatable(label.to_owned()));
    }
    assert(ends(spans@[0]) == found[0].1);
    let from = cut(source, spans[0].start, spans[0].end).to_owned();
    let updated = replace(source, spans.as_slice(), next);
    let after = match parse_json(updated.as_str()) {
        Ok(after) => after,
        Err(_) => {
            return Err(VersionerError::Unlocatable(label.to_owned()));
        },
    };
    let mut index: usize = 0;
    while index < kept.len()
        invariant
            index <= kept@.len(),
            all == key_paths(wanted@),
            all == npm_paths(key@),
            bytes == source.spec_bytes(),
            json_document(source@) == Ok::<Node, Seq<char>>(json_node(document)),
            located(json_node(document), bytes, all) == Some(found),
            updated@ == replaced(bytes, spans_of(found), next@),
            json_document(updated@) == Ok::<Node, Seq<char>>(json_node(after)),
            kept@.len() == found.len(),
            forall|i: int|
                0 <= i < found.len() ==> (#[trigger] kept@[i]) < wanted@.len() && found[i].0
                    == all[kept@[i] as int],
            forall|i: int|
                0 <= i < index ==> text_at(json_node(after), (#[trigger] found[i]).0) == Some(
                    next@,
                ),
        decreases kept@.len() - index,
    {
        assert(found[index as int].0 == slices(wanted@[kept@[index as int] as int]@));
        let lands = match json_string(&after, wanted[kept[index]].as_slice()) {
            Some(text) => same_text(text, next),
            None => false,
        };
        if !lands {
            return Err(VersionerError::Unlocatable(label.to_owned()));
        }
        index = index + 1;
    }
    Ok(
        Some(
            Edit {
                path: copied_texts(path),
                label: label.to_owned(),
                from,
                original: source.to_owned(),
                updated,
            },
        ),
    )
}

// ---------------------------------------------------------------------------
// Cargo and uv

/// Which packages of a lockfile are the project's own.
#[derive(Debug)]
pub enum Own {
    /// Cargo.lock lists local crates as `[[package]]` blocks without a
    /// `source`: those of these names.
    Crates(Vec<String>),
    /// uv.lock marks the project itself with an `editable` or `virtual`
    /// source: the one of this normalized name.
    Project(String),
}

/// An [`Own`] with its texts as sequences of characters.
pub enum OwnModel {
    Crates(Seq<Seq<char>>),
    Project(Seq<char>),
}

impl View for Own {
    type V = OwnModel;

    open spec fn view(&self) -> OwnModel {
        match self {
            Own::Crates(names) => OwnModel::Crates(texts(names@)),
            Own::Project(name) => OwnModel::Project(name@),
        }
    }
}

impl OwnModel {
    /// Whether the package of this name and raw source is the project's own.
    pub open spec fn matches(self, name: Seq<char>, source: Option<Seq<char>>) -> bool {
        match self {
            OwnModel::Crates(names) => source is None && names.contains(name),
            OwnModel::Project(own) => normalized_python(name) == own && (source matches Some(origin)
                && (occurs(origin, "editable"@) || occurs(origin, "virtual"@))),
        }
    }
}

impl Own {
    /// Whether the package of this name and raw source is the project's own.
    pub fn matches(&self, name: &str, source: Option<&str>) -> (own: bool)
        ensures
            own == self@.matches(name@, maybe_slice(source)),
    {
        match self {
            Own::Crates(names) => source.is_none() && holds(names.as_slice(), name),
            Own::Project(own) => {
                let normalized = normalize_python(name);
                if !same_text(normalized.as_str(), own.as_str()) {
                    return false;
                }
                match source {
                    Some(origin) => contains(origin, "editable") || contains(origin, "virtual"),
                    None => false,
                }
            },
        }
    }
}

/// The names and version spans that the scanner sees of the own packages.
pub open spec fn own_scanned(packages: Seq<in_toml::PackageModel>, own: OwnModel) -> Seq<
    (Seq<char>, (int, int)),
>
    decreases packages.len(),
{
    if packages.len() == 0 {
        Seq::empty()
    } else {
        let prior = own_scanned(packages.drop_last(), own);
        let package = packages.last();
        match package.version {
            Some(span) => if own.matches(package.name, package.source) {
                prior.push((package.name, span))
            } else {
                prior
            },
            None => prior,
        }
    }
}

/// The names and versions that a parser reads of the own packages, in document
/// order; none where a package lacks a name or its version.
pub open spec fn own_among(items: Seq<Node>, own: OwnModel) -> Option<Seq<(Seq<char>, Seq<char>)>>
    decreases items.len(),
{
    if items.len() == 0 {
        Some(Seq::empty())
    } else {
        let item = items.last();
        match (own_among(items.drop_last(), own), field_text(item, "name"@)) {
            (Some(prior), Some(name)) => if own.matches(name, origin_of(item)) {
                match field_text(item, "version"@) {
                    Some(version) => Some(prior.push((name, version))),
                    None => None,
                }
            } else {
                Some(prior)
            },
            _ => None,
        }
    }
}

/// The text under a key of a value.
pub open spec fn field_text(node: Node, key: Seq<char>) -> Option<Seq<char>> {
    match node.field(key) {
        Some(value) => value.text(),
        None => None,
    }
}

/// Where a parsed package comes from, as it prints.
pub open spec fn origin_of(package: Node) -> Option<Seq<char>> {
    match package.field("source"@) {
        Some(value) => value.printed,
        None => None,
    }
}

/// The packages of a parsed lockfile.
pub open spec fn items_of(entries: Map<Seq<char>, Node>) -> Option<Seq<Node>> {
    match entry(entries, "package"@) {
        Some(value) => value.items(),
        None => None,
    }
}

/// What a parser reads of the own packages in a lockfile.
pub open spec fn own_parsed(source: Seq<char>, own: OwnModel) -> Option<
    Seq<(Seq<char>, Seq<char>)>,
> {
    match toml_document(source) {
        Ok(entries) => match items_of(entries) {
            Some(items) => own_among(items, own),
            None => None,
        },
        Err(_) => None,
    }
}

/// What the scanner sees of the own packages, with the version texts.
pub open spec fn own_texts(bytes: Seq<u8>, scanned: Seq<(Seq<char>, (int, int))>) -> Seq<
    (Seq<char>, Seq<char>),
> {
    Seq::new(
        scanned.len(),
        |i: int| (scanned[i].0, text_between(bytes, scanned[i].1.0, scanned[i].1.1)),
    )
}

/// Whether two lists have the same pairs, each as often.
pub open spec fn same_pairs(
    left: Seq<(Seq<char>, Seq<char>)>,
    right: Seq<(Seq<char>, Seq<char>)>,
) -> bool {
    left.to_multiset() == right.to_multiset()
}

/// Whether a parser reads `count` own packages, all of version `next`.
pub open spec fn lands(source: Seq<char>, own: OwnModel, count: nat, next: Seq<char>) -> bool {
    own_parsed(source, own) matches Some(found) && found.len() == count && forall|i: int|
        0 <= i < found.len() ==> (#[trigger] found[i]).1 == next
}

/// A lockfile with the version of the own packages set to `next`. What the
/// scanner sees of them must be what a parser reads, and a parser must read
/// `next` in all of them afterwards.
pub open spec fn locked(
    path: Seq<Seq<char>>,
    label: Seq<char>,
    source: Seq<char>,
    next: Seq<char>,
    own: OwnModel,
) -> Result<Option<EditModel>, Failure> {
    let bytes = encode_utf8(source);
    let scanned = own_scanned(in_toml::packages_of(bytes), own);
    let spans = spans_of(scanned);
    let updated = replaced(bytes, spans, next);
    if scanned.len() == 0 {
        Ok(None)
    } else if (own_parsed(source, own) matches Some(found) && same_pairs(
        found,
        own_texts(bytes, scanned),
    )) && lands(updated, own, scanned.len(), next) {
        Ok(
            Some(
                EditModel {
                    path,
                    label,
                    from: text_between(bytes, spans[0].0, spans[0].1),
                    original: source,
                    updated,
                },
            ),
        )
    } else {
        Err(Failure::Unlocatable(label))
    }
}

/// Pairs of strings as models.
pub open spec fn pairs_of(list: Seq<(String, String)>) -> Seq<(Seq<char>, Seq<char>)> {
    Seq::new(list.len(), |i: int| (list[i].0@, list[i].1@))
}

/// Whether two lists have the same pairs, each as often.
fn have_same_pairs(left: &[(String, String)], right: &[(String, String)]) -> (same: bool)
    ensures
        same == same_pairs(pairs_of(left@), pairs_of(right@)),
{
    broadcast use vstd::seq_lib::group_to_multiset_ensures;

    let ghost lefts = pairs_of(left@);
    let ghost rights = pairs_of(right@);
    // Which pairs of `right` have not been met in `left`.
    let mut unmet: Vec<usize> = Vec::new();
    let ghost mut rest: Seq<(Seq<char>, Seq<char>)> = Seq::empty();
    let mut at: usize = 0;
    while at < right.len()
        invariant
            at <= right@.len(),
            rights == pairs_of(right@),
            unmet@.len() == at,
            rest == rights.take(at as int),
            forall|i: int| 0 <= i < at ==> (#[trigger] unmet@[i]) == i,
        decreases right@.len() - at,
    {
        unmet.push(at);
        proof {
            rest = rights.take(at + 1);
        }
        at = at + 1;
    }
    proof {
        assert(rest =~= rights);
        assert(lefts.take(0) =~= Seq::empty());
        assert(rights.to_multiset() =~= lefts.take(0).to_multiset().add(rest.to_multiset()));
    }
    let mut index: usize = 0;
    while index < left.len()
        invariant
            index <= left@.len(),
            lefts == pairs_of(left@),
            rights == pairs_of(right@),
            unmet@.len() == rest.len(),
            forall|i: int|
                0 <= i < rest.len() ==> (#[trigger] unmet@[i]) < right@.len() && rest[i]
                    == rights[unmet@[i] as int],
            rights.to_multiset() == lefts.take(index as int).to_multiset().add(rest.to_multiset()),
        decreases left@.len() - index,
    {
        let ghost wanted = lefts[index as int];
        let ghost more = lefts.take(index + 1);
        proof {
            assert(more =~= lefts.take(index as int).push(wanted));
        }
        let mut place: usize = 0;
        while place < unmet.len() && !(same_text(right[unmet[place]].0.as_str(), left[index].0.as_str())
            && same_text(right[unmet[place]].1.as_str(), left[index].1.as_str()))
            invariant
                index < left@.len(),
                place <= unmet@.len(),
                lefts == pairs_of(left@),
                rights == pairs_of(right@),
                wanted == lefts[index as int],
                unmet@.len() == rest.len(),
                forall|i: int|
                    0 <= i < rest.len() ==> (#[trigger] unmet@[i]) < right@.len() && rest[i]
                        == rights[unmet@[i] as int],
                forall|i: int| 0 <= i < place ==> #[trigger] rest[i] != wanted,
            decreases unmet@.len() - place,
        {
            assert(rest[place as int] == rights[unmet@[place as int] as int]);
            place = place + 1;
        }
        if place == unmet.len() {
            proof {
                rest.to_multiset_ensures();
                lefts.take(index as int).to_multiset_ensures();
                assert(!rest.contains(wanted));
                assert(rest.to_multiset().count(wanted) == 0);
                lemma_count_grows(lefts, index + 1, wanted);
                assert(more.to_multiset().count(wanted) == lefts.take(
                    index as int,
                ).to_multiset().count(wanted) + 1);
                assert(rights.to_multiset().count(wanted) < lefts.to_multiset().count(wanted));
            }
            return false;
        }
        let ghost before = rest;
        assert(rest[place as int] == rights[unmet@[place as int] as int]);
        let ghost gone = unmet@;
        unmet.remove(place);
        proof {
            lefts.take(index as int).to_multiset_ensures();
            rest = before.remove(place as int);
            assert(before.to_multiset() =~= rest.to_multiset().insert(wanted)) by {
                assert(before[place as int] == wanted);
                lemma_remove(before, place as int);
            }
            assert(lefts.take(index as int).to_multiset().add(
                rest.to_multiset().insert(wanted),
            ) =~= lefts.take(index as int).to_multiset().insert(wanted).add(rest.to_multiset()));
            assert forall|i: int| 0 <= i < rest.len() implies (#[trigger] unmet@[i])
                < right@.len() && rest[i] == rights[unmet@[i] as int] by {
                if i < place {
                    assert(unmet@[i] == gone[i]);
                } else {
                    assert(unmet@[i] == gone[i + 1]);
                }
            }
        }
        index = index + 1;
    }
    proof {
        assert(lefts.take(index as int) =~= lefts);
        if rest.len() == 0 {
            assert(rest =~= Seq::empty());
            assert(lefts.to_multiset().add(rest.to_multiset()) =~= lefts.to_multiset());
        } else {
            assert(rest.contains(rest[0]));
            assert(rest.to_multiset().count(rest[0]) > 0);
            assert(rights.to_multiset().count(rest[0]) > lefts.to_multiset().count(rest[0]));
        }
    }
    unmet.len() == 0
}

/// What a list holds, it holds at least as often as its beginnings.
proof fn lemma_count_grows<A>(list: Seq<A>, count: int, item: A)
    requires
        0 <= count <= list.len(),
    ensures
        list.take(count).to_multiset().count(item) <= list.to_multiset().count(item),
    decreases list.len() - count,
{
    broadcast use vstd::seq_lib::group_to_multiset_ensures;

    if count < list.len() {
        assert(list.take(count + 1) =~= list.take(count).push(list[count]));
        lemma_count_grows(list, count + 1, item);
    } else {
        assert(list.take(count) =~= list);
    }
}

/// A list is what it is without one of its items, and that item.
proof fn lemma_remove<A>(list: Seq<A>, at: int)
    requires
        0 <= at < list.len(),
    ensures
        list.to_multiset() == list.remove(at).to_multiset().insert(list[at]),
{
    list.to_multiset_ensures();
    assert(list.remove(at).to_multiset() =~= list.to_multiset().remove(list[at]));
    assert(list.contains(list[at]));
    assert(list.to_multiset().remove(list[at]).insert(list[at]) =~= list.to_multiset());
}

/// The own packages that the scanner sees stand one behind the other.
proof fn lemma_own_scanned(
    bytes: Seq<u8>,
    packages: Seq<in_toml::PackageModel>,
    own: OwnModel,
)
    requires
        in_toml::in_order(bytes, packages),
    ensures
        forall|i: int|
            0 <= i < own_scanned(packages, own).len() ==> exists|k: int|
                0 <= k < packages.len() && (#[trigger] packages[k]).version == Some(
                    (#[trigger] own_scanned(packages, own)[i]).1,
                ),
        apart(bytes, spans_of(own_scanned(packages, own))),
    decreases packages.len(),
{
    if packages.len() > 0 {
        let fewer = packages.drop_last();
        let package = packages.last();
        assert(packages[packages.len() - 1] == package);
        assert forall|i: int| 0 <= i < fewer.len() implies ((
        #[trigger] fewer[i]).version matches Some((start, end)) ==> is_cut(bytes, start, end)) by {
            assert(fewer[i] == packages[i]);
        }
        assert forall|i: int, j: int|
            0 <= i < j < fewer.len() && (#[trigger] fewer[i]).version is Some && (
            #[trigger] fewer[j]).version is Some implies (fewer[i].version->0).1 <= (
        fewer[j].version->0).0 by {
            assert(fewer[i] == packages[i] && fewer[j] == packages[j]);
        }
        lemma_own_scanned(bytes, fewer, own);
        let prior = own_scanned(fewer, own);
        let scanned = own_scanned(packages, own);
        assert forall|i: int| 0 <= i < prior.len() implies exists|k: int|
            0 <= k < packages.len() - 1 && (#[trigger] packages[k]).version == Some(
                (#[trigger] prior[i]).1,
            ) by {
            let k = choose|k: int|
                0 <= k < fewer.len() && (#[trigger] fewer[k]).version == Some(prior[i].1);
            assert(packages[k].version == Some(prior[i].1));
        }
        if scanned.len() > prior.len() {
            assert(scanned =~= prior.push((package.name, package.version->0)));
            let spans = spans_of(scanned);
            assert forall|i: int, j: int| 0 <= i < j < spans.len() implies (#[trigger] spans[i]).1
                <= (#[trigger] spans[j]).0 by {
                if j < prior.len() {
                    assert(spans[i] == spans_of(prior)[i] && spans[j] == spans_of(prior)[j]);
                } else {
                    assert(prior[i] == scanned[i]);
                    let k = choose|k: int|
                        0 <= k < packages.len() - 1 && (#[trigger] packages[k]).version == Some(
                            prior[i].1,
                        );
                    assert(packages[k].version is Some);
                }
            }
            assert forall|i: int| 0 <= i < spans.len() implies is_cut(
                bytes,
                (#[trigger] spans[i]).0,
                spans[i].1,
            ) by {
                if i < prior.len() {
                    assert(spans[i] == spans_of(prior)[i]);
                }
            }
            assert forall|i: int| 0 <= i < scanned.len() implies exists|k: int|
                0 <= k < packages.len() && (#[trigger] packages[k]).version == Some(
                    (#[trigger] scanned[i]).1,
                ) by {
                if i < prior.len() {
                    assert(scanned[i] == prior[i]);
                    let k = choose|k: int|
                        0 <= k < packages.len() - 1 && (#[trigger] packages[k]).version == Some(
                            prior[i].1,
                        );
                    assert(packages[k].version == Some(scanned[i].1));
                } else {
                    assert(packages[packages.len() - 1].version == Some(scanned[i].1));
                }
            }
        }
    }
}

/// Where a package cannot be read, the rest does not matter.
proof fn lemma_own_among_stops(items: Seq<Node>, own: OwnModel, count: int)
    requires
        0 <= count <= items.len(),
        own_among(items.take(count), own) is None,
    ensures
        own_among(items, own) is None,
    decreases items.len(),
{
    if count == items.len() {
        assert(items.take(count) =~= items);
    } else {
        assert(items.drop_last().take(count) =~= items.take(count));
        lemma_own_among_stops(items.drop_last(), own, count);
    }
}

/// The text under a key of a value.
fn text_field<'a>(value: &'a toml::Value, key: &str) -> (text: Option<&'a str>)
    ensures
        maybe_slice(text) == field_text(toml_node(*value), key@),
{
    match toml_field(value, key) {
        Some(inner) => inner.as_str(),
        None => None,
    }
}

/// What a parser reads of the own packages in a lockfile.
fn parse_own(source: &str, own: &Own) -> (found: Option<Vec<(String, String)>>)
    ensures
        match found {
            Some(pairs) => own_parsed(source@, own@) == Some(pairs_of(pairs@)),
            None => own_parsed(source@, own@) is None,
        },
{
    let document = match parse_toml(source) {
        Ok(document) => document,
        Err(_) => {
            return None;
        },
    };
    let list = match toml_get(&document, "package") {
        Some(list) => list,
        None => {
            return None;
        },
    };
    let items = match list.as_array() {
        Some(items) => items,
        None => {
            return None;
        },
    };
    let ghost all = toml_node(*list).items()->0;
    proof {
        assert(toml_node(*list).prints());
        assert forall|i: int| 0 <= i < items@.len() implies toml_node(
            #[trigger] items@[i],
        ).prints() by {
            assert(all[i].prints());
        }
    }
    let mut found: Vec<(String, String)> = Vec::new();
    let mut at: usize = 0;
    assert(pairs_of(found@) =~= Seq::empty());
    while at < items.len()
        invariant
            at <= items@.len(),
            own_parsed(source@, own@) == own_among(all, own@),
            all == Seq::new(items@.len(), |i: int| toml_node(items@[i])),
            forall|i: int| 0 <= i < items@.len() ==> toml_node(#[trigger] items@[i]).prints(),
            own_among(all.take(at as int), own@) == Some(pairs_of(found@)),
        decreases items@.len() - at,
    {
        let package = &items[at];
        proof {
            assert(all.take(at + 1).drop_last() =~= all.take(at as int));
            assert(all.take(at + 1).last() == toml_node(*package));
            lemma_field_prints(toml_node(*package), "source"@);
            if own_among(all.take(at + 1), own@) is None {
                lemma_own_among_stops(all, own@, at + 1);
            }
        }
        let name = match text_field(package, "name") {
            Some(name) => name,
            None => {
                return None;
            },
        };
        let own_one = match toml_field(package, "source") {
            Some(origin) => {
                let printed = print_toml(origin);
                own.matches(name, Some(printed.as_str()))
            },
            None => own.matches(name, None),
        };
        if own_one {
            let version = match text_field(package, "version") {
                Some(version) => version,
                None => {
                    return None;
                },
            };
            let ghost before = pairs_of(found@);
            found.push((name.to_owned(), version.to_owned()));
            assert(pairs_of(found@) =~= before.push((name@, version@)));
        }
        at = at + 1;
    }
    assert(all.take(at as int) =~= all);
    Some(found)
}

/// The own packages that the scanner sees.
fn scan_own(source: &str, own: &Own) -> (scanned: (Vec<(String, String)>, Vec<Range<usize>>))
    ensures
        all_ends(scanned.1@) == spans_of(
            own_scanned(in_toml::packages_of(source.spec_bytes()), own@),
        ),
        pairs_of(scanned.0@) == own_texts(
            source.spec_bytes(),
            own_scanned(in_toml::packages_of(source.spec_bytes()), own@),
        ),
        apart(source.spec_bytes(), all_ends(scanned.1@)),
{
    let ghost bytes = source.spec_bytes();
    let packages = in_toml::packages(source);
    let ghost all = in_toml::package_models(packages@);
    let mut pairs: Vec<(String, String)> = Vec::new();
    let mut spans: Vec<Range<usize>> = Vec::new();
    let mut at: usize = 0;
    proof {
        assert(pairs_of(pairs@) =~= own_texts(bytes, own_scanned(all.take(0), own@)));
        assert(all_ends(spans@) =~= spans_of(own_scanned(all.take(0), own@)));
    }
    while at < packages.len()
        invariant
            at <= packages@.len(),
            bytes == source.spec_bytes(),
            all == in_toml::package_models(packages@),
            in_toml::in_order(bytes, all),
            pairs_of(pairs@) == own_texts(bytes, own_scanned(all.take(at as int), own@)),
            all_ends(spans@) == spans_of(own_scanned(all.take(at as int), own@)),
        decreases packages@.len() - at,
    {
        let package = &packages[at];
        let ghost prior = own_scanned(all.take(at as int), own@);
        let ghost more = own_scanned(all.take(at + 1), own@);
        proof {
            assert(all.take(at + 1).drop_last() =~= all.take(at as int));
            assert(all.take(at + 1).last() == package@);
            assert(all[at as int] == package@);
        }
        if let Some(span) = &package.version {
            let origin: Option<&str> = match &package.source {
                Some(text) => Some(text.as_str()),
                None => None,
            };
            if own.matches(package.name.as_str(), origin) {
                let text = cut(source, span.start, span.end).to_owned();
                let ghost before = pairs_of(pairs@);
                let ghost earlier = all_ends(spans@);
                pairs.push((package.name.clone(), text));
                spans.push(Range { start: span.start, end: span.end });
                proof {
                    assert(more =~= prior.push((package.name@, ends(*span))));
                    assert(pairs_of(pairs@) =~= before.push((package.name@, text@)));
                    assert(pairs_of(pairs@) =~= own_texts(bytes, more));
                    assert(all_ends(spans@) =~= earlier.push(ends(*span)));
                    assert(all_ends(spans@) =~= spans_of(more));
                }
            }
        }
        at = at + 1;
    }
    proof {
        assert(all.take(at as int) =~= all);
        lemma_own_scanned(bytes, all, own@);
    }
    (pairs, spans)
}

/// Rewrites the `version` of every own `[[package]]`, cross-checked against a
/// real parse before and after.
pub fn locked_packages(path: &[String], label: &str, source: &str, next: &str, own: &Own) -> (edit:
    Result<Option<Edit>, VersionerError>)
    ensures
        maybe_edit(edit) == locked(texts(path@), label@, source@, next@, own@),
{
    let ghost bytes = source.spec_bytes();
    let ghost scanned = own_scanned(in_toml::packages_of(bytes), own@);
    let (expected, spans) = scan_own(source, own);
    assert(all_ends(spans@).len() == scanned.len());
    if spans.len() == 0 {
        return Ok(None);
    }
    match parse_own(source, own) {
        Some(found) => {
            if !have_same_pairs(found.as_slice(), expected.as_slice()) {
                return Err(VersionerError::Unlocatable(label.to_owned()));
            }
        },
        None => {
            return Err(VersionerError::Unlocatable(label.to_owned()));
        },
    }
    proof {
        let order = all_ends(spans@);
        assert forall|i: int, j: int| 0 <= i < j < order.len() implies (#[trigger] order[i]).0 <= (
        #[trigger] order[j]).0 by {
            assert(is_cut(bytes, order[i].0, order[i].1));
        }
        lemma_in_order(order);
    }
    let updated = replace(source, spans.as_slice(), next);
    let found = match parse_own(updated.as_str(), own) {
        Some(found) => found,
        None => {
            return Err(VersionerError::Unlocatable(label.to_owned()));
        },
    };
    if found.len() != spans.len() {
        return Err(VersionerError::Unlocatable(label.to_owned()));
    }
    let ghost read = pairs_of(found@);
    let mut at: usize = 0;
    while at < found.len()
        invariant
            at <= found@.len(),
            read == pairs_of(found@),
            own_parsed(updated@, own@) == Some(read),
            bytes == encode_utf8(source@),
            scanned == own_scanned(in_toml::packages_of(bytes), own@),
            scanned.len() > 0,
            updated@ == replaced(bytes, spans_of(scanned), next@),
            forall|i: int| 0 <= i < at ==> (#[trigger] read[i]).1 == next@,
        decreases found@.len() - at,
    {
        assert(read[at as int].1 == found@[at as int].1@);
        if !same_text(found[at].1.as_str(), next) {
            assert(!lands(updated@, own@, scanned.len(), next@));
            return Err(VersionerError::Unlocatable(label.to_owned()));
        }
        at = at + 1;
    }
    assert(all_ends(spans@)[0] == ends(spans@[0]));
    Ok(
        Some(
            Edit {
                path: copied_texts(path),
                label: label.to_owned(),
                from: cut(source, spans[0].start, spans[0].end).to_owned(),
                original: source.to_owned(),
                updated,
            },
        ),
    )
}

// ---------------------------------------------------------------------------
// Edits

/// The edit of the `package-lock.json` that is nearest to a manifest.
pub open spec fn npm_lock_edit(
    manifest: ManifestModel,
    root: Seq<Seq<char>>,
    next: Seq<char>,
    disk: DiskModel,
) -> Progress<Result<Option<EditModel>, Failure>> {
    let directory = parent_of(manifest.path);
    match nearest_file(
        directory,
        root,
        seq!["npm-shrinkwrap.json"@, "package-lock.json"@],
        disk,
    ) {
        Progress::Done(None) => Progress::Done(Ok(None)),
        Progress::Done(Some(lock)) => match disk.file(lock) {
            Some(file) => Progress::Done(
                match file.contents {
                    Ok(source) => npm_locked(
                        lock,
                        label_of(root, lock),
                        source,
                        label_of(parent_of(lock), directory),
                        next,
                    ),
                    Err(reason) => Err(Failure::InvalidManifest(label_of(root, lock), reason)),
                },
            ),
            None => Progress::Look(lock),
        },
        Progress::Look(path) => Progress::Look(path),
        Progress::List(path) => Progress::List(path),
    }
}

/// The crates that the version of a `Cargo.toml` is the version of.
pub open spec fn own_crates(manifest: ManifestModel, disk: DiskModel) -> Progress<Seq<Seq<char>>> {
    if manifest.key == Key::Workspace {
        members_of(manifest.source, parent_of(manifest.path), disk)
    } else {
        Progress::Done(
            match manifest.name {
                Some(name) => seq![name],
                None => Seq::empty(),
            },
        )
    }
}

/// The edit of a lockfile that was looked for, where the own packages are
/// known.
pub open spec fn lock_edit(
    lock: Seq<Seq<char>>,
    root: Seq<Seq<char>>,
    next: Seq<char>,
    own: OwnModel,
    disk: DiskModel,
) -> Progress<Result<Option<EditModel>, Failure>> {
    match disk.file(lock) {
        Some(file) => Progress::Done(
            match file.contents {
                Ok(source) => locked(lock, label_of(root, lock), source, next, own),
                Err(reason) => Err(Failure::InvalidManifest(label_of(root, lock), reason)),
            },
        ),
        None => Progress::Look(lock),
    }
}

/// The edit of the `Cargo.lock` that is nearest to a manifest.
pub open spec fn cargo_lock_edit(
    manifest: ManifestModel,
    root: Seq<Seq<char>>,
    next: Seq<char>,
    disk: DiskModel,
) -> Progress<Result<Option<EditModel>, Failure>> {
    match nearest_file(parent_of(manifest.path), root, seq!["Cargo.lock"@], disk) {
        Progress::Done(None) => Progress::Done(Ok(None)),
        Progress::Done(Some(lock)) => match own_crates(manifest, disk) {
            Progress::Done(names) => lock_edit(lock, root, next, OwnModel::Crates(names), disk),
            Progress::Look(path) => Progress::Look(path),
            Progress::List(path) => Progress::List(path),
        },
        Progress::Look(path) => Progress::Look(path),
        Progress::List(path) => Progress::List(path),
    }
}

/// The edit of the `uv.lock` that is nearest to a manifest with a name.
pub open spec fn uv_lock_edit(
    manifest: ManifestModel,
    root: Seq<Seq<char>>,
    next: Seq<char>,
    disk: DiskModel,
) -> Progress<Result<Option<EditModel>, Failure>> {
    match manifest.name {
        None => Progress::Done(Ok(None)),
        Some(name) => match nearest_file(
            parent_of(manifest.path),
            root,
            seq!["uv.lock"@],
            disk,
        ) {
            Progress::Done(None) => Progress::Done(Ok(None)),
            Progress::Done(Some(lock)) => lock_edit(
                lock,
                root,
                next,
                OwnModel::Project(normalized_python(name)),
                disk,
            ),
            Progress::Look(path) => Progress::Look(path),
            Progress::List(path) => Progress::List(path),
        },
    }
}

/// The edits of lockfiles that go with a manifest's new version.
pub open spec fn lockfile_edits(
    manifest: ManifestModel,
    root: Seq<Seq<char>>,
    next: Seq<char>,
    disk: DiskModel,
) -> Progress<Result<Seq<EditModel>, Failure>> {
    let edit = match manifest.format {
        Format::Npm => npm_lock_edit(manifest, root, next, disk),
        Format::Cargo => cargo_lock_edit(manifest, root, next, disk),
        Format::Python => uv_lock_edit(manifest, root, next, disk),
    };
    match edit {
        Progress::Done(Ok(Some(edit))) => Progress::Done(Ok(seq![edit])),
        Progress::Done(Ok(None)) => Progress::Done(Ok(Seq::empty())),
        Progress::Done(Err(failure)) => Progress::Done(Err(failure)),
        Progress::Look(path) => Progress::Look(path),
        Progress::List(path) => Progress::List(path),
    }
}

/// Edits, or the error instead, as models.
pub open spec fn edits_model(edits: Result<Vec<Edit>, VersionerError>) -> Result<
    Seq<EditModel>,
    Failure,
> {
    match edits {
        Ok(list) => Ok(edit_models(list@)),
        Err(error) => Err(error@),
    }
}

/// The edit of the `package-lock.json` that is nearest to a manifest.
pub fn npm(manifest: &Manifest, root: &[String], next: &str, disk: &Disk) -> (edit: Lookup<
    Result<Option<Edit>, VersionerError>,
>)
    ensures
        progress(edit, |edit: Result<Option<Edit>, VersionerError>| maybe_edit(edit))
            == npm_lock_edit(manifest@, texts(root@), next@, disk@),
{
    let directory = parent(manifest.path.as_slice());
    let names = vec!["npm-shrinkwrap.json", "package-lock.json"];
    assert(slices(names@) =~= seq!["npm-shrinkwrap.json"@, "package-lock.json"@]);
    let lock = match nearest(directory, root, names.as_slice(), disk) {
        Lookup::Done(Some(lock)) => lock,
        Lookup::Done(None) => {
            return Lookup::Done(Ok(None));
        },
        Lookup::Look(path) => {
            return Lookup::Look(path);
        },
        Lookup::List(path) => {
            return Lookup::List(path);
        },
    };
    let key = label(parent(lock.as_slice()), directory);
    let lock_label = label(root, lock.as_slice());
    match disk.file(lock.as_slice()) {
        Some(file) => match &file.contents {
            Ok(source) => Lookup::Done(
                npm_edit(
                    lock.as_slice(),
                    lock_label.as_str(),
                    source.as_str(),
                    key.as_str(),
                    next,
                ),
            ),
            Err(reason) => Lookup::Done(
                Err(VersionerError::InvalidManifest(lock_label, reason.clone())),
            ),
        },
        None => Lookup::Look(lock),
    }
}

/// The edit of a lockfile that was looked for.
fn edit_lock(lock: Vec<String>, root: &[String], next: &str, own: &Own, disk: &Disk) -> (edit:
    Lookup<Result<Option<Edit>, VersionerError>>)
    ensures
        progress(edit, |edit: Result<Option<Edit>, VersionerError>| maybe_edit(edit)) == lock_edit(
            texts(lock@),
            texts(root@),
            next@,
            own@,
            disk@,
        ),
{
    let lock_label = label(root, lock.as_slice());
    match disk.file(lock.as_slice()) {
        Some(file) => match &file.contents {
            Ok(source) => Lookup::Done(
                locked_packages(lock.as_slice(), lock_label.as_str(), source.as_str(), next, own),
            ),
            Err(reason) => Lookup::Done(
                Err(VersionerError::InvalidManifest(lock_label, reason.clone())),
            ),
        },
        None => Lookup::Look(lock),
    }
}

/// Cargo.lock lists local crates as `[[package]]` blocks without a `source`.
/// A workspace version moves every member that inherits it.
pub fn cargo(manifest: &Manifest, root: &[String], next: &str, disk: &Disk) -> (edit: Lookup<
    Result<Option<Edit>, VersionerError>,
>)
    ensures
        progress(edit, |edit: Result<Option<Edit>, VersionerError>| maybe_edit(edit))
            == cargo_lock_edit(manifest@, texts(root@), next@, disk@),
{
    let files = vec!["Cargo.lock"];
    assert(slices(files@) =~= seq!["Cargo.lock"@]);
    let lock = match nearest(parent(manifest.path.as_slice()), root, files.as_slice(), disk) {
        Lookup::Done(Some(lock)) => lock,
        Lookup::Done(None) => {
            return Lookup::Done(Ok(None));
        },
        Lookup::Look(path) => {
            return Lookup::Look(path);
        },
        Lookup::List(path) => {
            return Lookup::List(path);
        },
    };
    let names = if manifest.is_workspace() {
        match inheriting_members(manifest, disk) {
            Lookup::Done(names) => names,
            Lookup::Look(path) => {
                return Lookup::Look(path);
            },
            Lookup::List(path) => {
                return Lookup::List(path);
            },
        }
    } else {
        let mut names: Vec<String> = Vec::new();
        if let Some(name) = &manifest.name {
            names.push(name.clone());
        }
        assert(texts(names@) =~= own_crates(manifest@, disk@)->Done_0);
        names
    };
    let own = Own::Crates(names);
    edit_lock(lock, root, next, &own, disk)
}

/// uv.lock marks the project itself with an `editable` or `virtual` source.
pub fn uv(manifest: &Manifest, root: &[String], next: &str, disk: &Disk) -> (edit: Lookup<
    Result<Option<Edit>, VersionerError>,
>)
    ensures
        progress(edit, |edit: Result<Option<Edit>, VersionerError>| maybe_edit(edit))
            == uv_lock_edit(manifest@, texts(root@), next@, disk@),
{
    let name = match &manifest.name {
        Some(name) => normalize_python(name.as_str()),
        None => {
            return Lookup::Done(Ok(None));
        },
    };
    let files = vec!["uv.lock"];
    assert(slices(files@) =~= seq!["uv.lock"@]);
    let lock = match nearest(parent(manifest.path.as_slice()), root, files.as_slice(), disk) {
        Lookup::Done(Some(lock)) => lock,
        Lookup::Done(None) => {
            return Lookup::Done(Ok(None));
        },
        Lookup::Look(path) => {
            return Lookup::Look(path);
        },
        Lookup::List(path) => {
            return Lookup::List(path);
        },
    };
    let own = Own::Project(name);
    edit_lock(lock, root, next, &own, disk)
}

/// The edits of lockfiles that go with a manifest's new version.
pub fn edits(manifest: &Manifest, root: &[String], next: &str, disk: &Disk) -> (edits: Lookup<
    Result<Vec<Edit>, VersionerError>,
>)
    ensures
        progress(edits, |edits: Result<Vec<Edit>, VersionerError>| edits_model(edits))
            == lockfile_edits(manifest@, texts(root@), next@, disk@),
{
    let edit = match manifest.format {
        Format::Npm => npm(manifest, root, next, disk),
        Format::Cargo => cargo(manifest, root, next, disk),
        Format::Python => uv(manifest, root, next, disk),
    };
    match edit {
        Lookup::Done(Ok(Some(edit))) => {
            let ghost only = edit@;
            let edits = vec![edit];
            assert(edit_models(edits@) =~= seq![only]);
            Lookup::Done(Ok(edits))
        },
        Lookup::Done(Ok(None)) => {
            let edits: Vec<Edit> = Vec::new();
            assert(edit_models(edits@) =~= Seq::empty());
            Lookup::Done(Ok(edits))
        },
        Lookup::Done(Err(error)) => Lookup::Done(Err(error)),
        Lookup::Look(path) => Lookup::Look(path),
        Lookup::List(path) => Lookup::List(path),
    }
}

// ---------------------------------------------------------------------------
// Laws

/// Every path under which the document has a string is located.
proof fn lemma_located(document: Node, bytes: Seq<u8>, wanted: Seq<Seq<Seq<char>>>)
    requires
        located(document, bytes, wanted) is Some,
    ensures
        forall|k: int|
            0 <= k < wanted.len() && text_at(document, #[trigger] wanted[k]) is Some ==> exists|
                i: int,
            |
                0 <= i < located(document, bytes, wanted)->0.len() && (#[trigger] located(
                    document,
                    bytes,
                    wanted,
                )->0[i]).0 == wanted[k],
    decreases wanted.len(),
{
    if wanted.len() > 0 {
        let fewer = wanted.drop_last();
        lemma_located(document, bytes, fewer);
        let prior = located(document, bytes, fewer)->0;
        let found = located(document, bytes, wanted)->0;
        assert forall|k: int|
            0 <= k < wanted.len() && text_at(document, #[trigger] wanted[k]) is Some implies exists|
            i: int,
        |
            0 <= i < found.len() && (#[trigger] found[i]).0 == wanted[k] by {
            if k < fewer.len() {
                assert(fewer[k] == wanted[k]);
                let i = choose|i: int|
                    0 <= i < prior.len() && (#[trigger] prior[i]).0 == fewer[k];
                assert(found[i] == prior[i]);
            } else {
                assert(found[found.len() - 1].0 == wanted[k]);
            }
        }
    }
}

/// After the edit of a `package-lock.json`, a parser reads the new version
/// wherever it read a version of the package before.
pub proof fn law_npm_lock_is_in_step(
    path: Seq<Seq<char>>,
    label: Seq<char>,
    source: Seq<char>,
    key: Seq<char>,
    next: Seq<char>,
    k: int,
)
    requires
        0 <= k < npm_paths(key).len(),
        json_document(source) is Ok,
        text_at(json_document(source)->Ok_0, npm_paths(key)[k]) is Some,
    ensures
        npm_locked(path, label, source, key, next) matches Ok(edit) ==> {
            &&& edit is Some
            &&& edit->0.original == source
            &&& json_document(edit->0.updated) matches Ok(after) && text_at(
                after,
                npm_paths(key)[k],
            ) == Some(next)
        },
{
    let document = json_document(source)->Ok_0;
    let bytes = encode_utf8(source);
    if let Some(found) = located(document, bytes, npm_paths(key)) {
        lemma_located(document, bytes, npm_paths(key));
        let i = choose|i: int|
            0 <= i < found.len() && (#[trigger] found[i]).0 == npm_paths(key)[k];
        assert(found[i].0 == npm_paths(key)[k]);
    }
}

/// Before the edit of a `Cargo.lock` or `uv.lock`, a parser reads what the
/// scanner sees of the own packages; after it, the new version in as many.
pub proof fn law_lock_is_in_step(
    path: Seq<Seq<char>>,
    label: Seq<char>,
    source: Seq<char>,
    next: Seq<char>,
    own: OwnModel,
)
    ensures
        locked(path, label, source, next, own) matches Ok(Some(edit)) ==> {
            &&& edit.original == source
            &&& own_parsed(source, own) matches Some(before) && own_parsed(
                edit.updated,
                own,
            ) matches Some(after) && after.len() == before.len() && forall|i: int|
                0 <= i < after.len() ==> (#[trigger] after[i]).1 == next
        },
{
    if let Ok(Some(edit)) = locked(path, label, source, next, own) {
        let bytes = encode_utf8(source);
        let scanned = own_scanned(in_toml::packages_of(bytes), own);
        let before = own_parsed(source, own)->0;
        before.to_multiset_ensures();
        own_texts(bytes, scanned).to_multiset_ensures();
        assert(before.to_multiset().len() == own_texts(bytes, scanned).to_multiset().len());
    }
}

/// The edit of a `package-lock.json` leaves every byte outside the located
/// versions as it was.
pub proof fn law_npm_edit_keeps_the_rest(
    path: Seq<Seq<char>>,
    label: Seq<char>,
    source: Seq<char>,
    key: Seq<char>,
    next: Seq<char>,
)
    ensures
        npm_locked(path, label, source, key, next) matches Ok(Some(edit)) ==> {
            let bytes = encode_utf8(source);
            let found = located(json_document(source)->Ok_0, bytes, npm_paths(key))->0;
            encode_utf8(edit.updated) == woven(
                kept_bytes(bytes, by_start(spans_of(found))),
                encode_utf8(next),
            )
        },
{
    if let Ok(Some(edit)) = npm_locked(path, label, source, key, next) {
        let found = located(
            json_document(source)->Ok_0,
            encode_utf8(source),
            npm_paths(key),
        )->0;
        law_replace_keeps_the_rest(source, spans_of(found), next);
    }
}

/// The edit of a `Cargo.lock` or `uv.lock` leaves every byte outside the
/// versions of the own packages as it was.
pub proof fn law_lock_edit_keeps_the_rest(
    path: Seq<Seq<char>>,
    label: Seq<char>,
    source: Seq<char>,
    next: Seq<char>,
    own: OwnModel,
)
    ensures
        locked(path, label, source, next, own) matches Ok(Some(edit)) ==> {
            let bytes = encode_utf8(source);
            let scanned = own_scanned(in_toml::packages_of(bytes), own);
            encode_utf8(edit.updated) == woven(
                kept_bytes(bytes, spans_of(scanned)),
                encode_utf8(next),
            )
        },
{
    let bytes = encode_utf8(source);
    let order = spans_of(own_scanned(in_toml::packages_of(bytes), own));
    encode_utf8_valid_utf8(source);
    in_toml::lemma_packages_in_order(bytes);
    lemma_own_scanned(bytes, in_toml::packages_of(bytes), own);
    assert forall|i: int, j: int| 0 <= i < j < order.len() implies (#[trigger] order[i]).0 <= (
    #[trigger] order[j]).0 by {
        assert(is_cut(bytes, order[i].0, order[i].1));
    }
    lemma_in_order(order);
    law_replace_keeps_the_rest(source, order, next);
}

} // verus!
