//! Which crates a workspace pattern leads to.

use vstd::prelude::*;
use vstd::string::*;
use vstd::utf8::*;

use crate::disk::{DiskModel, Progress};
use crate::document::{toml_document, Node, Shape};
use crate::lockfile::{
    all_expanded, children, expanded, inheriting_name, inheriting_names, is_wild, matches_wildcard,
    matching, members_of, patterns_of, remaining, segments_of, stepped, telling, texts_among,
};
use crate::order::{deduplicated, lemma_deduplicated, lemma_sorted, sorted};
use crate::reading::{at_key, text_in, under};
use crate::text::split_at_each;

verus! {

// ---------------------------------------------------------------------------
// Wildcards

/// Nothing matches only nothing. A `*` alone matches anything, a `?` any one
/// byte, and any other byte only itself.
pub proof fn law_wildcard_bytes(byte: u8, name: Seq<u8>)
    ensures
        matches_wildcard(Seq::empty(), name) <==> name.len() == 0,
        byte == 42u8 ==> matches_wildcard(seq![byte], name),
        byte == 63u8 ==> (matches_wildcard(seq![byte], name) <==> name.len() == 1),
        byte != 42u8 && byte != 63u8 ==> (matches_wildcard(seq![byte], name) <==> name
            == seq![byte]),
{
    let pattern = seq![byte];
    assert(pattern.drop_first() =~= Seq::empty());
    assert(matches_wildcard(pattern.drop_first(), Seq::empty()));
    if byte == 42u8 {
        assert(name.skip(name.len() as int) =~= Seq::empty());
        assert(matches_wildcard(pattern.drop_first(), name.skip(name.len() as int)));
    } else if name.len() > 0 {
        assert(name.drop_first().len() == name.len() - 1);
        assert(matches_wildcard(pattern.drop_first(), name.drop_first()) <==> name.len() == 1);
        if name.len() == 1 && name[0] == byte {
            assert(name =~= seq![byte]);
        }
    }
}

/// Two patterns in a row match what can be cut in two that they match.
pub proof fn law_wildcards_in_a_row(first: Seq<u8>, second: Seq<u8>, name: Seq<u8>)
    ensures
        matches_wildcard(first + second, name) <==> exists|at: int|
            0 <= at <= name.len() && matches_wildcard(first, #[trigger] name.take(at))
                && matches_wildcard(second, name.skip(at)),
    decreases first.len(),
{
    let whole = first + second;
    if first.len() == 0 {
        assert(whole =~= second);
        assert(first =~= Seq::empty());
        assert(name.take(0) =~= Seq::empty());
        assert(name.skip(0) =~= name);
        assert(matches_wildcard(first, name.take(0)));
        if exists|at: int|
            0 <= at <= name.len() && matches_wildcard(first, #[trigger] name.take(at))
                && matches_wildcard(second, name.skip(at)) {
            let at = choose|at: int|
                0 <= at <= name.len() && matches_wildcard(first, #[trigger] name.take(at))
                    && matches_wildcard(second, name.skip(at));
            assert(name.take(at).len() == 0);
        }
    } else {
        let rest = first.drop_first();
        assert(whole.drop_first() =~= rest + second);
        assert(whole[0] == first[0]);
        if first[0] == crate::ascii::STAR {
            if matches_wildcard(whole, name) {
                let taken = choose|taken: int|
                    0 <= taken <= name.len() && matches_wildcard(
                        whole.drop_first(),
                        #[trigger] name.skip(taken),
                    );
                let behind = name.skip(taken);
                law_wildcards_in_a_row(rest, second, behind);
                let at = choose|at: int|
                    0 <= at <= behind.len() && matches_wildcard(rest, #[trigger] behind.take(at))
                        && matches_wildcard(second, behind.skip(at));
                let cut = taken + at;
                assert(name.take(cut).skip(taken) =~= behind.take(at));
                assert(name.skip(cut) =~= behind.skip(at));
                assert(matches_wildcard(rest, name.take(cut).skip(taken)));
                assert(matches_wildcard(first, name.take(cut)));
            }
            if exists|at: int|
                0 <= at <= name.len() && matches_wildcard(first, #[trigger] name.take(at))
                    && matches_wildcard(second, name.skip(at)) {
                let cut = choose|at: int|
                    0 <= at <= name.len() && matches_wildcard(first, #[trigger] name.take(at))
                        && matches_wildcard(second, name.skip(at));
                let taken = choose|taken: int|
                    0 <= taken <= name.take(cut).len() && matches_wildcard(
                        rest,
                        #[trigger] name.take(cut).skip(taken),
                    );
                let behind = name.skip(taken);
                law_wildcards_in_a_row(rest, second, behind);
                assert(behind.take(cut - taken) =~= name.take(cut).skip(taken));
                assert(behind.skip(cut - taken) =~= name.skip(cut));
                assert(matches_wildcard(whole.drop_first(), name.skip(taken)));
            }
        } else if name.len() > 0 {
            let behind = name.drop_first();
            law_wildcards_in_a_row(rest, second, behind);
            if matches_wildcard(whole, name) {
                let at = choose|at: int|
                    0 <= at <= behind.len() && matches_wildcard(rest, #[trigger] behind.take(at))
                        && matches_wildcard(second, behind.skip(at));
                assert(name.take(at + 1).drop_first() =~= behind.take(at));
                assert(name.skip(at + 1) =~= behind.skip(at));
                assert(matches_wildcard(first, name.take(at + 1)));
            }
            if exists|at: int|
                0 <= at <= name.len() && matches_wildcard(first, #[trigger] name.take(at))
                    && matches_wildcard(second, name.skip(at)) {
                let at = choose|at: int|
                    0 <= at <= name.len() && matches_wildcard(first, #[trigger] name.take(at))
                        && matches_wildcard(second, name.skip(at));
                assert(at > 0);
                assert(name.take(at).drop_first() =~= behind.take(at - 1));
                assert(name.skip(at) =~= behind.skip(at - 1));
            }
        } else {
            if exists|at: int|
                0 <= at <= name.len() && matches_wildcard(first, #[trigger] name.take(at))
                    && matches_wildcard(second, name.skip(at)) {
                let at = choose|at: int|
                    0 <= at <= name.len() && matches_wildcard(first, #[trigger] name.take(at))
                        && matches_wildcard(second, name.skip(at));
                assert(name.take(at).len() == 0);
            }
        }
    }
}

// ---------------------------------------------------------------------------
// Patterns

/// The segments of a pattern are its parts between `/`, without those that are
/// empty or a single dot.
pub proof fn law_segments(parts: Seq<Seq<char>>, more: Seq<char>, pattern: Seq<char>)
    ensures
        segments_of(pattern) == telling(split_at_each(pattern, '/')),
        telling(Seq::empty()).len() == 0,
        telling(parts.push(more)) == if more.len() == 0 || more == seq!['.'] {
            telling(parts)
        } else {
            telling(parts).push(more)
        },
{
    reveal_strlit(".");
    assert("."@ =~= seq!['.']);
    assert(parts.push(more).drop_last() =~= parts);
}

/// A segment is literal exactly where it has neither `*` nor `?`.
pub proof fn law_wild_segments(segment: Seq<char>)
    ensures
        is_wild(segment) <==> exists|i: int|
            0 <= i < segment.len() && ((#[trigger] segment[i]) == '*' || segment[i] == '?'),
{
    if is_wild(segment) {
        if segment.contains('*') {
            let i = choose|i: int| 0 <= i < segment.len() && segment[i] == '*';
            assert(segment[i] == '*');
        } else {
            let i = choose|i: int| 0 <= i < segment.len() && segment[i] == '?';
            assert(segment[i] == '?');
        }
    }
}

/// The names that match a segment, in the order that they are given.
pub proof fn law_matching(names: Seq<Seq<char>>, more: Seq<char>, segment: Seq<char>)
    ensures
        matching(Seq::empty(), segment).len() == 0,
        matching(names.push(more), segment) == if matches_wildcard(
            encode_utf8(segment),
            encode_utf8(more),
        ) {
            matching(names, segment).push(more)
        } else {
            matching(names, segment)
        },
{
    assert(names.push(more).drop_last() =~= names);
}

/// A literal segment leads from a directory into the one of that name, whether
/// or not anything is there. A wild one leads into those that are listed and
/// match, sorted, and has to be told which are there.
pub proof fn law_steps(directory: Seq<Seq<char>>, segment: Seq<char>, disk: DiskModel)
    ensures
        !is_wild(segment) ==> stepped(seq![directory], segment, disk) == Progress::Done(
            seq![directory.push(segment)],
        ),
        is_wild(segment) ==> match disk.listing(directory) {
            None => stepped(seq![directory], segment, disk) == Progress::<
                Seq<Seq<Seq<char>>>,
            >::List(directory),
            Some(names) => stepped(seq![directory], segment, disk) matches Progress::Done(found)
                && {
                &&& found.len() == matching(names, segment).len()
                &&& forall|i: int|
                    0 <= i < found.len() ==> (#[trigger] found[i]) == directory.push(
                        sorted(matching(names, segment))[i],
                    )
            },
        },
{
    let one = seq![directory];
    assert(one.drop_last() =~= Seq::empty());
    assert(stepped(one.drop_last(), segment, disk) == Progress::Done(
        Seq::<Seq<Seq<char>>>::empty(),
    ));
    if !is_wild(segment) {
        assert(stepped(one, segment, disk)->Done_0 =~= seq![directory.push(segment)]);
    } else if let Some(names) = disk.listing(directory) {
        let kept = sorted(matching(names, segment));
        lemma_sorted(matching(names, segment));
        assert(Seq::<Seq<Seq<char>>>::empty() + children(directory, kept) =~= children(
            directory,
            kept,
        ));
    }
}

/// A step from several directories is the steps from each, in order.
pub proof fn law_steps_add_up(
    found: Seq<Seq<Seq<char>>>,
    more: Seq<Seq<char>>,
    segment: Seq<char>,
    disk: DiskModel,
    before: Seq<Seq<Seq<char>>>,
    behind: Seq<Seq<Seq<char>>>,
)
    requires
        stepped(found, segment, disk) == Progress::Done(before),
        stepped(seq![more], segment, disk) == Progress::Done(behind),
    ensures
        stepped(found.push(more), segment, disk) == Progress::Done(before + behind),
{
    let one = seq![more];
    assert(one.drop_last() =~= Seq::empty());
    assert(stepped(one.drop_last(), segment, disk) == Progress::Done(
        Seq::<Seq<Seq<char>>>::empty(),
    ));
    assert(found.push(more).drop_last() =~= found);
    let result = stepped(found.push(more), segment, disk);
    assert(result is Done);
    assert(result->Done_0 =~= before + behind);
}

/// A pattern leads where its segments lead, one after the other.
pub proof fn law_expansion(
    found: Seq<Seq<Seq<char>>>,
    segments: Seq<Seq<char>>,
    disk: DiskModel,
)
    ensures
        segments.len() == 0 ==> expanded(found, segments, disk) == Progress::Done(found),
        segments.len() > 0 ==> match stepped(found, segments[0], disk) {
            Progress::Done(next) => expanded(found, segments, disk) == expanded(
                next,
                segments.skip(1),
                disk,
            ),
            Progress::Look(path) => expanded(found, segments, disk) == Progress::<
                Seq<Seq<Seq<char>>>,
            >::Look(path),
            Progress::List(path) => expanded(found, segments, disk) == Progress::<
                Seq<Seq<Seq<char>>>,
            >::List(path),
        },
{
    if segments.len() > 0 {
        assert(segments.drop_first() =~= segments.skip(1));
    }
}

/// The patterns of a workspace are the texts listed under a key of it.
pub proof fn law_patterns(
    entries: Map<Seq<char>, Node>,
    key: Seq<char>,
    items: Seq<Node>,
    more: Node,
)
    ensures
        match under(at_key(entries, "workspace"@), key) {
            Some(list) => match list.shape {
                Shape::List(items) => patterns_of(entries, key) == texts_among(items),
                _ => patterns_of(entries, key).len() == 0,
            },
            None => patterns_of(entries, key).len() == 0,
        },
        texts_among(Seq::empty()).len() == 0,
        texts_among(items.push(more)) == match more.shape {
            Shape::Text(text) => texts_among(items).push(text),
            _ => texts_among(items),
        },
{
    assert(items.push(more).drop_last() =~= items);
}

/// Several patterns lead where each leads, in order.
pub proof fn law_patterns_add_up(
    base: Seq<Seq<char>>,
    patterns: Seq<Seq<char>>,
    more: Seq<char>,
    disk: DiskModel,
    before: Seq<Seq<Seq<char>>>,
    behind: Seq<Seq<Seq<char>>>,
)
    requires
        all_expanded(base, patterns, disk) == Progress::Done(before),
        expanded(seq![base], segments_of(more), disk) == Progress::Done(behind),
    ensures
        all_expanded(base, Seq::empty(), disk) == Progress::Done(Seq::<Seq<Seq<char>>>::empty()),
        all_expanded(base, patterns.push(more), disk) == Progress::Done(before + behind),
{
    assert(patterns.push(more).drop_last() =~= patterns);
}

// ---------------------------------------------------------------------------
// Members

/// A crate inherits its version exactly where its manifest parses, says
/// `package.version.workspace = true` and has a name.
pub proof fn law_inheriting_crates(contents: Result<Seq<char>, Seq<char>>)
    ensures
        inheriting_name(contents) matches Some(name) <==> (contents matches Ok(source)
            && toml_document(source) matches Ok(entries) && (under(
            under(at_key(entries, "package"@), "version"@),
            "workspace"@,
        ) matches Some(flag) && flag.shape == Shape::Flag(true)) && text_in(
            under(at_key(entries, "package"@), "name"@),
        ) is Some),
        inheriting_name(contents) matches Some(name) ==> text_in(
            under(at_key(toml_document(contents->Ok_0)->Ok_0, "package"@), "name"@),
        ) == Some(name),
{
}

proof fn lemma_remaining(
    list: Seq<Seq<Seq<char>>>,
    excluded: Seq<Seq<Seq<char>>>,
    path: Seq<Seq<char>>,
)
    ensures
        remaining(list, excluded).contains(path) <==> list.contains(path) && !excluded.contains(
            path,
        ),
    decreases list.len(),
{
    if list.len() > 0 {
        let fewer = list.drop_last();
        let prior = remaining(fewer, excluded);
        lemma_remaining(fewer, excluded, path);
        assert(list[list.len() - 1] == list.last());
        if fewer.contains(path) {
            let i = choose|i: int| 0 <= i < fewer.len() && fewer[i] == path;
            assert(list[i] == path);
        }
        if list.contains(path) && list.last() != path {
            let i = choose|i: int| 0 <= i < list.len() && list[i] == path;
            assert(fewer[i] == path);
        }
        if !excluded.contains(list.last()) {
            let grown = prior.push(list.last());
            assert(grown[prior.len() as int] == list.last());
            if prior.contains(path) {
                let i = choose|i: int| 0 <= i < prior.len() && prior[i] == path;
                assert(grown[i] == path);
            }
            if grown.contains(path) && path != list.last() {
                let i = choose|i: int| 0 <= i < grown.len() && grown[i] == path;
                assert(prior[i] == path);
            }
        }
    }
}

proof fn lemma_inheriting_names(
    members: Seq<Seq<Seq<char>>>,
    disk: DiskModel,
    names: Seq<Seq<char>>,
    name: Seq<char>,
)
    requires
        inheriting_names(members, disk) == Progress::Done(names),
    ensures
        names.contains(name) <==> exists|i: int|
            0 <= i < members.len() && (disk.file(
                (#[trigger] members[i]).push("Cargo.toml"@),
            ) matches Some(file) && inheriting_name(file.contents) == Some(name)),
    decreases members.len(),
{
    if members.len() > 0 {
        let fewer = members.drop_last();
        let prior = inheriting_names(fewer, disk)->Done_0;
        lemma_inheriting_names(fewer, disk, prior, name);
        let last = members[members.len() - 1];
        assert(last == members.last());
        let inherits = disk.file(last.push("Cargo.toml"@)) matches Some(file) && inheriting_name(
            file.contents,
        ) == Some(name);
        if exists|i: int|
            0 <= i < fewer.len() && (disk.file(
                (#[trigger] fewer[i]).push("Cargo.toml"@),
            ) matches Some(file) && inheriting_name(file.contents) == Some(name)) {
            let i = choose|i: int|
                0 <= i < fewer.len() && (disk.file(
                    (#[trigger] fewer[i]).push("Cargo.toml"@),
                ) matches Some(file) && inheriting_name(file.contents) == Some(name));
            assert(members[i] == fewer[i]);
            let k = choose|k: int| 0 <= k < prior.len() && prior[k] == name;
            assert(names[k] == name);
        }
        if inherits {
            assert(names[names.len() - 1] == name);
        }
        if names.contains(name) && !inherits {
            let k = choose|k: int| 0 <= k < names.len() && names[k] == name;
            assert(k < prior.len());
            assert(prior[k] == name);
        }
        if exists|i: int|
            0 <= i < members.len() && (disk.file(
                (#[trigger] members[i]).push("Cargo.toml"@),
            ) matches Some(file) && inheriting_name(file.contents) == Some(name)) {
            let i = choose|i: int|
                0 <= i < members.len() && (disk.file(
                    (#[trigger] members[i]).push("Cargo.toml"@),
                ) matches Some(file) && inheriting_name(file.contents) == Some(name));
            if i < fewer.len() {
                assert(fewer[i] == members[i]);
            }
        }
    } else {
        assert(names.len() == 0);
    }
}

/// The crates that follow the version of a workspace are those that inherit it,
/// of the root package and the members that are not excluded, and no others.
pub proof fn law_members_follow(
    source: Seq<char>,
    directory: Seq<Seq<char>>,
    disk: DiskModel,
    entries: Map<Seq<char>, Node>,
    listed: Seq<Seq<Seq<char>>>,
    excluded: Seq<Seq<Seq<char>>>,
    names: Seq<Seq<char>>,
    name: Seq<char>,
)
    requires
        toml_document(source) == Ok::<_, Seq<char>>(entries),
        all_expanded(directory, patterns_of(entries, "members"@), disk) == Progress::Done(listed),
        all_expanded(directory, patterns_of(entries, "exclude"@), disk) == Progress::Done(
            excluded,
        ),
        members_of(source, directory, disk) == Progress::Done(names),
    ensures
        names.contains(name) <==> exists|member: Seq<Seq<char>>|
            (member == directory || (listed.contains(member) && !excluded.contains(member))) && (
            disk.file(#[trigger] member.push("Cargo.toml"@)) matches Some(file)
                && inheriting_name(file.contents) == Some(name)),
{
    let kept = remaining(listed, excluded);
    let members = seq![directory] + kept;
    let found = inheriting_names(members, disk)->Done_0;
    lemma_inheriting_names(members, disk, found, name);
    lemma_sorted(found);
    lemma_deduplicated(sorted(found));
    found.to_multiset_ensures();
    sorted(found).to_multiset_ensures();
    assert(sorted(found).contains(name) <==> sorted(found).to_multiset().count(name) > 0);
    assert(found.contains(name) <==> found.to_multiset().count(name) > 0);
    assert(names == deduplicated(sorted(found)));
    if found.contains(name) {
        let i = choose|i: int|
            0 <= i < members.len() && (disk.file(
                (#[trigger] members[i]).push("Cargo.toml"@),
            ) matches Some(file) && inheriting_name(file.contents) == Some(name));
        let member = members[i];
        if i > 0 {
            assert(member == kept[i - 1]);
            assert(kept.contains(member));
            lemma_remaining(listed, excluded, member);
        }
        assert(disk.file(member.push("Cargo.toml"@)) is Some);
    }
    if exists|member: Seq<Seq<char>>|
        (member == directory || (listed.contains(member) && !excluded.contains(member))) && (
        disk.file(#[trigger] member.push("Cargo.toml"@)) matches Some(file) && inheriting_name(
            file.contents,
        ) == Some(name)) {
        let member = choose|member: Seq<Seq<char>>|
            (member == directory || (listed.contains(member) && !excluded.contains(member))) && (
            disk.file(#[trigger] member.push("Cargo.toml"@)) matches Some(file)
                && inheriting_name(file.contents) == Some(name));
        if member == directory {
            assert(members[0] == member);
        } else {
            lemma_remaining(listed, excluded, member);
            let i = choose|i: int| 0 <= i < kept.len() && kept[i] == member;
            assert(members[i + 1] == member);
        }
    }
}

} // verus!
