//! Which of two texts comes first, and lists in that order.

use vstd::prelude::*;
use vstd::string::*;

use crate::text::{chars_of, same_text, texts};

verus! {

/// How one thing stands to another in an order.
#[derive(Debug, Clone, Copy, PartialEq, Eq, Structural)]
pub enum Precedence {
    Before,
    Same,
    After,
}

/// The same relation seen from the other side.
pub open spec fn flipped(precedence: Precedence) -> Precedence {
    match precedence {
        Precedence::Before => Precedence::After,
        Precedence::Same => Precedence::Same,
        Precedence::After => Precedence::Before,
    }
}

/// How two numbers stand to each other.
pub open spec fn number_precedence(left: int, right: int) -> Precedence {
    if left < right {
        Precedence::Before
    } else if left == right {
        Precedence::Same
    } else {
        Precedence::After
    }
}

/// How two texts stand to each other: by the first character in which they
/// differ, and a text before its own continuations.
pub open spec fn text_precedence(left: Seq<char>, right: Seq<char>) -> Precedence
    decreases left.len(),
{
    if left.len() == 0 || right.len() == 0 {
        number_precedence(left.len() as int, right.len() as int)
    } else if left[0] != right[0] {
        number_precedence(left[0] as int, right[0] as int)
    } else {
        text_precedence(left.drop_first(), right.drop_first())
    }
}

/// The order of texts is total: it decides every pair, one way round only, and
/// calls only equal texts the same.
pub proof fn lemma_text_precedence(left: Seq<char>, right: Seq<char>)
    ensures
        text_precedence(right, left) == flipped(text_precedence(left, right)),
        text_precedence(left, right) == Precedence::Same <==> left == right,
    decreases left.len(),
{
    if left.len() == 0 || right.len() == 0 {
        if left.len() == right.len() {
            assert(left =~= right);
        }
    } else if left[0] == right[0] {
        lemma_text_precedence(left.drop_first(), right.drop_first());
        assert(left =~= seq![left[0]] + left.drop_first());
        assert(right =~= seq![right[0]] + right.drop_first());
    }
}

/// The order of texts is transitive.
pub proof fn lemma_text_precedence_transitive(first: Seq<char>, second: Seq<char>, third: Seq<char>)
    requires
        text_precedence(first, second) == Precedence::Before,
        text_precedence(second, third) == Precedence::Before,
    ensures
        text_precedence(first, third) == Precedence::Before,
    decreases first.len(),
{
    if first.len() != 0 && second.len() != 0 && third.len() != 0 && first[0] == second[0]
        && second[0] == third[0] {
        lemma_text_precedence_transitive(
            first.drop_first(),
            second.drop_first(),
            third.drop_first(),
        );
    }
}

/// Compares two texts.
pub fn compare_texts(left: &str, right: &str) -> (precedence: Precedence)
    ensures
        precedence == text_precedence(left@, right@),
{
    let left_chars = chars_of(left);
    let right_chars = chars_of(right);
    let mut at: usize = 0;
    assert(left@.skip(0) =~= left@);
    assert(right@.skip(0) =~= right@);
    while at < left_chars.len() && at < right_chars.len()
        invariant
            at <= left_chars@.len(),
            at <= right_chars@.len(),
            left_chars@ == left@,
            right_chars@ == right@,
            text_precedence(left@, right@) == text_precedence(
                left@.skip(at as int),
                right@.skip(at as int),
            ),
        decreases left_chars@.len() - at,
    {
        let left_char = left_chars[at];
        let right_char = right_chars[at];
        if left_char < right_char {
            return Precedence::Before;
        }
        if left_char > right_char {
            return Precedence::After;
        }
        assert(left@.skip(at as int).drop_first() =~= left@.skip(at + 1));
        assert(right@.skip(at as int).drop_first() =~= right@.skip(at + 1));
        at = at + 1;
    }
    if at < right_chars.len() {
        Precedence::Before
    } else if at < left_chars.len() {
        Precedence::After
    } else {
        Precedence::Same
    }
}

// ---------------------------------------------------------------------------
// Sorting

/// Whether `left` comes before `right` or is the same.
pub open spec fn no_later(left: Seq<char>, right: Seq<char>) -> bool {
    text_precedence(left, right) != Precedence::After
}

/// Whether each text comes before the next or is the same.
pub open spec fn is_sorted(list: Seq<Seq<char>>) -> bool {
    forall|i: int, j: int|
        0 <= i < j < list.len() ==> no_later(#[trigger] list[i], #[trigger] list[j])
}

/// Whether each text comes before the next, so that none occurs twice.
pub open spec fn is_increasing(list: Seq<Seq<char>>) -> bool {
    forall|i: int, j: int|
        0 <= i < j < list.len() ==> text_precedence(#[trigger] list[i], #[trigger] list[j])
            == Precedence::Before
}

/// `sorted` with one more text, behind those that come no later.
pub open spec fn placed(sorted: Seq<Seq<char>>, text: Seq<char>) -> Seq<Seq<char>>
    decreases sorted.len(),
{
    if sorted.len() == 0 {
        seq![text]
    } else if no_later(sorted.last(), text) {
        sorted.push(text)
    } else {
        placed(sorted.drop_last(), text).push(sorted.last())
    }
}

/// The texts of `list` in order.
pub open spec fn sorted(list: Seq<Seq<char>>) -> Seq<Seq<char>>
    decreases list.len(),
{
    if list.len() == 0 {
        list
    } else {
        placed(sorted(list.drop_last()), list.last())
    }
}

/// `list` without the texts that are the same as the one before.
pub open spec fn deduplicated(list: Seq<Seq<char>>) -> Seq<Seq<char>>
    decreases list.len(),
{
    if list.len() == 0 {
        list
    } else {
        let prior = deduplicated(list.drop_last());
        if prior.len() > 0 && prior.last() == list.last() {
            prior
        } else {
            prior.push(list.last())
        }
    }
}

/// Coming no later is transitive.
pub proof fn lemma_no_later_transitive(first: Seq<char>, second: Seq<char>, third: Seq<char>)
    requires
        no_later(first, second),
        no_later(second, third),
    ensures
        no_later(first, third),
{
    lemma_text_precedence(first, second);
    lemma_text_precedence(second, third);
    if text_precedence(first, second) == Precedence::Before && text_precedence(second, third)
        == Precedence::Before {
        lemma_text_precedence_transitive(first, second, third);
    }
}

proof fn lemma_placed(list: Seq<Seq<char>>, text: Seq<char>)
    requires
        is_sorted(list),
    ensures
        is_sorted(placed(list, text)),
        placed(list, text).to_multiset() == list.to_multiset().insert(text),
        placed(list, text).len() == list.len() + 1,
        forall|i: int|
            0 <= i < placed(list, text).len() ==> (#[trigger] placed(list, text)[i]) == text
                || list.contains(placed(list, text)[i]),
    decreases list.len(),
{
    broadcast use vstd::seq_lib::group_to_multiset_ensures;

    let result = placed(list, text);
    if list.len() == 0 {
        assert(seq![text] =~= list.push(text));
    } else if no_later(list.last(), text) {
        assert forall|i: int, j: int| 0 <= i < j < result.len() implies no_later(
            #[trigger] result[i],
            #[trigger] result[j],
        ) by {
            if j < list.len() {
                assert(result[i] == list[i] && result[j] == list[j]);
            } else if i < list.len() - 1 {
                assert(no_later(list[i], list[list.len() - 1]));
                lemma_no_later_transitive(list[i], list.last(), text);
            }
        }
        assert forall|i: int| 0 <= i < result.len() implies (#[trigger] result[i]) == text
            || list.contains(result[i]) by {
            if i < list.len() {
                assert(result[i] == list[i]);
            }
        }
    } else {
        let fewer = list.drop_last();
        let inner = placed(fewer, text);
        assert forall|i: int, j: int| 0 <= i < j < fewer.len() implies no_later(
            #[trigger] fewer[i],
            #[trigger] fewer[j],
        ) by {
            assert(fewer[i] == list[i] && fewer[j] == list[j]);
        }
        lemma_placed(fewer, text);
        assert(list =~= fewer.push(list.last()));
        assert(fewer.to_multiset().insert(list.last()).insert(text)
            =~= fewer.to_multiset().insert(text).insert(list.last()));
        lemma_text_precedence(list.last(), text);
        assert forall|i: int| 0 <= i < inner.len() implies no_later(
            #[trigger] inner[i],
            list.last(),
        ) && (inner[i] == text || list.contains(inner[i])) by {
            if inner[i] != text {
                let at = choose|at: int| 0 <= at < fewer.len() && fewer[at] == inner[i];
                assert(list[at] == inner[i]);
                assert(no_later(list[at], list[list.len() - 1]));
            }
        }
        assert forall|i: int, j: int| 0 <= i < j < result.len() implies no_later(
            #[trigger] result[i],
            #[trigger] result[j],
        ) by {
            if j < inner.len() {
                assert(result[i] == inner[i] && result[j] == inner[j]);
            } else {
                assert(result[i] == inner[i] && result[j] == list.last());
            }
        }
        assert forall|i: int| 0 <= i < result.len() implies (#[trigger] result[i]) == text
            || list.contains(result[i]) by {
            if i < inner.len() {
                assert(result[i] == inner[i]);
            }
        }
    }
}

/// Sorting rearranges texts, and puts none before one that comes earlier.
pub proof fn lemma_sorted(list: Seq<Seq<char>>)
    ensures
        is_sorted(sorted(list)),
        sorted(list).to_multiset() == list.to_multiset(),
        sorted(list).len() == list.len(),
    decreases list.len(),
{
    broadcast use vstd::seq_lib::group_to_multiset_ensures;

    if list.len() > 0 {
        lemma_sorted(list.drop_last());
        lemma_placed(sorted(list.drop_last()), list.last());
        assert(list =~= list.drop_last().push(list.last()));
    }
}

/// Without repetitions a sorted list is increasing, and holds the same texts.
pub proof fn lemma_deduplicated(list: Seq<Seq<char>>)
    requires
        is_sorted(list),
    ensures
        is_increasing(deduplicated(list)),
        forall|text: Seq<char>| #[trigger] deduplicated(list).contains(text) <==> list.contains(
            text,
        ),
        list.len() > 0 ==> deduplicated(list).len() > 0 && deduplicated(list).last()
            == list.last(),
    decreases list.len(),
{
    if list.len() > 0 {
        let fewer = list.drop_last();
        let prior = deduplicated(fewer);
        let result = deduplicated(list);
        assert forall|i: int, j: int| 0 <= i < j < fewer.len() implies no_later(
            #[trigger] fewer[i],
            #[trigger] fewer[j],
        ) by {
            assert(fewer[i] == list[i] && fewer[j] == list[j]);
        }
        lemma_deduplicated(fewer);
        if fewer.len() > 0 {
            assert(fewer.last() == list[list.len() - 2]);
            assert(no_later(list[list.len() - 2], list[list.len() - 1]));
            lemma_text_precedence(fewer.last(), list.last());
        }
        if prior.len() > 0 {
            assert(fewer.len() > 0) by {
                assert(prior.contains(prior[0]));
            }
        }
        assert forall|i: int, j: int| 0 <= i < j < result.len() implies text_precedence(
            #[trigger] result[i],
            #[trigger] result[j],
        ) == Precedence::Before by {
            if j < prior.len() {
                assert(result[i] == prior[i] && result[j] == prior[j]);
            } else {
                assert(result[i] == prior[i] && result[j] == list.last());
                if i < prior.len() - 1 {
                    assert(text_precedence(prior[i], prior[prior.len() - 1])
                        == Precedence::Before);
                    lemma_text_precedence_transitive(prior[i], prior.last(), list.last());
                }
            }
        }
        assert forall|text: Seq<char>| #[trigger] result.contains(text) <==> list.contains(
            text,
        ) by {
            assert(list =~= fewer.push(list.last()));
            if list.contains(text) {
                let at = choose|at: int| 0 <= at < list.len() && list[at] == text;
                if at < fewer.len() {
                    assert(fewer[at] == text);
                    assert(prior.contains(text));
                    let place = choose|place: int| 0 <= place < prior.len() && prior[place] == text;
                    assert(result[place] == text);
                } else {
                    assert(result[result.len() - 1] == text);
                }
            }
            if result.contains(text) {
                let at = choose|at: int| 0 <= at < result.len() && result[at] == text;
                if at < prior.len() {
                    assert(prior[at] == text);
                    assert(prior.contains(text));
                    assert(fewer.contains(text));
                    let place = choose|place: int| 0 <= place < fewer.len() && fewer[place] == text;
                    assert(list[place] == text);
                } else {
                    assert(list[list.len() - 1] == text);
                }
            }
        }
    }
}

/// The same texts in order.
pub fn sort(list: &[String]) -> (result: Vec<String>)
    ensures
        texts(result@) == sorted(texts(list@)),
{
    let ghost all = texts(list@);
    let mut result: Vec<String> = Vec::new();
    let mut at: usize = 0;
    assert(texts(result@) =~= sorted(all.take(0)));
    while at < list.len()
        invariant
            at <= list@.len(),
            all == texts(list@),
            texts(result@) == sorted(all.take(at as int)),
        decreases list@.len() - at,
    {
        let ghost before = texts(result@);
        let ghost added = all[at as int];
        let mut place: usize = result.len();
        assert(before.take(place as int) =~= before);
        assert(placed(before, added) =~= placed(before, added) + before.skip(place as int));
        let text = list[at].clone();
        while place > 0 && compare_texts(result[place - 1].as_str(), text.as_str())
            == Precedence::After
            invariant
                place <= result@.len(),
                before == texts(result@),
                added == text@,
                placed(before, added) == placed(before.take(place as int), added) + before.skip(
                    place as int,
                ),
            decreases place,
        {
            let ghost head = before.take(place as int);
            assert(head.last() == result@[place - 1]@);
            assert(head.drop_last() =~= before.take(place - 1));
            assert(placed(head, added) + before.skip(place as int) =~= placed(
                before.take(place - 1),
                added,
            ) + before.skip(place - 1));
            place = place - 1;
        }
        proof {
            let head = before.take(place as int);
            if place > 0 {
                assert(head.last() == result@[place - 1]@);
            }
            assert(placed(head, added) =~= head.push(added));
            assert(all.take(at + 1).drop_last() =~= all.take(at as int));
            assert(all.take(at + 1).last() == added);
        }
        result.insert(place, text);
        assert(texts(result@) =~= before.take(place as int).push(added) + before.skip(
            place as int,
        ));
        at = at + 1;
    }
    assert(all.take(at as int) =~= all);
    result
}

/// The texts that are not the same as the one before.
pub fn dedup(list: &[String]) -> (result: Vec<String>)
    ensures
        texts(result@) == deduplicated(texts(list@)),
{
    let ghost all = texts(list@);
    let mut result: Vec<String> = Vec::new();
    let mut at: usize = 0;
    assert(texts(result@) =~= deduplicated(all.take(0)));
    while at < list.len()
        invariant
            at <= list@.len(),
            all == texts(list@),
            texts(result@) == deduplicated(all.take(at as int)),
        decreases list@.len() - at,
    {
        let ghost before = texts(result@);
        assert(all.take(at + 1).drop_last() =~= all.take(at as int));
        assert(all.take(at + 1).last() == list@[at as int]@);
        let repeated = result.len() > 0 && same_text(
            result[result.len() - 1].as_str(),
            list[at].as_str(),
        );
        if !repeated {
            result.push(list[at].clone());
            assert(texts(result@) =~= before.push(list@[at as int]@));
        }
        at = at + 1;
    }
    assert(all.take(at as int) =~= all);
    result
}

} // verus!
