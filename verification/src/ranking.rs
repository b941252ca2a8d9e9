//! What decides between two versions, and between two texts.

use vstd::prelude::*;

use crate::order::{text_precedence, Precedence};
use crate::precedence::{identifier_precedence, pre_precedence};
use crate::version::{IdentifierModel, VersionModel};

verus! {

/// The first character in which two texts differ decides between them, by its
/// code.
pub proof fn law_first_difference_orders_texts(left: Seq<char>, right: Seq<char>, at: int)
    requires
        0 <= at < left.len(),
        at < right.len(),
        forall|i: int| 0 <= i < at ==> (#[trigger] left[i]) == right[i],
        left[at] != right[at],
    ensures
        text_precedence(left, right) == (if left[at] < right[at] {
            Precedence::Before
        } else {
            Precedence::After
        }),
    decreases at,
{
    if at > 0 {
        assert(left[0] == right[0]);
        let lefts = left.drop_first();
        let rights = right.drop_first();
        assert forall|i: int| 0 <= i < at - 1 implies (#[trigger] lefts[i]) == rights[i] by {
            assert(left[i + 1] == right[i + 1]);
        }
        law_first_difference_orders_texts(lefts, rights, at - 1);
    }
}

/// A text comes before what goes on from it.
pub proof fn law_shorter_texts_come_first(left: Seq<char>, right: Seq<char>)
    requires
        left.len() <= right.len(),
        forall|i: int| 0 <= i < left.len() ==> (#[trigger] left[i]) == right[i],
    ensures
        text_precedence(left, right) == (if left.len() < right.len() {
            Precedence::Before
        } else {
            Precedence::Same
        }),
    decreases left.len(),
{
    if left.len() > 0 {
        assert(left[0] == right[0]);
        let lefts = left.drop_first();
        let rights = right.drop_first();
        assert forall|i: int| 0 <= i < lefts.len() implies (#[trigger] lefts[i]) == rights[i] by {
            assert(left[i + 1] == right[i + 1]);
        }
        law_shorter_texts_come_first(lefts, rights);
    }
}

/// Whether one identifier sorts below another: a number below a higher one and
/// below every text, a text by its first difference.
pub proof fn law_identifiers_sort(left: IdentifierModel, right: IdentifierModel)
    ensures
        match (left, right) {
            (
                IdentifierModel::Numeric(one),
                IdentifierModel::Numeric(other),
            ) => (identifier_precedence(left, right) == Precedence::Before <==> one < other) && (
            identifier_precedence(left, right) == Precedence::Same <==> one == other),
            (
                IdentifierModel::Numeric(_),
                IdentifierModel::Alpha(_),
            ) => identifier_precedence(left, right) == Precedence::Before,
            (
                IdentifierModel::Alpha(_),
                IdentifierModel::Numeric(_),
            ) => identifier_precedence(left, right) == Precedence::After,
            (
                IdentifierModel::Alpha(one),
                IdentifierModel::Alpha(other),
            ) => identifier_precedence(left, right) == text_precedence(one, other),
        },
{
}

/// A higher major number comes later, whatever else differs; then a higher
/// minor number; then a higher patch number.
pub proof fn law_numbers_decide_first(left: VersionModel, right: VersionModel)
    ensures
        left.major < right.major ==> left.precedence(right) == Precedence::Before,
        left.major > right.major ==> left.precedence(right) == Precedence::After,
        left.major == right.major && left.minor < right.minor ==> left.precedence(right)
            == Precedence::Before,
        left.major == right.major && left.minor > right.minor ==> left.precedence(right)
            == Precedence::After,
        left.major == right.major && left.minor == right.minor && left.patch < right.patch
            ==> left.precedence(right) == Precedence::Before,
        left.major == right.major && left.minor == right.minor && left.patch > right.patch
            ==> left.precedence(right) == Precedence::After,
{
}

/// Of versions with the same numbers, a pre-release comes before the release,
/// and two releases are the same, whatever their build metadata.
pub proof fn law_releases_come_after_their_pre_releases(left: VersionModel, right: VersionModel)
    requires
        left.major == right.major,
        left.minor == right.minor,
        left.patch == right.patch,
    ensures
        left.pre.len() > 0 && right.pre.len() == 0 ==> left.precedence(right)
            == Precedence::Before,
        left.pre.len() == 0 && right.pre.len() > 0 ==> left.precedence(right)
            == Precedence::After,
        left.pre.len() == 0 && right.pre.len() == 0 ==> left.precedence(right)
            == Precedence::Same,
{
}

proof fn lemma_first_identifier(
    left: Seq<IdentifierModel>,
    right: Seq<IdentifierModel>,
    at: int,
)
    requires
        0 <= at < left.len(),
        at < right.len(),
        forall|i: int| 0 <= i < at ==> (#[trigger] left[i]) == right[i],
        left[at] != right[at],
    ensures
        pre_precedence(left, right) == identifier_precedence(left[at], right[at]),
    decreases at,
{
    if at > 0 {
        assert(left[0] == right[0]);
        let lefts = left.drop_first();
        let rights = right.drop_first();
        assert forall|i: int| 0 <= i < at - 1 implies (#[trigger] lefts[i]) == rights[i] by {
            assert(left[i + 1] == right[i + 1]);
        }
        lemma_first_identifier(lefts, rights, at - 1);
    }
}

proof fn lemma_fewer_identifiers(left: Seq<IdentifierModel>, right: Seq<IdentifierModel>)
    requires
        left.len() < right.len(),
        forall|i: int| 0 <= i < left.len() ==> (#[trigger] left[i]) == right[i],
    ensures
        pre_precedence(left, right) == Precedence::Before,
        pre_precedence(right, left) == Precedence::After,
    decreases left.len(),
{
    if left.len() > 0 {
        assert(left[0] == right[0]);
        let lefts = left.drop_first();
        let rights = right.drop_first();
        assert forall|i: int| 0 <= i < lefts.len() implies (#[trigger] lefts[i]) == rights[i] by {
            assert(left[i + 1] == right[i + 1]);
        }
        lemma_fewer_identifiers(lefts, rights);
    }
}

/// Of pre-releases with the same numbers, the first identifier in which they
/// differ decides: the lower number, a number before a text, or the text with
/// the lower character where the two texts first differ.
pub proof fn law_first_identifier_decides(left: VersionModel, right: VersionModel, at: int)
    requires
        left.major == right.major,
        left.minor == right.minor,
        left.patch == right.patch,
        0 <= at < left.pre.len(),
        at < right.pre.len(),
        forall|i: int| 0 <= i < at ==> (#[trigger] left.pre[i]) == right.pre[i],
        left.pre[at] != right.pre[at],
    ensures
        match (left.pre[at], right.pre[at]) {
            (IdentifierModel::Numeric(one), IdentifierModel::Numeric(other)) => left.precedence(
                right,
            ) == (if one < other {
                Precedence::Before
            } else {
                Precedence::After
            }),
            (IdentifierModel::Numeric(_), IdentifierModel::Alpha(_)) => left.precedence(right)
                == Precedence::Before,
            (IdentifierModel::Alpha(_), IdentifierModel::Numeric(_)) => left.precedence(right)
                == Precedence::After,
            (IdentifierModel::Alpha(one), IdentifierModel::Alpha(other)) => left.precedence(right)
                == text_precedence(one, other),
        },
{
    lemma_first_identifier(left.pre, right.pre, at);
}

/// Of pre-releases with the same numbers, one comes before what goes on from it.
pub proof fn law_fewer_identifiers_come_first(left: VersionModel, right: VersionModel)
    requires
        left.major == right.major,
        left.minor == right.minor,
        left.patch == right.patch,
        0 < left.pre.len() < right.pre.len(),
        forall|i: int| 0 <= i < left.pre.len() ==> (#[trigger] left.pre[i]) == right.pre[i],
    ensures
        left.precedence(right) == Precedence::Before,
        right.precedence(left) == Precedence::After,
{
    lemma_fewer_identifiers(left.pre, right.pre);
}

} // verus!
