//! The order of versions, and which way a bump moves in it.

use core::cmp::Ordering;

use vstd::prelude::*;
use vstd::std_specs::cmp::{PartialEqSpecImpl, PartialOrdSpecImpl};

use crate::error::Failure;
use crate::order::{
    compare_texts, flipped, lemma_text_precedence, lemma_text_precedence_transitive,
    number_precedence, text_precedence, Precedence,
};
use crate::version::{
    advanced_pre, last_numeric, lemma_last_numeric, models, one_more, wanted, BumpModel, Identifier,
    IdentifierModel, Level, Version, VersionModel,
};

verus! {

/// How two identifiers stand to each other: numbers by their value, texts by
/// their characters, and every number before every text.
pub open spec fn identifier_precedence(
    left: IdentifierModel,
    right: IdentifierModel,
) -> Precedence {
    match (left, right) {
        (
            IdentifierModel::Numeric(left),
            IdentifierModel::Numeric(right),
        ) => number_precedence(left as int, right as int),
        (IdentifierModel::Numeric(_), IdentifierModel::Alpha(_)) => Precedence::Before,
        (IdentifierModel::Alpha(_), IdentifierModel::Numeric(_)) => Precedence::After,
        (IdentifierModel::Alpha(left), IdentifierModel::Alpha(right)) => text_precedence(
            left,
            right,
        ),
    }
}

/// How two lists of identifiers stand to each other: by the first identifier
/// in which they differ, and a list before its own continuations.
pub open spec fn pre_precedence(
    left: Seq<IdentifierModel>,
    right: Seq<IdentifierModel>,
) -> Precedence
    decreases left.len(),
{
    if left.len() == 0 || right.len() == 0 {
        number_precedence(left.len() as int, right.len() as int)
    } else if left[0] != right[0] {
        identifier_precedence(left[0], right[0])
    } else {
        pre_precedence(left.drop_first(), right.drop_first())
    }
}

/// The first of two relations that tells its sides apart.
pub open spec fn first_difference(first: Precedence, second: Precedence) -> Precedence {
    if first == Precedence::Same {
        second
    } else {
        first
    }
}

impl VersionModel {
    /// How two versions stand to each other: by their numbers, then a
    /// pre-release before its release, then by the pre-release identifiers.
    /// Build metadata has no say.
    pub open spec fn precedence(self, other: VersionModel) -> Precedence {
        first_difference(
            number_precedence(self.major as int, other.major as int),
            first_difference(
                number_precedence(self.minor as int, other.minor as int),
                first_difference(
                    number_precedence(self.patch as int, other.patch as int),
                    if self.pre.len() == 0 || other.pre.len() == 0 {
                        number_precedence(other.pre.len() as int, self.pre.len() as int)
                    } else {
                        pre_precedence(self.pre, other.pre)
                    },
                ),
            ),
        )
    }

    /// Whether two versions differ in nothing but their build metadata.
    pub open spec fn equivalent(self, other: VersionModel) -> bool {
        &&& self.major == other.major
        &&& self.minor == other.minor
        &&& self.patch == other.patch
        &&& self.pre == other.pre
    }
}

proof fn lemma_identifier_precedence(left: IdentifierModel, right: IdentifierModel)
    ensures
        identifier_precedence(right, left) == flipped(identifier_precedence(left, right)),
        identifier_precedence(left, right) == Precedence::Same <==> left == right,
{
    if let (IdentifierModel::Alpha(left), IdentifierModel::Alpha(right)) = (left, right) {
        lemma_text_precedence(left, right);
    }
}

proof fn lemma_identifier_precedence_transitive(
    first: IdentifierModel,
    second: IdentifierModel,
    third: IdentifierModel,
)
    requires
        identifier_precedence(first, second) == Precedence::Before,
        identifier_precedence(second, third) == Precedence::Before,
    ensures
        identifier_precedence(first, third) == Precedence::Before,
{
    if let (
        IdentifierModel::Alpha(first),
        IdentifierModel::Alpha(second),
        IdentifierModel::Alpha(third),
    ) = (first, second, third) {
        lemma_text_precedence_transitive(first, second, third);
    }
}

proof fn lemma_pre_precedence(left: Seq<IdentifierModel>, right: Seq<IdentifierModel>)
    ensures
        pre_precedence(right, left) == flipped(pre_precedence(left, right)),
        pre_precedence(left, right) == Precedence::Same <==> left == right,
    decreases left.len(),
{
    if left.len() == 0 || right.len() == 0 {
        if left.len() == right.len() {
            assert(left =~= right);
        }
    } else {
        lemma_identifier_precedence(left[0], right[0]);
        lemma_pre_precedence(left.drop_first(), right.drop_first());
        assert(left =~= seq![left[0]] + left.drop_first());
        assert(right =~= seq![right[0]] + right.drop_first());
    }
}

proof fn lemma_pre_precedence_transitive(
    first: Seq<IdentifierModel>,
    second: Seq<IdentifierModel>,
    third: Seq<IdentifierModel>,
)
    requires
        pre_precedence(first, second) == Precedence::Before,
        pre_precedence(second, third) == Precedence::Before,
    ensures
        pre_precedence(first, third) == Precedence::Before,
    decreases first.len(),
{
    if first.len() != 0 && second.len() != 0 && third.len() != 0 {
        lemma_identifier_precedence(first[0], second[0]);
        lemma_identifier_precedence(second[0], third[0]);
        if first[0] == second[0] && second[0] == third[0] {
            lemma_pre_precedence_transitive(
                first.drop_first(),
                second.drop_first(),
                third.drop_first(),
            );
        } else if first[0] != second[0] && second[0] != third[0] {
            lemma_identifier_precedence_transitive(first[0], second[0], third[0]);
            lemma_identifier_precedence(first[0], third[0]);
        }
    }
}

/// The order of versions decides every pair, one way round only. Only
/// versions that differ in nothing but build metadata are the same.
pub proof fn law_precedence_is_total(left: VersionModel, right: VersionModel)
    ensures
        right.precedence(left) == flipped(left.precedence(right)),
        left.precedence(right) == Precedence::Same <==> left.equivalent(right),
{
    lemma_pre_precedence(left.pre, right.pre);
    if left.pre.len() == 0 && right.pre.len() == 0 {
        assert(left.pre =~= right.pre);
    }
}

/// The order of versions is transitive.
pub proof fn law_precedence_is_transitive(
    first: VersionModel,
    second: VersionModel,
    third: VersionModel,
)
    requires
        first.precedence(second) == Precedence::Before,
        second.precedence(third) == Precedence::Before,
    ensures
        first.precedence(third) == Precedence::Before,
{
    if first.pre.len() != 0 && second.pre.len() != 0 && third.pre.len() != 0 {
        lemma_pre_precedence(first.pre, second.pre);
        lemma_pre_precedence(second.pre, third.pre);
        if pre_precedence(first.pre, second.pre) == Precedence::Before && pre_precedence(
            second.pre,
            third.pre,
        ) == Precedence::Before {
            lemma_pre_precedence_transitive(first.pre, second.pre, third.pre);
        }
    }
}

// ---------------------------------------------------------------------------
// Comparing

/// How two numbers stand to each other.
fn compare_numbers(left: u64, right: u64) -> (precedence: Precedence)
    ensures
        precedence == number_precedence(left as int, right as int),
{
    if left < right {
        Precedence::Before
    } else if left == right {
        Precedence::Same
    } else {
        Precedence::After
    }
}

impl Identifier {
    /// How two identifiers stand to each other: numeric ones sort below
    /// alphanumeric ones.
    pub fn precedence(&self, other: &Identifier) -> (precedence: Precedence)
        ensures
            precedence == identifier_precedence(self@, other@),
    {
        match (self, other) {
            (Identifier::Numeric(left), Identifier::Numeric(right)) => compare_numbers(
                *left,
                *right,
            ),
            (Identifier::Numeric(_), Identifier::Alpha(_)) => Precedence::Before,
            (Identifier::Alpha(_), Identifier::Numeric(_)) => Precedence::After,
            (Identifier::Alpha(left), Identifier::Alpha(right)) => compare_texts(
                left.as_str(),
                right.as_str(),
            ),
        }
    }
}

/// How two lists of identifiers stand to each other.
fn compare_pre(left: &[Identifier], right: &[Identifier]) -> (precedence: Precedence)
    ensures
        precedence == pre_precedence(models(left@), models(right@)),
{
    let ghost lefts = models(left@);
    let ghost rights = models(right@);
    let mut at: usize = 0;
    assert(lefts.skip(0) =~= lefts);
    assert(rights.skip(0) =~= rights);
    while at < left.len() && at < right.len()
        invariant
            at <= left@.len(),
            at <= right@.len(),
            lefts == models(left@),
            rights == models(right@),
            pre_precedence(lefts, rights) == pre_precedence(
                lefts.skip(at as int),
                rights.skip(at as int),
            ),
        decreases left@.len() - at,
    {
        let precedence = left[at].precedence(&right[at]);
        proof {
            lemma_identifier_precedence(lefts[at as int], rights[at as int]);
        }
        if precedence != Precedence::Same {
            return precedence;
        }
        assert(lefts.skip(at as int).drop_first() =~= lefts.skip(at + 1));
        assert(rights.skip(at as int).drop_first() =~= rights.skip(at + 1));
        at = at + 1;
    }
    if at < right.len() {
        Precedence::Before
    } else if at < left.len() {
        Precedence::After
    } else {
        Precedence::Same
    }
}

/// A relation as `Ordering` tells it.
pub open spec fn as_ordering(precedence: Precedence) -> Ordering {
    match precedence {
        Precedence::Before => Ordering::Less,
        Precedence::Same => Ordering::Equal,
        Precedence::After => Ordering::Greater,
    }
}

impl Version {
    /// How two versions stand to each other. A pre-release sorts below the
    /// release it leads up to.
    pub fn precedence(&self, other: &Version) -> (precedence: Precedence)
        ensures
            precedence == self@.precedence(other@),
    {
        let major = compare_numbers(self.major, other.major);
        if major != Precedence::Same {
            return major;
        }
        let minor = compare_numbers(self.minor, other.minor);
        if minor != Precedence::Same {
            return minor;
        }
        let patch = compare_numbers(self.patch, other.patch);
        if patch != Precedence::Same {
            return patch;
        }
        if self.pre.len() == 0 && other.pre.len() == 0 {
            Precedence::Same
        } else if self.pre.len() == 0 {
            Precedence::After
        } else if other.pre.len() == 0 {
            Precedence::Before
        } else {
            compare_pre(self.pre.as_slice(), other.pre.as_slice())
        }
    }

    /// [`Version::precedence`] as an `Ordering`.
    pub fn cmp(&self, other: &Version) -> (ordering: Ordering)
        ensures
            ordering == as_ordering(self@.precedence(other@)),
    {
        match self.precedence(other) {
            Precedence::Before => Ordering::Less,
            Precedence::Same => Ordering::Equal,
            Precedence::After => Ordering::Greater,
        }
    }
}

impl PartialEqSpecImpl for Version {
    open spec fn obeys_eq_spec() -> bool {
        true
    }

    open spec fn eq_spec(&self, other: &Version) -> bool {
        self@.precedence(other@) == Precedence::Same
    }
}

impl PartialEq for Version {
    fn eq(&self, other: &Version) -> (same: bool) {
        self.precedence(other) == Precedence::Same
    }
}

impl Eq for Version {

}

impl PartialOrdSpecImpl for Version {
    open spec fn obeys_partial_cmp_spec() -> bool {
        true
    }

    open spec fn partial_cmp_spec(&self, other: &Version) -> Option<Ordering> {
        Some(as_ordering(self@.precedence(other@)))
    }
}

impl PartialOrd for Version {
    fn partial_cmp(&self, other: &Version) -> (ordering: Option<Ordering>) {
        Some(self.cmp(other))
    }
}

// ---------------------------------------------------------------------------
// Which way bumps move

/// A list of identifiers sorts before its continuations.
proof fn lemma_pre_continued(pre: Seq<IdentifierModel>, more: IdentifierModel)
    ensures
        pre_precedence(pre, pre.push(more)) == Precedence::Before,
    decreases pre.len(),
{
    if pre.len() > 0 {
        assert(pre.push(more).drop_first() =~= pre.drop_first().push(more));
        lemma_pre_continued(pre.drop_first(), more);
    }
}

/// A list sorts before the list with one of its identifiers raised.
proof fn lemma_pre_raised(pre: Seq<IdentifierModel>, at: int, raised: IdentifierModel)
    requires
        0 <= at < pre.len(),
        identifier_precedence(pre[at], raised) == Precedence::Before,
    ensures
        pre_precedence(pre, pre.update(at, raised)) == Precedence::Before,
    decreases pre.len(),
{
    lemma_identifier_precedence(pre[at], raised);
    if at > 0 {
        assert(pre.update(at, raised).drop_first() =~= pre.drop_first().update(at - 1, raised));
        lemma_pre_raised(pre.drop_first(), at - 1, raised);
    }
}

/// The pre-release after `pre` sorts after it.
proof fn lemma_advanced_pre(pre: Seq<IdentifierModel>)
    requires
        advanced_pre(pre) is Ok,
    ensures
        advanced_pre(pre)->Ok_0.len() > 0,
        pre_precedence(pre, advanced_pre(pre)->Ok_0) == Precedence::Before,
{
    lemma_last_numeric(pre);
    match last_numeric(pre) {
        None => {
            lemma_pre_continued(pre, IdentifierModel::Numeric(0));
        },
        Some(at) => {
            let raised = one_more(pre[at]->Numeric_0)->Ok_0;
            lemma_pre_raised(pre, at, IdentifierModel::Numeric(raised));
        },
    }
}

/// Every bump moves forwards, but for one that opens a pre-release under
/// another identifier on a version that already is a pre-release.
pub proof fn law_bumps_move_forwards(version: VersionModel, bump: BumpModel)
    requires
        version.bumped(bump) is Ok,
        bump matches BumpModel::Next(id) ==> version.pre.len() == 0 || version.continues(id),
    ensures
        version.precedence(version.bumped(bump)->Ok_0) == Precedence::Before,
{
    if bump is Next && version.pre.len() > 0 {
        lemma_advanced_pre(version.pre);
    }
}

/// Every bump drops build metadata.
pub proof fn law_bumps_drop_build(version: VersionModel, bump: BumpModel)
    requires
        version.bumped(bump) is Ok,
    ensures
        version.bumped(bump)->Ok_0.build is None,
{
}

/// A bump fails only where a number would overflow.
pub proof fn law_bumps_fail_only_by_overflow(version: VersionModel, bump: BumpModel)
    requires
        version.bumped(bump) is Err,
    ensures
        version.bumped(bump)->Err_0 == Failure::VersionOverflow,
{
}

/// A bump of a valid version is a valid version.
pub proof fn law_bumps_stay_valid(version: VersionModel, bump: BumpModel)
    requires
        version.valid(),
        match bump {
            BumpModel::Release(_) => true,
            BumpModel::Start(_, id) => crate::version::all_valid(id),
            BumpModel::Next(id) => crate::version::all_valid(wanted(id)),
        },
        version.bumped(bump) is Ok,
    ensures
        version.bumped(bump)->Ok_0.valid(),
{
    lemma_last_numeric(version.pre);
}

/// Opening a pre-release of a level and then finalizing that level gives what
/// the level alone would have given.
pub proof fn law_start_leads_to_release(
    version: VersionModel,
    level: Level,
    id: Seq<IdentifierModel>,
)
    requires
        version.incremented(level) is Ok,
    ensures
        version.bumped(BumpModel::Start(level, id)) is Ok,
        version.bumped(BumpModel::Start(level, id))->Ok_0.bumped(BumpModel::Release(level))
            == version.incremented(level),
        version.bumped(BumpModel::Start(level, id))->Ok_0.precedence(
            version.incremented(level)->Ok_0,
        ) == Precedence::Before,
{
}

/// A pre-release sorts before the release it leads up to.
pub proof fn law_pre_release_precedes_release(version: VersionModel)
    requires
        version.pre.len() > 0,
    ensures
        version.precedence(version.finalized()) == Precedence::Before,
{
}

} // verus!
