//! What each bump makes of a version, number by number.

use vstd::prelude::*;

use crate::error::Failure;
use crate::version::{
    last_numeric, lemma_last_numeric, BumpModel, IdentifierModel, Level, VersionModel,
};

verus! {

/// A major bump of a pre-release of an `x.0.0` gives that `x.0.0`. Every other
/// version goes to the next `x.0.0`, whatever else there is to it.
pub proof fn law_major_bumps(version: VersionModel)
    ensures
        match version.bumped(BumpModel::Release(Level::Major)) {
            Ok(next) => {
                &&& next.minor == 0 && next.patch == 0
                &&& next.pre.len() == 0 && next.build is None
                &&& next.major == version.major || next.major == version.major + 1
                &&& next.major == version.major <==> version.pre.len() > 0 && version.minor == 0
                    && version.patch == 0
            },
            Err(failure) => failure == Failure::VersionOverflow && version.major == u64::MAX && !(
            version.pre.len() > 0 && version.minor == 0 && version.patch == 0),
        },
        version.major == u64::MAX && (version.pre.len() == 0 || version.minor > 0 || version.patch
            > 0) ==> version.bumped(BumpModel::Release(Level::Major)) is Err,
{
}

/// A minor bump of a pre-release of an `x.y.0` gives that `x.y.0`. Every other
/// version goes to the next `x.y.0`.
pub proof fn law_minor_bumps(version: VersionModel)
    ensures
        match version.bumped(BumpModel::Release(Level::Minor)) {
            Ok(next) => {
                &&& next.major == version.major && next.patch == 0
                &&& next.pre.len() == 0 && next.build is None
                &&& next.minor == version.minor || next.minor == version.minor + 1
                &&& next.minor == version.minor <==> version.pre.len() > 0 && version.patch == 0
            },
            Err(failure) => failure == Failure::VersionOverflow && version.minor == u64::MAX && !(
            version.pre.len() > 0 && version.patch == 0),
        },
        version.minor == u64::MAX && (version.pre.len() == 0 || version.patch > 0)
            ==> version.bumped(BumpModel::Release(Level::Minor)) is Err,
{
}

/// A patch bump of a pre-release gives its release. Every other version goes to
/// the next patch.
pub proof fn law_patch_bumps(version: VersionModel)
    ensures
        match version.bumped(BumpModel::Release(Level::Patch)) {
            Ok(next) => {
                &&& next.major == version.major && next.minor == version.minor
                &&& next.pre.len() == 0 && next.build is None
                &&& next.patch == version.patch || next.patch == version.patch + 1
                &&& next.patch == version.patch <==> version.pre.len() > 0
            },
            Err(failure) => failure == Failure::VersionOverflow && version.patch == u64::MAX
                && version.pre.len() == 0,
        },
        version.patch == u64::MAX && version.pre.len() == 0 ==> version.bumped(
            BumpModel::Release(Level::Patch),
        ) is Err,
{
}

/// Starting a pre-release raises its level in any case, with the numbers below
/// at 0, and opens the identifiers that are asked for with a 0 behind them.
pub proof fn law_starting_a_pre_release(
    version: VersionModel,
    level: Level,
    id: Seq<IdentifierModel>,
)
    ensures
        match version.bumped(BumpModel::Start(level, id)) {
            Ok(next) => {
                &&& next.major == version.major + (if level == Level::Major {
                    1int
                } else {
                    0
                })
                &&& next.minor == (match level {
                    Level::Major => 0,
                    Level::Minor => version.minor + 1,
                    Level::Patch => version.minor as int,
                })
                &&& next.patch == (match level {
                    Level::Patch => version.patch + 1,
                    _ => 0,
                })
                &&& next.build is None
                &&& next.pre.len() == id.len() + 1
                &&& next.pre.last() == IdentifierModel::Numeric(0)
                &&& forall|i: int| 0 <= i < id.len() ==> (#[trigger] next.pre[i]) == id[i]
            },
            Err(failure) => failure == Failure::VersionOverflow && (match level {
                Level::Major => version.major,
                Level::Minor => version.minor,
                Level::Patch => version.patch,
            }) == u64::MAX,
        },
{
}

/// `pre` on a release opens a pre-release of the next patch, under the
/// identifiers that are asked for, with a 0 behind them.
pub proof fn law_next_on_a_release(version: VersionModel, id: Option<Seq<IdentifierModel>>)
    requires
        version.pre.len() == 0,
    ensures
        match version.bumped(BumpModel::Next(id)) {
            Ok(next) => {
                &&& next.major == version.major && next.minor == version.minor
                &&& next.patch == version.patch + 1
                &&& next.build is None
                &&& next.pre.last() == IdentifierModel::Numeric(0)
                &&& match id {
                    None => next.pre.len() == 1,
                    Some(id) => next.pre.len() == id.len() + 1 && forall|i: int|
                        0 <= i < id.len() ==> (#[trigger] next.pre[i]) == id[i],
                }
            },
            Err(failure) => failure == Failure::VersionOverflow && version.patch == u64::MAX,
        },
{
}

/// `pre` on a pre-release stays on the release that it leads up to.
pub proof fn law_next_keeps_the_release(version: VersionModel, id: Option<Seq<IdentifierModel>>)
    requires
        version.pre.len() > 0,
    ensures
        version.bumped(BumpModel::Next(id)) matches Ok(next) ==> {
            &&& next.major == version.major
            &&& next.minor == version.minor
            &&& next.patch == version.patch
            &&& next.build is None
            &&& next.pre.len() > 0
        },
{
    lemma_last_numeric(version.pre);
}

/// `pre` with identifiers that the pre-release does not start with starts them
/// over at 0. That cannot fail.
pub proof fn law_next_switches_identifiers(version: VersionModel, id: Seq<IdentifierModel>)
    requires
        version.pre.len() > 0,
        version.pre.len() < id.len() || exists|i: int|
            0 <= i < id.len() && (#[trigger] version.pre[i]) != id[i],
    ensures
        version.bumped(BumpModel::Next(Some(id))) matches Ok(next) && {
            &&& next.pre.len() == id.len() + 1
            &&& next.pre.last() == IdentifierModel::Numeric(0)
            &&& forall|i: int| 0 <= i < id.len() ==> (#[trigger] next.pre[i]) == id[i]
        },
{
    if id.is_prefix_of(version.pre) {
        assert forall|i: int| 0 <= i < id.len() implies (#[trigger] version.pre[i]) == id[i] by {
            assert(version.pre.subrange(0, id.len() as int)[i] == id[i]);
        }
    }
}

/// `pre` without identifiers, or with those that the pre-release starts with,
/// raises the last number in it by one and leaves the rest. Where there is no
/// number in it, a 0 comes behind. It fails only where that number cannot be
/// raised.
pub proof fn law_next_raises_the_last_number(
    version: VersionModel,
    id: Option<Seq<IdentifierModel>>,
    last: int,
)
    requires
        version.pre.len() > 0,
        id matches Some(id) ==> id.len() <= version.pre.len() && forall|i: int|
            0 <= i < id.len() ==> (#[trigger] version.pre[i]) == id[i],
        -1 <= last < version.pre.len(),
        last >= 0 ==> version.pre[last] is Numeric,
        forall|i: int| last < i < version.pre.len() ==> (#[trigger] version.pre[i]) is Alpha,
    ensures
        match version.bumped(BumpModel::Next(id)) {
            Ok(next) => if last < 0 {
                &&& next.pre.len() == version.pre.len() + 1
                &&& next.pre.last() == IdentifierModel::Numeric(0)
                &&& forall|i: int|
                    0 <= i < version.pre.len() ==> (#[trigger] next.pre[i]) == version.pre[i]
            } else {
                &&& next.pre.len() == version.pre.len()
                &&& next.pre[last] matches IdentifierModel::Numeric(number) && number
                    == version.pre[last]->Numeric_0 + 1
                &&& forall|i: int|
                    0 <= i < version.pre.len() && i != last ==> (#[trigger] next.pre[i])
                        == version.pre[i]
            },
            Err(failure) => failure == Failure::VersionOverflow && last >= 0 && version.pre[last]
                == IdentifierModel::Numeric(u64::MAX),
        },
        last >= 0 && version.pre[last] == IdentifierModel::Numeric(u64::MAX) ==> version.bumped(
            BumpModel::Next(id),
        ) is Err,
{
    lemma_last_numeric(version.pre);
    if let Some(given) = id {
        assert(version.pre.subrange(0, given.len() as int) =~= given);
        assert(given.is_prefix_of(version.pre));
    }
    match last_numeric(version.pre) {
        Some(at) => {
            if at < last {
                assert(version.pre[last] is Alpha);
            } else if last < at {
                assert(version.pre[at] is Alpha);
            }
        },
        None => {
            if last >= 0 {
                assert(version.pre[last] is Alpha);
            }
        },
    }
}

/// Two `pre` in a row, the second without identifiers, count on from the first.
pub proof fn law_next_counts_on(
    version: VersionModel,
    id: Option<Seq<IdentifierModel>>,
    first: VersionModel,
)
    requires
        version.pre.len() == 0,
        version.bumped(BumpModel::Next(id)) == Ok::<_, Failure>(first),
    ensures
        first.bumped(BumpModel::Next(None)) matches Ok(second) && {
            &&& second.pre.len() == first.pre.len()
            &&& second.pre.last() == IdentifierModel::Numeric(1)
            &&& second.pre.drop_last() == first.pre.drop_last()
            &&& second.patch == first.patch && second.minor == first.minor && second.major
                == first.major
        },
        first.bumped(BumpModel::Next(id)) == first.bumped(BumpModel::Next(None)),
{
    let at = first.pre.len() - 1;
    assert(last_numeric(first.pre) == Some(at));
    if let Some(given) = id {
        assert(first.pre.subrange(0, given.len() as int) =~= given);
    }
    let second = first.bumped(BumpModel::Next(None))->Ok_0;
    assert(second.pre.drop_last() =~= first.pre.drop_last());
}

} // verus!
