//! What git is asked, and what is made of its answers.

use vstd::prelude::*;
use vstd::string::*;
use vstd::utf8::*;

use crate::cli::{Commands, Release};
use crate::error::Failure;
use crate::git::{
    annotate_command, branch_command, captured, changed_in, commit_command, head_command,
    index_command, lacks_atomic, line_of, origin_command, path_in, paths_in, pathspecs,
    push_command, reload_command, repository_command, rewind_command, root_command, snapshot_of,
    stage_command, status_command, succeeded, tag_command, word_of, Ran, SnapshotModel,
};
use crate::text::{joined, occurs, split_at_each, stands_at, trimmed};
use crate::utf8::{lemma_cut, lemma_end_boundaries};
use crate::version::{pre_id_of, BumpModel, Level};

verus! {

// ---------------------------------------------------------------------------
// What the user asks for

/// A level is released, or a pre-release of it started, where an identifier is
/// given, under the message that is given.
pub proof fn law_level_commands(command: Commands, release: Release, level: Level)
    requires
        match level {
            Level::Major => command == Commands::Major(release),
            Level::Minor => command == Commands::Minor(release),
            Level::Patch => command == Commands::Patch(release),
        },
    ensures
        command.text() == release.message@,
        release.pre is None ==> command.bumping() == Ok::<_, Failure>(BumpModel::Release(level)),
        release.pre matches Some(text) ==> match pre_id_of(text@) {
            Ok(id) => command.bumping() == Ok::<_, Failure>(BumpModel::Start(level, id)),
            Err(_) => command.bumping() == Err::<BumpModel, _>(Failure::InvalidPreId(text@)),
        },
{
}

/// The next pre-release is made under the identifier that is given, if one is.
pub proof fn law_pre_release_commands(command: Commands, text: String, id: Option<String>)
    requires
        command == (Commands::Pre { message: text, id }),
    ensures
        command.text() == text@,
        id is None ==> command.bumping() == Ok::<_, Failure>(BumpModel::Next(None)),
        id matches Some(given) ==> match pre_id_of(given@) {
            Ok(read) => command.bumping() == Ok::<_, Failure>(BumpModel::Next(Some(read))),
            Err(_) => command.bumping() == Err::<BumpModel, _>(Failure::InvalidPreId(given@)),
        },
{
}

// ---------------------------------------------------------------------------
// Answers

/// What git wrote counts only where it ran and succeeded.
pub proof fn law_answers(ran: Ran)
    ensures
        match ran {
            Ran::Exited { success, stdout, .. } => {
                &&& succeeded(ran) == success
                &&& success ==> line_of(ran) == Some(trimmed(stdout@))
                &&& success && trimmed(stdout@).len() > 0 ==> word_of(ran) == Some(
                    trimmed(stdout@),
                )
                &&& success && trimmed(stdout@).len() == 0 ==> word_of(ran) is None
                &&& success ==> changed_in(ran) == paths_in(split_at_each(stdout@, '\0'))
                &&& !success ==> line_of(ran) is None && word_of(ran) is None && changed_in(
                    ran,
                ).len() == 0
            },
            Ran::NotStarted(_) => !succeeded(ran) && line_of(ran) is None && word_of(ran) is None
                && changed_in(ran).len() == 0,
        },
{
}

/// A command went well exactly where git ran and succeeded, and gives what git
/// wrote. Otherwise its diagnostics name the command and what git said of it.
pub proof fn law_diagnostics(args: Seq<Seq<char>>, ran: Ran)
    ensures
        match ran {
            Ran::NotStarted(reason) => captured(args, ran) == Err::<Seq<char>, _>(
                "could not run git: "@ + reason@,
            ),
            Ran::Exited { success, stdout, stderr } => {
                &&& success ==> captured(args, ran) == Ok::<_, Seq<char>>(stdout@)
                &&& !success ==> captured(args, ran) == Err::<Seq<char>, _>(
                    "'git "@ + joined(args, " "@) + "' failed"@ + if trimmed(stderr@).len() == 0 {
                        Seq::empty()
                    } else {
                        ": "@ + trimmed(stderr@)
                    },
                )
            },
        },
{
    reveal_strlit("'");
    reveal_strlit("git ");
    reveal_strlit("'git ");
    reveal_strlit("' failed");
    reveal_strlit("' failed: ");
    reveal_strlit(": ");
    if let Ran::Exited { success, stderr, .. } = ran {
        if !success {
            let line = joined(args, " "@);
            let detail = trimmed(stderr@);
            assert("'"@ + "git "@ =~= "'git "@);
            assert("'"@ + ("git "@ + line) =~= "'git "@ + line);
            assert("' failed"@ + ": "@ =~= "' failed: "@);
            if detail.len() == 0 {
                assert("'git "@ + line + "' failed"@ + Seq::<char>::empty() =~= "'git "@ + line
                    + "' failed"@);
            } else {
                assert("'git "@ + line + "' failed"@ + (": "@ + detail) =~= "'git "@ + line
                    + "' failed: "@ + detail);
            }
        }
    }
}

/// The index is saved where git wrote a tree for it, and that tree is kept with
/// the head. Otherwise git's diagnostics tell why not.
pub proof fn law_snapshots(head: Option<Seq<char>>, ran: Ran)
    ensures
        match snapshot_of(head, ran) {
            Ok(snapshot) => succeeded(ran) && snapshot.head == head && Some(snapshot.index)
                == line_of(ran),
            Err(reason) => !succeeded(ran) && captured(seq!["write-tree"@], ran) == Err::<
                Seq<char>,
                _,
            >(reason),
        },
{
}

/// A server that cannot push both or none is known by git's words for it,
/// wherever they stand.
pub proof fn law_atomic_support(reason: Seq<char>)
    ensures
        lacks_atomic(reason) <==> exists|at: int|
            0 <= at <= reason.len() - "does not support --atomic"@.len() && (
            #[trigger] reason.subrange(at, at + "does not support --atomic"@.len()))
                == "does not support --atomic"@,
{
    let words = "does not support --atomic"@;
    if occurs(reason, words) {
        let at = choose|at: int| stands_at(reason, words, at);
        assert(reason.subrange(at, at + words.len()) =~= words);
    }
    if exists|at: int|
        0 <= at <= reason.len() - words.len() && (#[trigger] reason.subrange(at, at + words.len()))
            == words {
        let at = choose|at: int|
            0 <= at <= reason.len() - words.len() && (#[trigger] reason.subrange(
                at,
                at + words.len(),
            )) == words;
        assert(stands_at(reason, words, at));
    }
}

/// A record of a status tells the path behind its first three bytes, which are
/// two letters and a blank. One without a path is passed over, and so is the
/// record behind that of a rename or a copy.
pub proof fn law_status_records(record: Seq<char>, rest: Seq<Seq<char>>)
    ensures
        match path_in(record) {
            Some(path) => {
                &&& encode_utf8(record).len() > 3
                &&& encode_utf8(path) == encode_utf8(record).skip(3)
                &&& (record[0] == 'R' || record[0] == 'C') && rest.len() > 0 ==> paths_in(
                    seq![record] + rest,
                ) == seq![path] + paths_in(rest.skip(1))
                &&& !(record[0] == 'R' || record[0] == 'C') || rest.len() == 0 ==> paths_in(
                    seq![record] + rest,
                ) == seq![path] + paths_in(rest)
            },
            None => paths_in(seq![record] + rest) == paths_in(rest),
        },
        paths_in(Seq::empty()).len() == 0,
{
    let records = seq![record] + rest;
    assert(records.drop_first() =~= rest);
    if rest.len() > 0 {
        assert(records.skip(2) =~= rest.skip(1));
    }
    if let Some(path) = path_in(record) {
        let bytes = encode_utf8(record);
        if record.len() == 0 {
            assert(bytes.len() == 0);
        }
        assert(bytes.subrange(3, bytes.len() as int) =~= bytes.skip(3));
        encode_utf8_valid_utf8(record);
        lemma_end_boundaries(bytes);
        lemma_cut(bytes, 3, bytes.len() as int);
        decode_utf8_encode_utf8(bytes.subrange(3, bytes.len() as int));
    }
}

// ---------------------------------------------------------------------------
// Commands

/// What git is asked to find out.
pub proof fn law_questions(tag: Seq<char>)
    ensures
        repository_command() == seq!["rev-parse"@, "--git-dir"@],
        root_command() == seq!["rev-parse"@, "--show-toplevel"@],
        tag_command(tag) == seq!["rev-parse"@, "-q"@, "--verify"@, "refs/tags/"@ + tag],
        origin_command() == seq!["remote"@, "get-url"@, "origin"@],
        branch_command() == seq!["branch"@, "--show-current"@],
        head_command() == seq!["rev-parse"@, "-q"@, "--verify"@, "HEAD"@],
        status_command() == seq!["status"@, "--porcelain"@, "-z"@, "--untracked-files=all"@],
        index_command() == seq!["write-tree"@],
{
}

/// A commit takes exactly the paths that are given, each from the root of the
/// repository and letter for letter, or else everything, under the message.
pub proof fn law_commits(message: Seq<char>, paths: Seq<Seq<char>>, at: int)
    ensures
        stage_command(paths, true) == seq!["add"@, "-A"@],
        commit_command(message, paths, true) == seq!["commit"@, "-m"@, message],
        stage_command(paths, false).len() == paths.len() + 2,
        stage_command(paths, false).take(2) == seq!["add"@, "--"@],
        commit_command(message, paths, false).len() == paths.len() + 5,
        commit_command(message, paths, false).take(5) == seq![
            "commit"@,
            "-m"@,
            message,
            "--only"@,
            "--"@,
        ],
        0 <= at < paths.len() ==> stage_command(paths, false)[at + 2] == ":(top,literal)"@
            + paths[at],
        0 <= at < paths.len() ==> commit_command(message, paths, false)[at + 5]
            == ":(top,literal)"@ + paths[at],
{
    assert(stage_command(paths, false).take(2) =~= seq!["add"@, "--"@]);
    assert(pathspecs(paths).len() == paths.len());
}

/// A tag is annotated with the message, and pushed together with the branch.
pub proof fn law_tags_and_pushes(branch: Seq<char>, tag: Seq<char>, message: Seq<char>)
    ensures
        annotate_command(tag, message) == seq!["tag"@, "-a"@, tag, "-m"@, message],
        push_command(branch, tag, true) == seq![
            "push"@,
            "--atomic"@,
            "-u"@,
            "origin"@,
            branch,
            "refs/tags/"@ + tag,
        ],
        push_command(branch, tag, false) == seq![
            "push"@,
            "-u"@,
            "origin"@,
            branch,
            "refs/tags/"@ + tag,
        ],
{
}

/// HEAD is moved back exactly where it is at another commit than before: to the
/// commit there was, or to none. The index is read from the tree that was kept.
pub proof fn law_restoring(snapshot: SnapshotModel, current: Option<Seq<char>>)
    ensures
        rewind_command(snapshot, current) is Some <==> current is Some && snapshot.head != current,
        rewind_command(snapshot, current) matches Some(command) ==> match snapshot.head {
            Some(head) => command == seq![
                "update-ref"@,
                "-m"@,
                "versioner: roll back failed release"@,
                "HEAD"@,
                head,
                current->0,
            ],
            None => command == seq!["update-ref"@, "-d"@, "HEAD"@, current->0],
        },
        reload_command(snapshot) == seq!["read-tree"@, snapshot.index],
{
}

} // verus!
