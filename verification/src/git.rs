//! Which git commands a release takes, and what their results mean.

use vstd::prelude::*;
use vstd::string::*;
use vstd::utf8::*;

use crate::text::{
    contains, join, joined, lemma_split_joined, maybe_slice, maybe_text, occurs, same_text, slices,
    split, split_at_each, texts, trim, trimmed,
};
use crate::utf8::{
    cut, lemma_ascii_boundaries, lemma_encode_concat, lemma_end_boundaries, text_between,
};

verus! {

pub struct Git;

/// What became of running git.
#[derive(Debug)]
pub enum Ran {
    /// It could not be run, for this reason.
    NotStarted(String),
    /// It ran, and wrote this.
    Exited { success: bool, stdout: String, stderr: String },
}

/// What git wrote, or its own diagnostics.
pub open spec fn captured(args: Seq<Seq<char>>, ran: Ran) -> Result<Seq<char>, Seq<char>> {
    match ran {
        Ran::NotStarted(reason) => Err("could not run git: "@ + reason@),
        Ran::Exited { success, stdout, stderr } => if success {
            Ok(stdout@)
        } else {
            let command = "git "@ + joined(args, " "@);
            let detail = trimmed(stderr@);
            if detail.len() == 0 {
                Err("'"@ + command + "' failed"@)
            } else {
                Err("'"@ + command + "' failed: "@ + detail)
            }
        },
    }
}

/// Whether git ran and succeeded.
pub open spec fn succeeded(ran: Ran) -> bool {
    ran matches Ran::Exited { success, .. } && success
}

/// What git wrote without the whitespace around it, if it succeeded.
pub open spec fn line_of(ran: Ran) -> Option<Seq<char>> {
    match ran {
        Ran::Exited { success, stdout, .. } => if success {
            Some(trimmed(stdout@))
        } else {
            None
        },
        Ran::NotStarted(_) => None,
    }
}

/// What git wrote without the whitespace around it, if that is anything.
pub open spec fn word_of(ran: Ran) -> Option<Seq<char>> {
    match line_of(ran) {
        Some(line) => if line.len() > 0 {
            Some(line)
        } else {
            None
        },
        None => None,
    }
}

/// The arguments of a git command.
fn arguments(list: &[&str]) -> (args: Vec<String>)
    ensures
        texts(args@) == slices(list@),
{
    let mut args: Vec<String> = Vec::new();
    let mut at: usize = 0;
    while at < list.len()
        invariant
            at <= list@.len(),
            args@.len() == at,
            forall|i: int| 0 <= i < at ==> (#[trigger] args@[i])@ == list@[i]@,
        decreases list@.len() - at,
    {
        args.push(list[at].to_owned());
        at = at + 1;
    }
    assert(texts(args@) =~= slices(list@));
    args
}

// ---------------------------------------------------------------------------
// Commands

/// `git rev-parse --git-dir`, which fails outside a repository.
pub open spec fn repository_command() -> Seq<Seq<char>> {
    seq!["rev-parse"@, "--git-dir"@]
}

/// `git rev-parse --show-toplevel`
pub open spec fn root_command() -> Seq<Seq<char>> {
    seq!["rev-parse"@, "--show-toplevel"@]
}

/// `git rev-parse -q --verify refs/tags/<tag>`, which fails where there is no
/// such tag.
pub open spec fn tag_command(tag: Seq<char>) -> Seq<Seq<char>> {
    seq!["rev-parse"@, "-q"@, "--verify"@, "refs/tags/"@ + tag]
}

/// `git remote get-url origin`, which fails where there is no such remote.
pub open spec fn origin_command() -> Seq<Seq<char>> {
    seq!["remote"@, "get-url"@, "origin"@]
}

/// `git branch --show-current`
pub open spec fn branch_command() -> Seq<Seq<char>> {
    seq!["branch"@, "--show-current"@]
}

/// `git rev-parse -q --verify HEAD`, which fails where nothing is committed
/// yet.
pub open spec fn head_command() -> Seq<Seq<char>> {
    seq!["rev-parse"@, "-q"@, "--verify"@, "HEAD"@]
}

/// `git status --porcelain -z --untracked-files=all`
pub open spec fn status_command() -> Seq<Seq<char>> {
    seq!["status"@, "--porcelain"@, "-z"@, "--untracked-files=all"@]
}

/// `git write-tree`
pub open spec fn index_command() -> Seq<Seq<char>> {
    seq!["write-tree"@]
}

pub fn ask_repository() -> (args: Vec<String>)
    ensures
        texts(args@) == repository_command(),
{
    let list = vec!["rev-parse", "--git-dir"];
    assert(slices(list@) =~= repository_command());
    arguments(list.as_slice())
}

pub fn ask_root() -> (args: Vec<String>)
    ensures
        texts(args@) == root_command(),
{
    let list = vec!["rev-parse", "--show-toplevel"];
    assert(slices(list@) =~= root_command());
    arguments(list.as_slice())
}

/// `refs/tags/<tag>`
fn tag_ref(tag: &str) -> (name: String)
    ensures
        name@ == "refs/tags/"@ + tag@,
{
    let mut name = "refs/tags/".to_owned();
    name.append(tag);
    name
}

pub fn ask_tag(tag: &str) -> (args: Vec<String>)
    ensures
        texts(args@) == tag_command(tag@),
{
    let name = tag_ref(tag);
    let list = vec!["rev-parse", "-q", "--verify", name.as_str()];
    assert(slices(list@) =~= tag_command(tag@));
    arguments(list.as_slice())
}

pub fn ask_origin() -> (args: Vec<String>)
    ensures
        texts(args@) == origin_command(),
{
    let list = vec!["remote", "get-url", "origin"];
    assert(slices(list@) =~= origin_command());
    arguments(list.as_slice())
}

pub fn ask_branch() -> (args: Vec<String>)
    ensures
        texts(args@) == branch_command(),
{
    let list = vec!["branch", "--show-current"];
    assert(slices(list@) =~= branch_command());
    arguments(list.as_slice())
}

pub fn ask_head() -> (args: Vec<String>)
    ensures
        texts(args@) == head_command(),
{
    let list = vec!["rev-parse", "-q", "--verify", "HEAD"];
    assert(slices(list@) =~= head_command());
    arguments(list.as_slice())
}

pub fn ask_status() -> (args: Vec<String>)
    ensures
        texts(args@) == status_command(),
{
    let list = vec!["status", "--porcelain", "-z", "--untracked-files=all"];
    assert(slices(list@) =~= status_command());
    arguments(list.as_slice())
}

pub fn ask_index() -> (args: Vec<String>)
    ensures
        texts(args@) == index_command(),
{
    let list = vec!["write-tree"];
    assert(slices(list@) =~= index_command());
    arguments(list.as_slice())
}

/// Where HEAD and the index stood before a release touched them.
#[derive(Debug)]
pub struct Snapshot {
    /// `None` on a branch with no commits yet.
    pub head: Option<String>,
    /// Tree object holding the index exactly as it was, staged changes included.
    pub index: String,
}

/// A [`Snapshot`] with its texts as sequences of characters.
pub struct SnapshotModel {
    pub head: Option<Seq<char>>,
    pub index: Seq<char>,
}

impl View for Snapshot {
    type V = SnapshotModel;

    open spec fn view(&self) -> SnapshotModel {
        SnapshotModel { head: maybe_text(self.head), index: self.index@ }
    }
}

/// The command that moves HEAD from `current` back to where a snapshot found
/// it, if it has moved: to the commit there, or to a branch without commits.
pub open spec fn rewind_command(
    snapshot: SnapshotModel,
    current: Option<Seq<char>>,
) -> Option<Seq<Seq<char>>> {
    match current {
        Some(commit) => if snapshot.head == current {
            None
        } else {
            match snapshot.head {
                Some(head) => Some(
                    seq![
                        "update-ref"@,
                        "-m"@,
                        "versioner: roll back failed release"@,
                        "HEAD"@,
                        head,
                        commit,
                    ],
                ),
                None => Some(seq!["update-ref"@, "-d"@, "HEAD"@, commit]),
            }
        },
        None => None,
    }
}

/// `git read-tree <index>`
pub open spec fn reload_command(snapshot: SnapshotModel) -> Seq<Seq<char>> {
    seq!["read-tree"@, snapshot.index]
}

/// A pathspec for exactly one path from the repository root.
pub open spec fn pathspec(path: Seq<char>) -> Seq<char> {
    ":(top,literal)"@ + path
}

/// A pathspec for each path.
pub open spec fn pathspecs(paths: Seq<Seq<char>>) -> Seq<Seq<char>> {
    Seq::new(paths.len(), |i: int| pathspec(paths[i]))
}

/// The command that stages what is to be committed: the paths and nothing
/// else, or the whole worktree.
pub open spec fn stage_command(paths: Seq<Seq<char>>, all: bool) -> Seq<Seq<char>> {
    if all {
        seq!["add"@, "-A"@]
    } else {
        seq!["add"@, "--"@] + pathspecs(paths)
    }
}

/// The command that commits the paths and nothing else, or the whole worktree.
pub open spec fn commit_command(
    message: Seq<char>,
    paths: Seq<Seq<char>>,
    all: bool,
) -> Seq<Seq<char>> {
    if all {
        seq!["commit"@, "-m"@, message]
    } else {
        seq!["commit"@, "-m"@, message, "--only"@, "--"@] + pathspecs(paths)
    }
}

/// `git tag -a <tag> -m <message>`
pub open spec fn annotate_command(tag: Seq<char>, message: Seq<char>) -> Seq<Seq<char>> {
    seq!["tag"@, "-a"@, tag, "-m"@, message]
}

/// The command that pushes a branch and a tag together: both or none, where
/// `atomic`.
pub open spec fn push_command(branch: Seq<char>, tag: Seq<char>, atomic: bool) -> Seq<Seq<char>> {
    if atomic {
        seq!["push"@, "--atomic"@, "-u"@, "origin"@, branch, "refs/tags/"@ + tag]
    } else {
        seq!["push"@, "-u"@, "origin"@, branch, "refs/tags/"@ + tag]
    }
}

/// Whether a push failed because the server cannot push both or none.
pub open spec fn lacks_atomic(reason: Seq<char>) -> bool {
    occurs(reason, "does not support --atomic"@)
}

/// A list of arguments, and a pathspec for each path behind.
fn with_pathspecs(list: &[&str], paths: &[String]) -> (args: Vec<String>)
    ensures
        texts(args@) == slices(list@) + pathspecs(texts(paths@)),
{
    let mut args = arguments(list);
    let ghost start = texts(args@);
    let ghost all = texts(paths@);
    let mut at: usize = 0;
    assert(texts(args@) =~= start + pathspecs(all.take(0)));
    while at < paths.len()
        invariant
            at <= paths@.len(),
            all == texts(paths@),
            texts(args@) == start + pathspecs(all.take(at as int)),
        decreases paths@.len() - at,
    {
        let ghost before = texts(args@);
        let mut spec = ":(top,literal)".to_owned();
        spec.append(paths[at].as_str());
        let ghost added = spec@;
        args.push(spec);
        assert(texts(args@) =~= before.push(added));
        assert(pathspecs(all.take(at + 1)) =~= pathspecs(all.take(at as int)).push(added));
        at = at + 1;
    }
    assert(all.take(at as int) =~= all);
    args
}

impl Git {
    /// What git wrote verbatim. `Err` carries git's own diagnostics, whether it
    /// failed to spawn or exited non-zero.
    pub fn capture(args: &[String], ran: &Ran) -> (output: Result<String, String>)
        ensures
            match output {
                Ok(text) => captured(texts(args@), *ran) == Ok::<_, Seq<char>>(text@),
                Err(reason) => captured(texts(args@), *ran) == Err::<Seq<char>, _>(reason@),
            },
    {
        match ran {
            Ran::NotStarted(reason) => {
                let mut text = "could not run git: ".to_owned();
                text.append(reason.as_str());
                Err(text)
            },
            Ran::Exited { success, stdout, stderr } => {
                if *success {
                    return Ok(stdout.clone());
                }
                let mut text = "'".to_owned();
                text.append("git ");
                let line = join(args, " ");
                text.append(line.as_str());
                assert(text@ =~= "'"@ + ("git "@ + joined(texts(args@), " "@)));
                let detail = trim(stderr.as_str());
                if detail.as_str().is_empty() {
                    text.append("' failed");
                } else {
                    text.append("' failed: ");
                    text.append(detail.as_str());
                }
                proof {
                    if detail@.len() == 0 {
                        assert(detail@ =~= Seq::empty());
                    }
                }
                Err(text)
            },
        }
    }

    /// Whether git did what it was run for, or its own diagnostics.
    pub fn run(args: &[String], ran: &Ran) -> (done: Result<(), String>)
        ensures
            match done {
                Ok(_) => captured(texts(args@), *ran) is Ok,
                Err(reason) => captured(texts(args@), *ran) == Err::<Seq<char>, _>(reason@),
            },
    {
        match Git::capture(args, ran) {
            Ok(_) => Ok(()),
            Err(reason) => Err(reason),
        }
    }

    /// Whether git ran and succeeded.
    pub fn succeeds(ran: &Ran) -> (done: bool)
        ensures
            done == succeeded(*ran),
    {
        match ran {
            Ran::Exited { success, .. } => *success,
            Ran::NotStarted(_) => false,
        }
    }

    /// Whether [`ask_repository`] found a repository.
    pub fn is_repository(ran: &Ran) -> (is: bool)
        ensures
            is == succeeded(*ran),
    {
        Git::succeeds(ran)
    }

    /// What git wrote without the whitespace around it, if that is anything.
    fn word(ran: &Ran) -> (word: Option<String>)
        ensures
            maybe_text(word) == word_of(*ran),
    {
        match ran {
            Ran::Exited { success, stdout, .. } => {
                if !*success {
                    return None;
                }
                let line = trim(stdout.as_str());
                if line.as_str().is_empty() {
                    None
                } else {
                    Some(line)
                }
            },
            Ran::NotStarted(_) => None,
        }
    }

    /// Top level of the worktree as [`ask_root`] told it, or `None` outside a
    /// repository.
    pub fn repository_root(ran: &Ran) -> (root: Option<String>)
        ensures
            maybe_text(root) == word_of(*ran),
    {
        Git::word(ran)
    }

    /// Whether [`ask_tag`] found the tag.
    pub fn tag_exists(ran: &Ran) -> (exists_already: bool)
        ensures
            exists_already == succeeded(*ran),
    {
        Git::succeeds(ran)
    }

    /// Whether [`ask_origin`] found the remote.
    pub fn has_origin_remote(ran: &Ran) -> (has: bool)
        ensures
            has == succeeded(*ran),
    {
        Git::succeeds(ran)
    }

    /// The checked out branch as [`ask_branch`] told it, or `None` when HEAD is
    /// detached.
    pub fn current_branch(ran: &Ran) -> (branch: Option<String>)
        ensures
            maybe_text(branch) == word_of(*ran),
    {
        Git::word(ran)
    }

    /// The commit that [`ask_head`] found HEAD at.
    pub fn head(ran: &Ran) -> (head: Option<String>)
        ensures
            maybe_text(head) == line_of(*ran),
    {
        match ran {
            Ran::Exited { success, stdout, .. } => {
                if *success {
                    Some(trim(stdout.as_str()))
                } else {
                    None
                }
            },
            Ran::NotStarted(_) => None,
        }
    }

    /// Every changed path that [`ask_status`] told, none where it failed.
    pub fn changed_paths(ran: &Ran) -> (paths: Vec<String>)
        ensures
            texts(paths@) == changed_in(*ran),
    {
        match ran {
            Ran::Exited { success, stdout, .. } => {
                if *success {
                    return changed_paths(stdout.as_str());
                }
            },
            Ran::NotStarted(_) => {},
        }
        let none: Vec<String> = Vec::new();
        assert(texts(none@) =~= Seq::empty());
        none
    }

    /// What there is to go back to, from the head and what [`ask_index`] told.
    /// The latter fails during an unresolved merge, which is no time to cut a
    /// release.
    pub fn snapshot(head: Option<String>, ran: &Ran) -> (snapshot: Result<Snapshot, String>)
        ensures
            match snapshot {
                Ok(taken) => snapshot_of(maybe_text(head), *ran) == Ok::<_, Seq<char>>(taken@),
                Err(reason) => snapshot_of(maybe_text(head), *ran) == Err::<SnapshotModel, _>(
                    reason@,
                ),
            },
    {
        let args = ask_index();
        match Git::capture(args.as_slice(), ran) {
            Ok(tree) => Ok(Snapshot { head, index: trim(tree.as_str()) }),
            Err(reason) => Err(reason),
        }
    }

    /// The commands that move HEAD back to where `snapshot` found it (only if a
    /// commit was made on top) and reload the index it saved, in this order.
    pub fn restore(snapshot: &Snapshot, current: Option<&str>) -> (commands: Vec<Vec<String>>)
        ensures
            match rewind_command(snapshot@, maybe_slice(current)) {
                Some(rewind) => commands@.len() == 2 && texts(commands@[0]@) == rewind && texts(
                    commands@[1]@,
                ) == reload_command(snapshot@),
                None => commands@.len() == 1 && texts(commands@[0]@) == reload_command(snapshot@),
            },
    {
        let mut commands: Vec<Vec<String>> = Vec::new();
        if let Some(commit) = current {
            match &snapshot.head {
                Some(head) => {
                    if !same_text(head.as_str(), commit) {
                        let list = vec![
                            "update-ref",
                            "-m",
                            "versioner: roll back failed release",
                            "HEAD",
                            head.as_str(),
                            commit,
                        ];
                        let args = arguments(list.as_slice());
                        assert(texts(args@) =~= rewind_command(
                            snapshot@,
                            maybe_slice(current),
                        )->0);
                        commands.push(args);
                    }
                },
                None => {
                    // First commit on the branch: back to an unborn branch.
                    let list = vec!["update-ref", "-d", "HEAD", commit];
                    let args = arguments(list.as_slice());
                    assert(texts(args@) =~= rewind_command(snapshot@, maybe_slice(current))->0);
                    commands.push(args);
                },
            }
        }
        commands.push(Git::reload(snapshot));
        commands
    }

    /// The command that reloads the index that `snapshot` saved.
    pub fn reload(snapshot: &Snapshot) -> (args: Vec<String>)
        ensures
            texts(args@) == reload_command(snapshot@),
    {
        let list = vec!["read-tree", snapshot.index.as_str()];
        assert(slices(list@) =~= reload_command(snapshot@));
        arguments(list.as_slice())
    }

    /// The commands that commit `paths` (repo relative) and nothing else,
    /// leaving whatever else is staged still staged. With `all`, those that
    /// commit the whole worktree. The second is for where the first succeeded.
    pub fn commit(message: &str, paths: &[String], all: bool) -> (commands: (
        Vec<String>,
        Vec<String>,
    ))
        ensures
            texts(commands.0@) == stage_command(texts(paths@), all),
            texts(commands.1@) == commit_command(message@, texts(paths@), all),
    {
        if all {
            let stage = vec!["add", "-A"];
            let commit = vec!["commit", "-m", message];
            assert(slices(stage@) =~= stage_command(texts(paths@), all));
            assert(slices(commit@) =~= commit_command(message@, texts(paths@), all));
            return (arguments(stage.as_slice()), arguments(commit.as_slice()));
        }
        let stage = vec!["add", "--"];
        let commit = vec!["commit", "-m", message, "--only", "--"];
        assert(slices(stage@) =~= seq!["add"@, "--"@]);
        assert(slices(commit@) =~= seq!["commit"@, "-m"@, message@, "--only"@, "--"@]);
        (with_pathspecs(stage.as_slice(), paths), with_pathspecs(commit.as_slice(), paths))
    }

    /// The command that makes an annotated tag.
    pub fn tag(tag: &str, message: &str) -> (args: Vec<String>)
        ensures
            texts(args@) == annotate_command(tag@, message@),
    {
        let list = vec!["tag", "-a", tag, "-m", message];
        assert(slices(list@) =~= annotate_command(tag@, message@));
        arguments(list.as_slice())
    }

    /// The command that pushes the branch and the tag together, so the remote
    /// never ends up with one and not the other.
    pub fn push(branch: &str, tag: &str) -> (args: Vec<String>)
        ensures
            texts(args@) == push_command(branch@, tag@, true),
    {
        let name = tag_ref(tag);
        let list = vec!["push", "--atomic", "-u", "origin", branch, name.as_str()];
        assert(slices(list@) =~= push_command(branch@, tag@, true));
        arguments(list.as_slice())
    }

    /// A plain push, for servers that don't support `--atomic`: the command, if
    /// that is why the push failed.
    pub fn push_plainly(branch: &str, tag: &str, reason: &str) -> (args: Option<Vec<String>>)
        ensures
            match args {
                Some(args) => lacks_atomic(reason@) && texts(args@) == push_command(
                    branch@,
                    tag@,
                    false,
                ),
                None => !lacks_atomic(reason@),
            },
    {
        if contains(reason, "does not support --atomic") {
            Some(Git::plain_push(branch, tag))
        } else {
            None
        }
    }

    /// The command that pushes the branch and the tag, maybe one without the
    /// other.
    pub fn plain_push(branch: &str, tag: &str) -> (args: Vec<String>)
        ensures
            texts(args@) == push_command(branch@, tag@, false),
    {
        let name = tag_ref(tag);
        let list = vec!["push", "-u", "origin", branch, name.as_str()];
        assert(slices(list@) =~= push_command(branch@, tag@, false));
        arguments(list.as_slice())
    }
}

/// What there is to go back to.
pub open spec fn snapshot_of(head: Option<Seq<char>>, ran: Ran) -> Result<
    SnapshotModel,
    Seq<char>,
> {
    match captured(index_command(), ran) {
        Ok(tree) => Ok(SnapshotModel { head, index: trimmed(tree) }),
        Err(reason) => Err(reason),
    }
}

// ---------------------------------------------------------------------------
// Changed paths

/// The path in an `XY <path>` record, if there is one behind its third byte.
pub open spec fn path_in(record: Seq<char>) -> Option<Seq<char>> {
    let bytes = encode_utf8(record);
    if bytes.len() > 3 && is_char_boundary(bytes, 3) {
        Some(text_between(bytes, 3, bytes.len() as int))
    } else {
        None
    }
}

/// Whether a record is of a rename or a copy, of which the next record holds
/// the source.
pub open spec fn has_source(record: Seq<char>) -> bool {
    record.len() > 0 && (record[0] == 'R' || record[0] == 'C')
}

/// The paths in a list of records.
pub open spec fn paths_in(records: Seq<Seq<char>>) -> Seq<Seq<char>>
    decreases records.len(),
{
    if records.len() == 0 {
        records
    } else {
        match path_in(records[0]) {
            None => paths_in(records.drop_first()),
            Some(path) => {
                let behind = if has_source(records[0]) && records.len() > 1 {
                    records.skip(2)
                } else {
                    records.drop_first()
                };
                seq![path] + paths_in(behind)
            },
        }
    }
}

/// The paths that a status tells.
pub open spec fn changed_paths_of(status: Seq<char>) -> Seq<Seq<char>> {
    paths_in(split_at_each(status, '\0'))
}

/// The paths that git told of, none where it failed.
pub open spec fn changed_in(ran: Ran) -> Seq<Seq<char>> {
    match ran {
        Ran::Exited { success, stdout, .. } => if success {
            changed_paths_of(stdout@)
        } else {
            Seq::empty()
        },
        Ran::NotStarted(_) => Seq::empty(),
    }
}

/// Paths out of `git status --porcelain -z`: NUL-separated `XY <path>` records,
/// where a rename or copy is followed by one extra record holding its source.
pub fn changed_paths(status: &str) -> (paths: Vec<String>)
    ensures
        texts(paths@) == changed_paths_of(status@),
{
    let records = split(status, '\0');
    let ghost all = texts(records@);
    let mut paths: Vec<String> = Vec::new();
    let mut at: usize = 0;
    proof {
        assert(all.skip(0) =~= all);
        assert(paths_in(all) =~= texts(paths@) + paths_in(all.skip(0)));
    }
    while at < records.len()
        invariant
            at <= records@.len(),
            all == texts(records@),
            paths_in(all) == texts(paths@) + paths_in(all.skip(at as int)),
        decreases records@.len() - at,
    {
        let record = records[at].as_str();
        let ghost rest = all.skip(at as int);
        proof {
            assert(rest[0] == record@);
            assert(rest.drop_first() =~= all.skip(at + 1));
            encode_utf8_valid_utf8(record@);
            lemma_end_boundaries(record.spec_bytes());
        }
        let length = record.as_bytes().len();
        if length > 3 && record.is_char_boundary(3) {
            let path = cut(record, 3, length).to_owned();
            let ghost before = texts(paths@);
            let ghost added = path@;
            paths.push(path);
            let first = crate::text::chars_of(record);
            proof {
                assert(path_in(record@) == Some(added));
                assert(texts(paths@) =~= before.push(added));
                assert(first@.len() > 0) by {
                    if record@.len() == 0 {
                        assert(encode_utf8(record@).len() == 0);
                    }
                }
            }
            if (first[0] == 'R' || first[0] == 'C') && records.len() - at > 1 {
                assert(rest.skip(2) =~= all.skip(at + 2));
                assert(before + (seq![added] + paths_in(rest.skip(2))) =~= texts(paths@)
                    + paths_in(all.skip(at + 2)));
                at = at + 2;
            } else {
                assert(before + (seq![added] + paths_in(rest.drop_first())) =~= texts(paths@)
                    + paths_in(all.skip(at + 1)));
                at = at + 1;
            }
        } else {
            assert(path_in(record@) is None);
            at = at + 1;
        }
    }
    assert(all.skip(at as int) =~= Seq::empty());
    assert(paths_in(all) =~= texts(paths@));
    paths
}

/// One change in the worktree.
pub struct Change {
    /// The two letters that tell what changed.
    pub code: (char, char),
    pub path: Seq<char>,
    /// Where a renamed or copied file comes from.
    pub source: Option<Seq<char>>,
}

impl Change {
    /// Whether git writes such a change: two ASCII letters or blanks, the first
    /// of which tells a rename or a copy, and paths without NUL.
    pub open spec fn valid(self) -> bool {
        &&& '\0' < self.code.0 <= '\u{7f}'
        &&& '\0' < self.code.1 <= '\u{7f}'
        &&& self.path.len() > 0 && !self.path.contains('\0')
        &&& self.source is Some <==> self.code.0 == 'R' || self.code.0 == 'C'
        &&& self.source matches Some(source) ==> !source.contains('\0')
    }

    /// The record of the change, and that of its source.
    pub open spec fn records(self) -> Seq<Seq<char>> {
        let record = seq![self.code.0, self.code.1, ' '] + self.path;
        match self.source {
            Some(source) => seq![record, source],
            None => seq![record],
        }
    }
}

/// The records of a list of changes.
pub open spec fn all_records(changes: Seq<Change>) -> Seq<Seq<char>>
    decreases changes.len(),
{
    if changes.len() == 0 {
        Seq::empty()
    } else {
        changes[0].records() + all_records(changes.drop_first())
    }
}

/// The status that tells a list of changes: each record with a NUL behind.
pub open spec fn status_of(changes: Seq<Change>) -> Seq<char> {
    joined(all_records(changes).push(Seq::empty()), seq!['\0'])
}

/// The record of a change has its path behind three bytes.
proof fn lemma_path_in(change: Change)
    requires
        change.valid(),
    ensures
        path_in(seq![change.code.0, change.code.1, ' '] + change.path) == Some(change.path),
{
    let start = seq![change.code.0, change.code.1, ' '];
    let record = start + change.path;
    let bytes = encode_utf8(record);
    assert forall|i: int| 0 <= i < start.len() implies '\0' <= #[trigger] start[i]
        <= '\u{7f}' by {
        if i == 0 {
            assert(start[i] == change.code.0);
        } else if i == 1 {
            assert(start[i] == change.code.1);
        } else {
            assert(start[i] == ' ');
        }
    }
    is_ascii_chars_encode_utf8(start);
    lemma_encode_concat(start, change.path);
    encode_utf8_valid_utf8(record);
    assert(bytes.len() > 3) by {
        encode_utf8_first_scalar(change.path);
        encode_utf8_decode_utf8(change.path);
        if encode_utf8(change.path).len() == 0 {
            assert(encode_utf8(change.path) =~= encode_utf8(Seq::<char>::empty()));
            crate::utf8::lemma_encode_injective(change.path, Seq::empty());
        }
    }
    assert(bytes[2] < 0x80) by {
        assert(bytes[2] == encode_utf8(start)[2]);
    }
    lemma_ascii_boundaries(bytes, 2);
    assert(bytes.subrange(3, bytes.len() as int) =~= encode_utf8(change.path));
    encode_utf8_decode_utf8(change.path);
}

proof fn lemma_records(changes: Seq<Change>)
    requires
        forall|i: int| 0 <= i < changes.len() ==> (#[trigger] changes[i]).valid(),
    ensures
        forall|i: int|
            0 <= i < all_records(changes).len() ==> !(#[trigger] all_records(changes)[i]).contains(
                '\0',
            ),
        paths_in(all_records(changes).push(Seq::empty())) == Seq::new(
            changes.len(),
            |i: int| changes[i].path,
        ),
    decreases changes.len(),
{
    let none = Seq::<char>::empty();
    if changes.len() == 0 {
        let records = all_records(changes).push(none);
        assert(records.drop_first() =~= Seq::empty());
        assert(encode_utf8(none).len() == 0);
        assert(path_in(records[0]) is None);
        assert(paths_in(records.drop_first()) =~= Seq::empty());
        assert(paths_in(records) =~= Seq::new(changes.len(), |i: int| changes[i].path));
    } else {
        let change = changes[0];
        let rest = changes.drop_first();
        let record = seq![change.code.0, change.code.1, ' '] + change.path;
        let records = all_records(changes).push(none);
        assert forall|i: int| 0 <= i < rest.len() implies (#[trigger] rest[i]).valid() by {
            assert(changes[i + 1].valid());
        }
        lemma_records(rest);
        lemma_path_in(change);
        assert(record[0] == change.code.0);
        assert(records[0] == record);
        if change.source is Some {
            assert(records.skip(2) =~= all_records(rest).push(none));
        } else {
            assert(records.drop_first() =~= all_records(rest).push(none));
        }
        assert(paths_in(records) =~= Seq::new(changes.len(), |i: int| changes[i].path));
        assert(!record.contains('\0')) by {
            if record.contains('\0') {
                let at = choose|at: int| 0 <= at < record.len() && record[at] == '\0';
                if at >= 3 {
                    assert(change.path[at - 3] == '\0');
                }
            }
        }
        assert forall|i: int| 0 <= i < all_records(changes).len() implies !(
        #[trigger] all_records(changes)[i]).contains('\0') by {
            let count = change.records().len();
            if i >= count {
                assert(all_records(changes)[i] == all_records(rest)[i - count]);
            } else if i == 1 {
                assert(all_records(changes)[1] == change.source->0);
            }
        }
    }
}

/// Reading a status gives the paths of the changes that it tells, in order: of
/// a rename or a copy the destination.
pub proof fn law_status_reads_back(changes: Seq<Change>)
    requires
        forall|i: int| 0 <= i < changes.len() ==> (#[trigger] changes[i]).valid(),
    ensures
        changed_paths_of(status_of(changes)) == Seq::new(
            changes.len(),
            |i: int| changes[i].path,
        ),
{
    lemma_records(changes);
    let records = all_records(changes).push(Seq::empty());
    assert forall|i: int| 0 <= i < records.len() implies !(#[trigger] records[i]).contains(
        '\0',
    ) by {
        if i < all_records(changes).len() {
            assert(records[i] == all_records(changes)[i]);
        }
    }
    lemma_split_joined(records, '\0');
}

} // verus!
