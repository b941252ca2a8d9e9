//! Whole runs, against a repository that is kept in memory.

use std::collections::BTreeMap;

use versioner::cli::{Args, Commands, Release};
use versioner::disk::{File, Listing};
use versioner::git::Ran;
use versioner::project::Explicit;
use versioner::release::Line;
use versioner::run::{begin, run, Action, Event};

type Files = BTreeMap<String, String>;

/// A repository at `/repo`, whose index and commits hold copies of its files.
#[derive(Clone, Default)]
struct Repo {
    work: Files,
    index: Files,
    /// Saved indexes, by number.
    trees: Vec<Files>,
    /// Commit messages and files; HEAD is the last one that `head` counts.
    commits: Vec<(String, Files)>,
    head: Option<usize>,
    tags: Vec<(String, usize)>,
    origin: Option<Vec<String>>,
    detached: bool,
    outside: bool,
    /// What a commit, a tag or a push answers instead of doing its work.
    refuse_commit: Option<&'static str>,
    refuse_tag: Option<&'static str>,
    refuse_push: Vec<&'static str>,
    /// Files that cannot be written.
    locked: Vec<&'static str>,
    /// Every git command and every written path, in order.
    log: Vec<String>,
}

struct Outcome {
    lines: Vec<String>,
    error: Option<String>,
}

impl Outcome {
    fn succeeds(self) -> Self {
        assert_eq!(self.error, None);
        self
    }

    fn fails_with(self, needle: &str) -> Self {
        let error = self.error.as_deref().expect("unexpectedly succeeded");
        assert!(error.contains(needle), "{error:?} lacks {needle:?}");
        self
    }

    fn says(&self, needle: &str) {
        assert!(
            self.lines.iter().any(|line| line.contains(needle)),
            "{:?} lacks {needle:?}",
            self.lines
        );
    }
}

fn parts(path: &str) -> Vec<String> {
    let mut parts = vec!["/".to_owned()];

    parts.extend(
        path.split('/')
            .filter(|part| !part.is_empty() && *part != ".")
            .map(str::to_owned),
    );
    parts
}

fn ok(stdout: &str) -> Ran {
    Ran::Exited {
        success: true,
        stdout: stdout.to_owned(),
        stderr: String::new(),
    }
}

fn failed(stderr: &str) -> Ran {
    Ran::Exited {
        success: false,
        stdout: String::new(),
        stderr: stderr.to_owned(),
    }
}

impl Repo {
    fn new(files: &[(&str, &str)]) -> Self {
        let mut repo = Self::default();

        for (path, contents) in files {
            repo.write(path, contents);
        }

        repo.commit_all("init");
        repo
    }

    fn write(&mut self, path: &str, contents: &str) {
        self.work.insert(path.to_owned(), contents.to_owned());
    }

    fn read(&self, path: &str) -> &str {
        &self.work[path]
    }

    fn commit_all(&mut self, message: &str) {
        self.index = self.work.clone();
        self.commit(message, self.work.clone());
    }

    fn commit(&mut self, message: &str, files: Files) {
        self.commits.push((message.to_owned(), files));
        self.head = Some(self.commits.len() - 1);
    }

    fn committed(&self) -> Files {
        self.head
            .map(|head| self.commits[head].1.clone())
            .unwrap_or_default()
    }

    fn tag_names(&self) -> Vec<&str> {
        self.tags.iter().map(|(name, _)| name.as_str()).collect()
    }

    fn status(&self) -> String {
        let committed = self.committed();
        let mut status = String::new();

        for (path, contents) in &self.work {
            let code = match (committed.get(path), self.index.get(path)) {
                (None, None) => "??",
                (None, Some(_)) => "A ",
                (Some(old), _) if old != contents => " M",
                _ => continue,
            };

            status += &format!("{code} {path}\0");
        }

        status
    }

    fn git(&mut self, args: &[String]) -> Ran {
        self.log.push(args.join(" "));

        let args: Vec<&str> = args.iter().map(String::as_str).collect();

        match args.as_slice() {
            ["rev-parse", "--git-dir"] if self.outside => failed("not a repository"),
            ["rev-parse", "--git-dir"] => ok(".git\n"),
            ["rev-parse", "--show-toplevel"] => ok("/repo\n"),
            ["rev-parse", "-q", "--verify", "HEAD"] => match self.head {
                Some(head) => ok(&format!("c{head}\n")),
                None => failed(""),
            },
            ["rev-parse", "-q", "--verify", tag] => {
                let name = tag.strip_prefix("refs/tags/").unwrap();

                match self.tag_names().contains(&name) {
                    true => ok("object\n"),
                    false => failed(""),
                }
            }
            ["status", "--porcelain", "-z", "--untracked-files=all"] => ok(&self.status()),
            ["branch", "--show-current"] if self.detached => ok("\n"),
            ["branch", "--show-current"] => ok("main\n"),
            ["remote", "get-url", "origin"] => match self.origin {
                Some(_) => ok("/origin.git\n"),
                None => failed("No such remote"),
            },
            ["write-tree"] => {
                self.trees.push(self.index.clone());
                ok(&format!("t{}\n", self.trees.len() - 1))
            }
            ["read-tree", tree] => {
                self.index = self.trees[tree[1..].parse::<usize>().unwrap()].clone();
                ok("")
            }
            ["add", "-A"] => {
                self.index = self.work.clone();
                ok("")
            }
            ["add", "--", specs @ ..] => {
                for spec in specs {
                    let path = spec.strip_prefix(":(top,literal)").unwrap();
                    self.index.insert(path.to_owned(), self.work[path].clone());
                }
                ok("")
            }
            ["commit", ..] if self.refuse_commit.is_some() => failed(self.refuse_commit.unwrap()),
            ["commit", "-m", message] => {
                self.commit(message, self.index.clone());
                ok("")
            }
            ["commit", "-m", message, "--only", "--", specs @ ..] => {
                let mut files = self.committed();

                for spec in specs {
                    let path = spec.strip_prefix(":(top,literal)").unwrap();
                    files.insert(path.to_owned(), self.work[path].clone());
                }

                self.commit(message, files);
                ok("")
            }
            ["tag", ..] if self.refuse_tag.is_some() => failed(self.refuse_tag.unwrap()),
            ["tag", "-a", name, "-m", _] => {
                self.tags.push(((*name).to_owned(), self.head.unwrap()));
                ok("")
            }
            ["update-ref", "-m", _, "HEAD", old, new] => {
                assert_eq!(*new, format!("c{}", self.head.unwrap()));
                self.head = Some(old[1..].parse().unwrap());
                ok("")
            }
            ["update-ref", "-d", "HEAD", new] => {
                assert_eq!(*new, format!("c{}", self.head.unwrap()));
                self.head = None;
                ok("")
            }
            ["push", ..] if !self.refuse_push.is_empty() => failed(self.refuse_push.remove(0)),
            ["push", "--atomic", "-u", "origin", branch, tag]
            | ["push", "-u", "origin", branch, tag] => {
                let origin = self.origin.as_mut().unwrap();

                origin.push(format!("{branch}={}", self.head.unwrap()));
                origin.push((*tag).to_owned());
                ok("")
            }
            other => panic!("unexpected command {other:?}"),
        }
    }

    fn relative(path: &[String]) -> Option<String> {
        path.strip_prefix(parts("repo").as_slice())
            .map(|rest| rest.join("/"))
    }

    fn answer(&mut self, action: Action) -> Result<Event, Option<String>> {
        Ok(match action {
            Action::Git(args) => Event::Ran(self.git(&args)),
            Action::Resolve(path) => Event::Resolved(parts(&path)),
            Action::Look(path) => {
                let contents = Repo::relative(&path)
                    .and_then(|path| self.work.get(&path).cloned())
                    .ok_or("no such file".to_owned());

                Event::Looked(File {
                    is_file: contents.is_ok(),
                    path,
                    contents,
                })
            }
            Action::List(path) => {
                let prefix = Repo::relative(&path).unwrap() + "/";
                let mut directories: Vec<String> = self
                    .work
                    .keys()
                    .filter_map(|file| file.strip_prefix(&prefix)?.split_once('/'))
                    .map(|(directory, _)| directory.to_owned())
                    .rev()
                    .collect();

                directories.dedup();
                Event::Listed(Listing { path, directories })
            }
            Action::Write(path, contents) => {
                let path = Repo::relative(&path).unwrap();

                self.log.push(format!("write {path}"));

                if self.locked.contains(&path.as_str()) {
                    Event::Written(Err("read-only".to_owned()))
                } else {
                    self.work.insert(path, contents);
                    Event::Written(Ok(()))
                }
            }
            Action::End => return Err(None),
            Action::Fail(error) => return Err(Some(error.fatal())),
        })
    }

    fn runs(&mut self, args: Args) -> Outcome {
        let (mut state, mut told, mut action) = begin(args);
        let mut lines = Vec::new();

        self.log.clear();

        loop {
            lines.extend(told.into_iter().map(|line| match line {
                Line::Info(text) => format!("info: {text}"),
                Line::Warn(text) => format!("warning: {text}"),
            }));

            match self.answer(action) {
                Ok(event) => (state, told, action) = run(state, event),
                Err(error) => return Outcome { lines, error },
            }
        }
    }
}

fn release(message: &str, pre: Option<&str>) -> Release {
    Release {
        message: message.to_owned(),
        pre: pre.map(str::to_owned),
    }
}

fn args(command: Commands) -> Args {
    Args {
        command,
        dry_run: false,
        no_push: false,
        all: false,
        manifest: None,
        directory: Some(parts("repo")),
    }
}

fn major(message: &str) -> Args {
    args(Commands::Major(release(message, None)))
}

fn minor(message: &str) -> Args {
    args(Commands::Minor(release(message, None)))
}

fn patch(message: &str) -> Args {
    args(Commands::Patch(release(message, None)))
}

fn pre(message: &str, id: Option<&str>) -> Args {
    args(Commands::Pre {
        message: message.to_owned(),
        id: id.map(str::to_owned),
    })
}

const PACKAGE: &str =
    "{\n  \"name\": \"demo\",\n  \"version\": \"1.2.3\",\n  \"private\": true\n}\n";

const PACKAGE_LOCK: &str = r#"{
  "name": "demo",
  "version": "1.2.3",
  "lockfileVersion": 3,
  "requires": true,
  "packages": {
    "": {
      "name": "demo",
      "version": "1.2.3"
    }
  }
}
"#;

fn npm_repo() -> Repo {
    Repo::new(&[("package.json", PACKAGE)])
}

/// Where a repository stands, but for saved indexes and the log.
fn standing(repo: &Repo) -> (Files, Files, Option<usize>, Vec<(String, usize)>) {
    (
        repo.work.clone(),
        repo.index.clone(),
        repo.head,
        repo.tags.clone(),
    )
}

#[test]
fn bumps_commits_and_tags() {
    let mut repo = npm_repo();

    let outcome = repo.runs(patch("release 1.2.4")).succeeds();

    assert_eq!(repo.read("package.json"), PACKAGE.replace("1.2.3", "1.2.4"));
    assert_eq!(repo.commits.last().unwrap().0, "release 1.2.4");
    assert_eq!(repo.tags, [("v1.2.4".to_owned(), 1)]);
    assert_eq!(repo.status(), "");
    outcome.says("info: package.json: 1.2.3 → 1.2.4");
    outcome.says("info: successfully committed 'v1.2.4'");
    outcome.says("info: no 'origin' remote configured, push with:");
}

#[test]
fn refuses_an_existing_tag_without_touching_anything() {
    let mut repo = npm_repo();
    repo.tags.push(("v1.3.0".to_owned(), 0));
    let before = standing(&repo);

    repo.runs(minor("again"))
        .fails_with("tag 'v1.3.0' already exists");

    assert_eq!(standing(&repo), before);
}

#[test]
fn keeps_the_package_lock_in_step() {
    let mut repo = Repo::new(&[("package.json", PACKAGE), ("package-lock.json", PACKAGE_LOCK)]);

    repo.runs(major("2.0")).succeeds();

    assert_eq!(
        repo.read("package-lock.json"),
        PACKAGE_LOCK.replace("1.2.3", "2.0.0")
    );
    assert_eq!(repo.status(), "");
}

#[test]
fn updates_a_workspace_member_in_the_root_lock() {
    let lock = r#"{
  "name": "mono",
  "version": "1.0.0",
  "lockfileVersion": 3,
  "packages": {
    "": {"name": "mono", "version": "1.0.0", "workspaces": ["backend"]},
    "backend": {"name": "@mono/backend", "version": "0.4.0"},
    "node_modules/@mono/backend": {"resolved": "backend", "link": true}
  }
}
"#;
    let mut repo = Repo::new(&[
        ("package.json", r#"{"name": "mono", "version": "1.0.0"}"#),
        (
            "backend/package.json",
            r#"{"name": "@mono/backend", "version": "0.4.0"}"#,
        ),
        ("package-lock.json", lock),
    ]);

    repo.runs(Args {
        directory: Some(parts("repo/backend")),
        ..minor("backend 0.5")
    })
    .succeeds();

    assert_eq!(
        repo.read("package-lock.json"),
        lock.replace(r#""version": "0.4.0""#, r#""version": "0.5.0""#)
    );
    assert!(repo.read("package.json").contains("1.0.0"));
    assert_eq!(repo.tag_names(), ["backend-v0.5.0"]);
    assert_eq!(repo.status(), "");
}

#[test]
fn commits_only_the_version_files() {
    let mut repo = npm_repo();
    repo.write("notes.txt", "draft\n");
    repo.write("staged.txt", "staged\n");
    repo.index
        .insert("staged.txt".to_owned(), "staged\n".to_owned());

    let outcome = repo.runs(patch("just the bump")).succeeds();

    assert!(!outcome.lines.iter().any(|line| line.contains("will also include")));
    assert_eq!(repo.committed().len(), 1);
    assert_eq!(repo.status(), "?? notes.txt\0A  staged.txt\0");
}

#[test]
fn warns_when_the_manifest_already_had_changes() {
    let mut repo = npm_repo();
    repo.write(
        "package.json",
        &PACKAGE.replace("\"private\": true", "\"private\": false"),
    );

    let outcome = repo.runs(patch("bump")).succeeds();

    outcome.says("warning: package.json already had uncommitted changes");
    assert!(repo.committed()["package.json"].contains("\"private\": false"));
}

#[test]
fn all_commits_the_whole_worktree() {
    let mut repo = npm_repo();
    repo.write("notes.txt", "draft\n");

    let outcome = repo
        .runs(Args {
            all: true,
            ..patch("everything")
        })
        .succeeds();

    outcome.says("warning: this commit will also include notes.txt");
    assert!(repo.committed().contains_key("notes.txt"));
    assert_eq!(repo.status(), "");
}

#[test]
fn restores_files_and_index_when_the_commit_fails() {
    for all in [false, true] {
        let mut repo = npm_repo();
        repo.write("staged.txt", "staged\n");
        repo.index
            .insert("staged.txt".to_owned(), "staged\n".to_owned());
        repo.write("notes.txt", "draft\n");
        repo.refuse_commit = Some("hook says no\n");
        let before = standing(&repo);

        repo.runs(Args {
            all,
            ..patch("blocked")
        })
        .fails_with("hook says no — changes rolled back");

        assert_eq!(standing(&repo), before);
    }
}

#[test]
fn rolls_the_commit_back_when_tagging_fails() {
    let mut repo = npm_repo();
    repo.write("staged.txt", "staged\n");
    repo.index
        .insert("staged.txt".to_owned(), "staged\n".to_owned());
    repo.refuse_tag = Some("cannot lock ref");
    let before = standing(&repo);

    repo.runs(patch("doomed")).fails_with("changes rolled back");

    assert_eq!(standing(&repo), before);
    assert_eq!(repo.commits.len(), 2, "the version commit was made");
}

#[test]
fn rolls_back_to_an_unborn_branch() {
    let mut repo = Repo::default();
    repo.write("package.json", PACKAGE);
    repo.index = repo.work.clone();
    repo.refuse_tag = Some("cannot lock ref");
    let before = standing(&repo);

    repo.runs(patch("first")).fails_with("changes rolled back");

    assert_eq!(standing(&repo), before);
    assert_eq!(repo.head, None);
}

#[test]
fn restores_what_was_written_when_a_write_fails() {
    let mut repo = Repo::new(&[("package.json", PACKAGE), ("package-lock.json", PACKAGE_LOCK)]);
    repo.locked = vec!["package-lock.json"];
    let before = standing(&repo);

    repo.runs(major("2.0"))
        .fails_with("failed to write package-lock.json: read-only — changes rolled back");

    assert_eq!(standing(&repo), before);
    assert_eq!(
        repo.log[repo.log.len() - 4..],
        [
            "write package.json",
            "write package-lock.json",
            "write package.json",
            "write package-lock.json",
        ]
    );
}

#[test]
fn tells_what_could_not_be_restored() {
    let mut repo = npm_repo();
    repo.refuse_commit = Some("no");
    let (mut state, _, mut action) = begin(patch("x"));
    let mut told = Vec::new();

    let error = loop {
        // The file turns read-only once it is written.
        if matches!(&action, Action::Git(args) if args[0] == "commit") {
            repo.locked = vec!["package.json"];
        }

        let event = match (repo.answer(action), repo.log.last().map(String::as_str)) {
            (Ok(_), Some("read-tree t0")) => Event::Ran(failed("bad tree")),
            (Ok(event), _) => event,
            (Err(error), _) => break error,
        };
        let lines;

        (state, lines, action) = run(state, event);
        told.extend(lines);
    };

    assert_eq!(error.as_deref(), Some("'git commit -m x --only -- :(top,literal)package.json' failed: no — changes rolled back"));
    assert!(matches!(
        &told[..],
        [.., Line::Warn(index), Line::Warn(files)]
            if index == "could not restore the repository: 'git read-tree t0' failed: bad tree"
                && files == "could not restore package.json"
    ));
}

#[test]
fn refuses_to_start_where_the_index_cannot_be_saved() {
    let mut repo = npm_repo();
    let (mut state, _, mut action) = begin(patch("x"));

    let error = loop {
        let event = match (repo.answer(action), repo.log.last().map(String::as_str)) {
            (Ok(_), Some("write-tree")) => Event::Ran(failed("unmerged")),
            (Ok(event), _) => event,
            (Err(error), _) => break error,
        };

        (state, _, action) = run(state, event);
    };

    assert_eq!(
        error.as_deref(),
        Some("could not snapshot the index: 'git write-tree' failed: unmerged")
    );
    assert_eq!(repo.read("package.json"), PACKAGE);
}

#[test]
fn dry_run_changes_nothing() {
    let mut repo = Repo::new(&[("package.json", PACKAGE), ("package-lock.json", PACKAGE_LOCK)]);
    repo.origin = Some(Vec::new());
    let before = standing(&repo);

    let outcome = repo
        .runs(Args {
            dry_run: true,
            ..minor("preview")
        })
        .succeeds();

    outcome.says("would update package.json: 1.2.3 → 1.3.0");
    outcome.says("would update package-lock.json: 1.2.3 → 1.3.0");
    outcome.says("would commit package.json, package-lock.json: 'preview'");
    outcome.says("would tag 'v1.3.0'");
    outcome.says("would push main and 'v1.3.0' to origin");

    assert_eq!(standing(&repo), before);
    assert_eq!(repo.origin, Some(Vec::new()));
    assert_eq!(
        repo.log,
        [
            "rev-parse --git-dir",
            "rev-parse --show-toplevel",
            "rev-parse -q --verify refs/tags/v1.3.0",
            "status --porcelain -z --untracked-files=all",
            "branch --show-current",
            "remote get-url origin",
        ]
    );
}

#[test]
fn dry_run_still_refuses_an_existing_tag() {
    let mut repo = npm_repo();
    repo.tags.push(("v1.2.4".to_owned(), 0));

    repo.runs(Args {
        dry_run: true,
        ..patch("x")
    })
    .fails_with("already exists");
}

#[test]
fn pushes_branch_and_tag_to_origin() {
    let mut repo = npm_repo();
    repo.origin = Some(Vec::new());

    let outcome = repo.runs(patch("ship it")).succeeds();

    assert_eq!(
        repo.origin.as_deref().unwrap(),
        [format!("main={}", repo.head.unwrap()), "refs/tags/v1.2.4".to_owned()]
    );
    assert_eq!(repo.tag_names(), ["v1.2.4"]);
    assert_eq!(
        repo.log.last().unwrap(),
        "push --atomic -u origin main refs/tags/v1.2.4"
    );
    outcome.says("info: pushed main and 'v1.2.4' to origin");
}

#[test]
fn no_push_keeps_everything_local() {
    let mut repo = npm_repo();
    repo.origin = Some(Vec::new());

    let outcome = repo
        .runs(Args {
            no_push: true,
            ..patch("local")
        })
        .succeeds();

    outcome.says("not pushing (--no-push)");
    outcome.says("git push --atomic -u origin main v1.2.4");
    assert_eq!(repo.tag_names(), ["v1.2.4"]);
    assert_eq!(repo.origin, Some(Vec::new()));
}

#[test]
fn a_failed_push_leaves_the_release_in_place() {
    let mut repo = npm_repo();
    repo.origin = Some(Vec::new());
    repo.refuse_push = vec!["rejected"];

    let outcome = repo.runs(patch("ship it")).succeeds();

    assert_eq!(repo.tag_names(), ["v1.2.4"]);
    assert_eq!(repo.status(), "");
    assert_eq!(
        outcome.lines[outcome.lines.len() - 2..],
        [
            "warning: 'git push --atomic -u origin main refs/tags/v1.2.4' failed: rejected",
            "info: changes exist locally, push with: 'git push --atomic -u origin main v1.2.4'",
        ]
    );
}

#[test]
fn falls_back_to_a_plain_push() {
    let mut repo = npm_repo();
    repo.origin = Some(Vec::new());
    repo.refuse_push = vec!["fatal: the receiving end does not support --atomic push"];

    repo.runs(patch("ship it")).succeeds();

    assert_eq!(
        repo.log.last().unwrap(),
        "push -u origin main refs/tags/v1.2.4"
    );
    assert_eq!(repo.origin.as_ref().unwrap().len(), 2);

    repo.refuse_push = vec![
        "fatal: the receiving end does not support --atomic push",
        "rejected",
    ];

    let outcome = repo.runs(patch("again")).succeeds();

    outcome.says("warning: 'git push -u origin main refs/tags/v1.2.5' failed: rejected");
}

#[test]
fn pushes_nothing_from_a_detached_head() {
    let mut repo = npm_repo();
    repo.origin = Some(Vec::new());
    repo.detached = true;

    let outcome = repo.runs(patch("x")).succeeds();

    outcome.says("detached HEAD, nothing to push to, push with: 'git push origin v1.2.4'");
}

#[test]
fn walks_through_a_pre_release_cycle() {
    let mut repo = npm_repo();

    repo.runs(args(Commands::Minor(release("beta", Some("beta")))))
        .succeeds();
    assert!(repo.read("package.json").contains("\"1.3.0-beta.0\""));

    repo.runs(pre("beta 1", None)).succeeds();
    assert!(repo.read("package.json").contains("\"1.3.0-beta.1\""));

    repo.runs(pre("rc", Some("rc"))).succeeds();
    assert!(repo.read("package.json").contains("\"1.3.0-rc.0\""));

    repo.runs(pre("back to beta", Some("beta")))
        .fails_with("would move the version backwards");

    repo.runs(minor("final")).succeeds();
    assert!(repo.read("package.json").contains("\"1.3.0\""));

    assert_eq!(
        repo.tag_names(),
        ["v1.3.0-beta.0", "v1.3.0-beta.1", "v1.3.0-rc.0", "v1.3.0"]
    );
}

#[test]
fn rejects_a_malformed_pre_release_id() {
    let mut repo = npm_repo();

    repo.runs(args(Commands::Major(release("x", Some("be ta")))))
        .fails_with("invalid pre-release identifier");
}

const CARGO_LOCK: &str = r#"# This file is automatically @generated by Cargo.
version = 4

[[package]]
name = "demo"
version = "0.1.0"
dependencies = [
 "itoa",
]

[[package]]
name = "itoa"
version = "0.1.0"
source = "registry+https://github.com/rust-lang/crates.io-index"
"#;

#[test]
fn bumps_a_crate_and_its_lock_entry() {
    let manifest =
        "[package]\nname = \"demo\"\nversion = \"0.1.0\" # the crate\nedition = \"2024\"\n";
    let mut repo = Repo::new(&[("Cargo.toml", manifest), ("Cargo.lock", CARGO_LOCK)]);

    repo.runs(minor("0.2")).succeeds();

    assert_eq!(repo.read("Cargo.toml"), manifest.replace("0.1.0", "0.2.0"));

    // Only the local crate moves; the registry dependency at 0.1.0 stays put.
    let lock = repo.read("Cargo.lock");
    assert!(
        lock.contains("name = \"demo\"\nversion = \"0.2.0\""),
        "{lock}"
    );
    assert!(
        lock.contains("name = \"itoa\"\nversion = \"0.1.0\""),
        "{lock}"
    );
    assert_eq!(repo.tag_names(), ["v0.2.0"]);
    assert_eq!(repo.status(), "");
}

#[test]
fn bumps_a_cargo_workspace_and_every_inheriting_member() {
    let mut repo = Repo::new(&[
        (
            "Cargo.toml",
            "[workspace]\nmembers = [\"crates/*\"]\nexclude = [\"crates/skip\"]\n\n[workspace.package]\nversion = \"1.0.0\"\n",
        ),
        (
            "crates/core/Cargo.toml",
            "[package]\nname = \"core\"\nversion.workspace = true\n",
        ),
        (
            "crates/cli/Cargo.toml",
            "[package]\nname = \"cli\"\nversion = { workspace = true }\n",
        ),
        (
            "crates/own/Cargo.toml",
            "[package]\nname = \"own\"\nversion = \"1.0.0\"\n",
        ),
        (
            "crates/skip/Cargo.toml",
            "[package]\nname = \"skip\"\nversion.workspace = true\n",
        ),
        (
            "Cargo.lock",
            "version = 4\n\n[[package]]\nname = \"cli\"\nversion = \"1.0.0\"\n\n[[package]]\nname = \"core\"\nversion = \"1.0.0\"\n\n[[package]]\nname = \"own\"\nversion = \"1.0.0\"\n\n[[package]]\nname = \"skip\"\nversion = \"1.0.0\"\n",
        ),
    ]);

    repo.runs(major("2.0")).succeeds();

    let lock = repo.read("Cargo.lock");
    assert!(
        lock.contains("name = \"cli\"\nversion = \"2.0.0\""),
        "{lock}"
    );
    assert!(
        lock.contains("name = \"core\"\nversion = \"2.0.0\""),
        "{lock}"
    );
    assert!(
        lock.contains("name = \"own\"\nversion = \"1.0.0\""),
        "{lock}"
    );
    assert!(
        lock.contains("name = \"skip\"\nversion = \"1.0.0\""),
        "{lock}"
    );
    assert!(repo.read("Cargo.toml").contains("version = \"2.0.0\""));
}

#[test]
fn points_an_inheriting_member_at_the_workspace_root() {
    let mut repo = Repo::new(&[
        ("Cargo.toml", "[workspace]\nmembers = [\"core\"]\n"),
        (
            "core/Cargo.toml",
            "[package]\nname = \"core\"\nversion.workspace = true\n",
        ),
    ]);

    repo.runs(Args {
        directory: Some(parts("repo/core")),
        ..patch("x")
    })
    .fails_with("run versioner from the workspace root");
}

#[test]
fn bumps_a_python_project_and_its_uv_lock() {
    let lock = r#"version = 1
revision = 2
requires-python = ">=3.12"

[[package]]
name = "my-lib"
version = "0.9.0"
source = { editable = "." }
dependencies = [
    { name = "requests" },
]

[[package]]
name = "requests"
version = "0.9.0"
source = { registry = "https://pypi.org/simple" }
"#;
    let mut repo = Repo::new(&[
        (
            "pyproject.toml",
            "[project]\nname = \"My_Lib\"\nversion = \"0.9.0\"\n",
        ),
        ("uv.lock", lock),
    ]);

    repo.runs(minor("1.0 soon")).succeeds();

    assert_eq!(
        repo.read("pyproject.toml"),
        "[project]\nname = \"My_Lib\"\nversion = \"0.10.0\"\n"
    );
    assert_eq!(
        repo.read("uv.lock"),
        lock.replacen("version = \"0.9.0\"", "version = \"0.10.0\"", 1)
    );
    assert_eq!(repo.status(), "");
}

#[test]
fn bumps_a_poetry_project() {
    let mut repo = Repo::new(&[(
        "pyproject.toml",
        "[tool.poetry]\nname = \"old\"\nversion = \"1.0.0\"\n",
    )]);

    repo.runs(patch("fix")).succeeds();

    assert!(repo.read("pyproject.toml").contains("version = \"1.0.1\""));
}

#[test]
fn asks_which_manifest_when_several_carry_a_version() {
    let mut repo = Repo::new(&[
        ("package.json", PACKAGE),
        (
            "Cargo.toml",
            "[package]\nname = \"demo\"\nversion = \"0.1.0\"\n",
        ),
    ]);

    repo.runs(patch("x")).fails_with("pick one with --manifest");

    repo.runs(Args {
        manifest: Some(Explicit {
            path: parts("repo/Cargo.toml"),
            shown: "/repo/Cargo.toml".to_owned(),
        }),
        ..patch("cargo only")
    })
    .succeeds();

    assert!(repo.read("Cargo.toml").contains("0.1.1"));
    assert_eq!(repo.read("package.json"), PACKAGE);
}

#[test]
fn skips_a_package_json_without_a_version() {
    let mut repo = Repo::new(&[
        (
            "package.json",
            r#"{"private": true, "devDependencies": {}}"#,
        ),
        (
            "pyproject.toml",
            "[project]\nname = \"tool\"\nversion = \"0.1.0\"\n",
        ),
    ]);

    repo.runs(patch("x")).succeeds();

    assert!(repo.read("pyproject.toml").contains("0.1.1"));
}

#[test]
fn fails_outside_a_repository() {
    let mut repo = npm_repo();
    repo.outside = true;

    repo.runs(patch("x")).fails_with("not a git repository");
}

#[test]
fn refuses_a_version_that_is_no_semver() {
    let mut repo = Repo::new(&[("pyproject.toml", "[project]\nversion = \"1.0.0rc1\"\n")]);

    repo.runs(patch("x")).fails_with(
        "invalid version '1.0.0rc1', expected semver: x.y.z[-pre][+build]",
    );
}

#[test]
fn ends_on_an_event_that_answers_nothing() {
    let (state, _, _) = begin(patch("x"));

    let (_, lines, action) = run(state, Event::Written(Ok(())));

    assert!(lines.is_empty());
    assert!(matches!(action, Action::End));
}

#[test]
fn a_release_takes_its_steps_in_order() {
    let mut repo = npm_repo();
    repo.origin = Some(Vec::new());

    repo.runs(minor("feat: search")).succeeds();

    let last: Vec<&str> = repo.log.iter().map(String::as_str).collect();
    let start = last.iter().position(|step| *step == "write-tree").unwrap();

    assert_eq!(
        last[start..],
        [
            "write-tree",
            "write package.json",
            "add -- :(top,literal)package.json",
            "commit -m feat: search --only -- :(top,literal)package.json",
            "tag -a v1.3.0 -m feat: search",
            "push --atomic -u origin main refs/tags/v1.3.0",
        ]
    );
}

#[test]
fn no_push_never_pushes() {
    let mut repo = npm_repo();
    repo.origin = Some(Vec::new());

    let mut args = minor("x");
    args.no_push = true;
    repo.runs(args).succeeds();

    assert!(repo.log.iter().all(|step| !step.starts_with("push")));
}
