//! Git commands and what their results mean.

use versioner::git::{changed_paths, Git, Ran, Snapshot};

#[test]
fn keeps_the_first_path_intact() {
    let status = " M before.json\0 M other.txt\0";

    assert_eq!(changed_paths(status), ["before.json", "other.txt"]);
}

#[test]
fn reads_every_status_code_column() {
    let status = "?? new.txt\0M  staged.txt\0A  added.txt\0MM both.txt\0";

    assert_eq!(
        changed_paths(status),
        ["new.txt", "staged.txt", "added.txt", "both.txt"]
    );
}

#[test]
fn reports_the_destination_of_a_rename() {
    let status = "R  new.txt\0old.txt\0 M after.txt\0";

    assert_eq!(changed_paths(status), ["new.txt", "after.txt"]);
}

#[test]
fn keeps_special_characters_verbatim() {
    let status = "?? sp ace \"q\".txt\0";

    assert_eq!(changed_paths(status), ["sp ace \"q\".txt"]);
}

#[test]
fn a_clean_tree_has_no_paths() {
    assert_eq!(changed_paths(""), [] as [String; 0]);
}

#[test]
fn skips_records_without_a_path() {
    assert_eq!(changed_paths(" M \0ab\0?? x\0"), ["x"]);
    // The fourth byte is inside a character.
    assert_eq!(changed_paths("ab é\0ab\u{20ac}x\0?? y\0"), ["é", "y"]);
}

#[test]
fn reads_back_a_status_of_renames_and_changes() {
    let status = "C  to\0from\0R  new\0C  old\0A  x\0";

    assert_eq!(changed_paths(status), ["to", "new", "x"]);
}

fn exited(success: bool, stdout: &str, stderr: &str) -> Ran {
    Ran::Exited {
        success,
        stdout: stdout.to_owned(),
        stderr: stderr.to_owned(),
    }
}

fn list(texts: &[&str]) -> Vec<String> {
    texts.iter().map(|text| (*text).to_owned()).collect()
}

#[test]
fn passes_on_what_git_says() {
    let args = list(&["commit", "-m", "x"]);

    assert_eq!(
        Git::capture(&args, &exited(true, " out\n", "noise")),
        Ok(" out\n".to_owned())
    );
    assert_eq!(
        Git::capture(&args, &exited(false, "", "\n hook says no \n")),
        Err("'git commit -m x' failed: hook says no".to_owned())
    );
    assert_eq!(
        Git::run(&args, &exited(false, "out", " \n")),
        Err("'git commit -m x' failed".to_owned())
    );
    assert_eq!(
        Git::run(&args, &Ran::NotStarted("not found".to_owned())),
        Err("could not run git: not found".to_owned())
    );
    assert!(Git::succeeds(&exited(true, "", "")));
    assert!(!Git::succeeds(&Ran::NotStarted(String::new())));
}

#[test]
fn reads_single_words() {
    assert_eq!(Git::current_branch(&exited(true, "main\n", "")).as_deref(), Some("main"));
    assert_eq!(Git::current_branch(&exited(true, "\n", "")), None);
    assert_eq!(Git::current_branch(&exited(false, "main", "")), None);
    assert_eq!(Git::repository_root(&exited(true, "/repo\n", "")).as_deref(), Some("/repo"));
    assert_eq!(Git::head(&exited(true, "abc\n", "")).as_deref(), Some("abc"));
    assert_eq!(Git::head(&exited(false, "", "")), None);
    assert_eq!(Git::changed_paths(&exited(true, "?? a\0", "")), ["a"]);
    assert!(Git::changed_paths(&exited(false, "?? a\0", "")).is_empty());

    let snapshot = Git::snapshot(Some("abc".to_owned()), &exited(true, "tree\n", "")).unwrap();
    assert_eq!(snapshot.head.as_deref(), Some("abc"));
    assert_eq!(snapshot.index, "tree");
    assert_eq!(
        Git::snapshot(None, &exited(false, "", "unmerged")).unwrap_err(),
        "'git write-tree' failed: unmerged"
    );
}

#[test]
fn commits_only_the_given_paths_unless_told_otherwise() {
    let paths = list(&["a", "b c"]);

    let (stage, commit) = Git::commit("msg", &paths, false);
    assert_eq!(stage, ["add", "--", ":(top,literal)a", ":(top,literal)b c"]);
    assert_eq!(
        commit,
        ["commit", "-m", "msg", "--only", "--", ":(top,literal)a", ":(top,literal)b c"]
    );

    let (stage, commit) = Git::commit("msg", &paths, true);
    assert_eq!(stage, ["add", "-A"]);
    assert_eq!(commit, ["commit", "-m", "msg"]);
}

#[test]
fn pushes_both_or_none_where_it_can() {
    assert_eq!(
        Git::push("main", "v1"),
        ["push", "--atomic", "-u", "origin", "main", "refs/tags/v1"]
    );
    assert_eq!(
        Git::push_plainly(
            "main",
            "v1",
            "fatal: the receiving end does not support --atomic push"
        ),
        Some(list(&["push", "-u", "origin", "main", "refs/tags/v1"]))
    );
    assert_eq!(Git::push_plainly("main", "v1", "rejected"), None);
    assert_eq!(Git::tag("v1", "msg"), ["tag", "-a", "v1", "-m", "msg"]);
}

#[test]
fn restores_head_only_where_it_moved() {
    let snapshot = Snapshot {
        head: Some("old".to_owned()),
        index: "tree".to_owned(),
    };

    assert_eq!(Git::restore(&snapshot, Some("old")), [["read-tree", "tree"]]);
    assert_eq!(Git::restore(&snapshot, None), [["read-tree", "tree"]]);
    assert_eq!(
        Git::restore(&snapshot, Some("new")),
        [
            list(&[
                "update-ref",
                "-m",
                "versioner: roll back failed release",
                "HEAD",
                "old",
                "new",
            ]),
            list(&["read-tree", "tree"]),
        ]
    );

    let unborn = Snapshot {
        head: None,
        index: "tree".to_owned(),
    };
    assert_eq!(
        Git::restore(&unborn, Some("new")),
        [
            list(&["update-ref", "-d", "HEAD", "new"]),
            list(&["read-tree", "tree"]),
        ]
    );
}
