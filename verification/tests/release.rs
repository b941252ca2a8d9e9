//! What a release tells the user.

use versioner::edit::Edit;
use versioner::release::{listed, plan_push, preview, push_hint, warn_about_changes, Line, Push};

fn list(texts: &[&str]) -> Vec<String> {
    texts.iter().map(|text| (*text).to_owned()).collect()
}

fn shown(lines: Vec<Line>) -> Vec<String> {
    lines
        .into_iter()
        .map(|line| match line {
            Line::Info(text) => format!("info: {text}"),
            Line::Warn(text) => format!("warning: {text}"),
        })
        .collect()
}

fn edit(label: &str, from: &str) -> Edit {
    Edit {
        path: vec![label.to_owned()],
        label: label.to_owned(),
        from: from.to_owned(),
        original: String::new(),
        updated: String::new(),
    }
}

#[test]
fn lists_up_to_two_paths_by_name() {
    assert_eq!(listed(&[]), None);
    assert_eq!(listed(&list(&["a"])).as_deref(), Some("a"));
    assert_eq!(listed(&list(&["a", "b"])).as_deref(), Some("a and b"));
    assert_eq!(
        listed(&list(&["a", "b", "c", "d"])).as_deref(),
        Some("a and 3 other files")
    );
}

#[test]
fn warns_about_what_a_commit_carries() {
    let changed = list(&["x", "b", "y"]);
    let paths = list(&["a", "b"]);

    assert_eq!(
        shown(warn_about_changes(&changed, &paths, false)),
        ["warning: b already had uncommitted changes, the version commit will include them"]
    );
    assert_eq!(
        shown(warn_about_changes(&changed, &paths, true)),
        [
            "warning: b already had uncommitted changes, the version commit will include them",
            "warning: this commit will also include x and y",
        ]
    );
    assert!(warn_about_changes(&[], &paths, true).is_empty());
}

#[test]
fn plans_the_push() {
    let main = || Some("main".to_owned());
    let skipped = |push: Push| match push {
        Push::To(branch) => panic!("pushes to {branch}"),
        Push::Skip { hint, reason } => format!("{reason}, {hint}"),
    };

    assert!(matches!(
        plan_push("v1.0.0", false, main(), true),
        Push::To(branch) if branch == "main"
    ));
    assert_eq!(
        skipped(plan_push("v1.0.0", true, main(), true)),
        "not pushing (--no-push), push with: 'git push --atomic -u origin main v1.0.0'"
    );
    assert_eq!(
        skipped(plan_push("v1.0.0", false, main(), false)),
        "no 'origin' remote configured, push with: 'git push --atomic -u origin main v1.0.0'"
    );
    assert_eq!(
        skipped(plan_push("v1.0.0", false, None, true)),
        "detached HEAD, nothing to push to, push with: 'git push origin v1.0.0'"
    );
    assert_eq!(push_hint(None, "v1"), "push with: 'git push origin v1'");
}

#[test]
fn previews_every_step() {
    let edits = [edit("package.json", "1.2.3"), edit("package-lock.json", "1.2.2")];
    let lines = preview(
        &edits,
        "1.3.0",
        "v1.3.0",
        "feat",
        false,
        &Push::To("main".to_owned()),
    );

    assert_eq!(
        shown(lines),
        [
            "info: dry run, nothing will be written",
            "info: would update package.json: 1.2.3 → 1.3.0",
            "info: would update package-lock.json: 1.2.2 → 1.3.0",
            "info: would commit package.json, package-lock.json: 'feat'",
            "info: would tag 'v1.3.0'",
            "info: would push main and 'v1.3.0' to origin",
        ]
    );

    let skip = Push::Skip {
        hint: "later".to_owned(),
        reason: "not now".to_owned(),
    };
    assert_eq!(
        shown(preview(&[], "1.0.0", "v1.0.0", "m", true, &skip)),
        [
            "info: dry run, nothing will be written",
            "info: would commit every change in the worktree: 'm'",
            "info: would tag 'v1.0.0'",
            "info: would not push: not now",
        ]
    );
}
