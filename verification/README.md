# versioner

Bump a project's version, commit it, tag it and push it, in one command, and
without leaving a mess behind when something fails halfway. Works on
`package.json`, `Cargo.toml` and `pyproject.toml`, and keeps their lockfiles in
step.

```
versioner <major|minor|patch> <message> [--pre <id>]
versioner pre <message> [--id <id>]
```

with `--dry-run`, `--no-push`, `--all` and `--manifest PATH`.

## Layout

- `src/` is the library, written and proved in Verus. It touches neither the
  file system nor git: a run is a sequence of steps, each of which says what to
  do next and takes what came of it.
- `app/` is the program: it reads the command line, does what the steps say and
  prints what they tell.
- `tests/` runs the library on concrete projects.

| Module | What it holds |
| ------ | ------------- |
| `version`, `precedence` | semantic versions: reading, printing, bumping, ordering |
| `scan` | where keys and strings stand in JSON and TOML text, so that only the version is rewritten |
| `document` | what is known of the documents that `serde_json` and `toml` parse |
| `manifest`, `lockfile`, `project` | which file carries the version, which files follow it, and how it is tagged |
| `git`, `release`, `run` | the commands, the messages and the steps of a release |
| `course`, `rollback`, `pushing` | what holds of every run: a dry run changes nothing, a failed release is undone, a failed push is not |

## What is trusted

`document` states what `serde_json` and `toml` do, over names for what they
parse; `lockfile` does the same for `char::to_lowercase` and `text` for
`String::push`. Everything else is proved.
