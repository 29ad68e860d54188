# sic

Userland package manager for ~/.local: installs, upgrades, and removes packages under a user prefix
without touching the system. The logic is a library written in Verus; each of its functions carries
a contract that the verifier proves.

## Layout

- `src/` — the library.
  - `package_name`, `version`, `dep_constraint`, `source`, `manifest` — what a package is: names,
    the order of versions, constraints, hashes, manifests.
  - `resolver/` — from a request to a plan. `available` indexes the packages, `choice` chooses a
    manifest for a name, `search` selects packages, `settle` parts what is selected from what is left
    to the system and checks that it holds together, `circle` finds circular dependencies, `order`
    orders the steps, `request` puts it together. `laws`, `order_laws`, `circle_laws` and
    `strict_laws` hold what is proved of every plan: among it that dependencies come before
    dependents, and that the lockfile of a plan gives that plan again, where the plan leaves no
    choice between alternatives.
  - `storage/`, `prefix`, `transaction`, `stage`, `fetch`, `system_packages`, `doctor` — what is
    decided about the prefix, its databases and the work on it. `undo` models a
    prefix: its files and links, its database and the staging directory. It proves that a rollback
    gives everything back as it was at the start, at whatever change a commit broke off, for steps
    that saw all that stood of a package before they copied over it.
  - `cli/`, `term`, `failure`, `documents` — the commands, and what they print.
  - `text`, `paths`, `lists`, `table`, `views` — what the rest is built on.
- `app/` — the `sic` command: arguments, files, network, locks, and the encodings of documents.
- `tests/` — tests of the library.

## Commands

- `install <name> [names...]` — resolve and install packages.
- `upgrade [name]` — upgrade one package, or all installed.
- `remove <name> [names...]` — remove packages; fails if dependents exist unless `--force`.
- `status` — list installed packages, and how they stand to the lockfile.
- `resolve-only [name]` — print the plan; no fetch or commit.
- `search [pattern]` — list available packages.
- `doctor` — check layout, lockfile and links.

Exit codes: 0 success, 1 resolver failure, 2 fetch, stage or commit failure, 3 anything else.

## What is trusted

A few functions are not proved but believed, because they are calls to other crates or to the
standard library. Each stands behind a small function marked `external_body`, or, for
`String::push`, has an `assume_specification`; a comment says what is believed of it (`text`,
`term`, `documents`, `storage/cache`, `fetch`). The documents rely on `serde_json` and `toml` to keep
tables in the order in which they were filled, which their feature `preserve_order` sees to.
