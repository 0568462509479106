# qtcloud-devops

A command line tool for the release and health chores of a repository:
proposing the next version from the commit log, planning and publishing a
release (manifests, changelog, tag, GitHub release), reporting the release
state of each scope, checking submodules, and running and auditing tests.

## Layout

- `src/` — the library, written in Verus: version tags and their bumps, the
  changelog and its release notes, release plans and their checks, the
  pre-release audit, the release status report, submodule health, test
  summaries and test audits, the format rules of planning files. Its
  functions are verified against their contracts, except a handful of
  small trusted wrappers around outside code, marked
  `#[verifier::external_body]`: `semver` parsing and comparison, `jiff`'s
  current date (which states nothing of its result), and a few `std` text
  operations (`String::push`, `str::to_lowercase`, `Debug` output). Laws
  that relate several functions (what a write gives back to a read, what a
  state always keeps) are stated and proved as `law_*` proof functions.
- `app/` — the command line around the library: argument handling, files,
  `git`, `gh` and `cargo`, and the floating-point percentages of coverage.
  No language-model client is linked: the release decision comes from the
  commit heuristic alone, and a changelog entry that would need a summary
  of the commit log is reported with the log, to be written by hand.
- `tests/` — tests of the library on concrete values.

## Commands

```
qtcloud-devops release status | detect | audit [-v V] [--all] | stage -v V | publish [-v V] [-y]
qtcloud-devops code status [--offline]
qtcloud-devops test run | status | audit [--all]
qtcloud-devops plan doctor [--fix]
```
