//! Test runs and test audits: the commands that run a project's tests,
//! the summary read from their output, and what an audit reads from the
//! sources.

use vstd::prelude::*;
use crate::release::{join_path, join_path_exec, string_views, strip_path_prefix, strip_path_prefix_exec};
use crate::scope::Scope;
use crate::tag::str_eq;
use crate::submodule::{lemma_name_lt_irreflexive, lemma_name_lt_transitive, name_less, name_lt};
use crate::text::{
    chars_of, contains, contains_exec, decimal, decimal_exec, find, find_char_exec, has_char,
    has_char_exec, lines, lines_exec, parse_u32, parse_u32_exec, slice_of, split, split_exec,
    starts_with, starts_with_exec, string_of, strip_prefix, trim, trim_exec, views, words,
    words_exec, count_char, count_char_exec, ends_with, ends_with_exec, lemma_count_two,
    lemma_lines_sum_len, lemma_trim_len, lemma_views_push, sum_len, parse_usize, parse_usize_exec,
    append_str, append, find_exec, lemma_find, find_char_from, strip_cr_exec, prefix_before,
    strip_cr, lemma_contains_strip_cr, lemma_split_strip_cr, lemma_trim_strip_cr, lemma_lines_concat,
    lemma_single_char_match, matches_at,
};

verus! {

/// The language of a scope, as its contract declares it.
#[derive(Debug, Clone, PartialEq, Eq)]
pub enum Language {
    Rust,
    Python,
    Go,
    Dart,
    TypeScript,
    Unknown(String),
}

pub open spec fn strs_view(a: Seq<&str>) -> Seq<Seq<char>> {
    a.map_values(|x: &str| x@)
}

/// The command that runs a language's tests.
pub open spec fn test_command_spec(lang: Language) -> Option<(Seq<char>, Seq<Seq<char>>)> {
    match lang {
        Language::Rust => Some(("cargo"@, seq!["test"@])),
        Language::Python => Some(("python"@, seq!["-m"@, "pytest"@])),
        Language::Go => Some(("go"@, seq!["test"@, "./..."@])),
        Language::Dart => Some(("flutter"@, seq!["test"@])),
        Language::TypeScript => Some(("npm"@, seq!["test"@])),
        Language::Unknown(_) => None,
    }
}

pub open spec fn command_view(c: Option<(&str, Vec<&str>)>) -> Option<(Seq<char>, Seq<Seq<char>>)> {
    match c {
        Some((p, a)) => Some((p@, strs_view(a@))),
        None => None,
    }
}

pub fn test_command(lang: &Language) -> (r: Option<(&'static str, Vec<&'static str>)>)
    ensures
        command_view(r) == test_command_spec(*lang),
{
    let r = match lang {
        Language::Rust => Some(("cargo", vec!["test"])),
        Language::Python => Some(("python", vec!["-m", "pytest"])),
        Language::Go => Some(("go", vec!["test", "./..."])),
        Language::Dart => Some(("flutter", vec!["test"])),
        Language::TypeScript => Some(("npm", vec!["test"])),
        Language::Unknown(_) => None,
    };
    proof {
        if r is Some {
            assert(strs_view(r.unwrap().1@) =~= test_command_spec(*lang).unwrap().1);
        }
    }
    r
}

/// The command that produces a language's coverage report.
pub open spec fn coverage_command_spec(lang: Language) -> Option<(Seq<char>, Seq<Seq<char>>)> {
    match lang {
        Language::Rust => Some(
            ("cargo"@, seq!["llvm-cov"@, "--lcov"@, "--output-path"@, "target/coverage/lcov.info"@]),
        ),
        Language::Python => Some(("coverage"@, seq!["xml"@])),
        Language::Go => Some(
            ("go"@, seq!["tool"@, "cover"@, "-html=coverage.out"@, "-o"@, "coverage.html"@]),
        ),
        Language::Dart => Some(("flutter"@, seq!["test"@, "--coverage"@])),
        Language::TypeScript => Some(("npx"@, seq!["nyc"@, "--reporter=lcov"@, "npm"@, "test"@])),
        Language::Unknown(_) => None,
    }
}

pub fn coverage_command(lang: &Language) -> (r: Option<(&'static str, Vec<&'static str>)>)
    ensures
        command_view(r) == coverage_command_spec(*lang),
{
    let r = match lang {
        Language::Rust => Some(
            ("cargo", vec!["llvm-cov", "--lcov", "--output-path", "target/coverage/lcov.info"]),
        ),
        Language::Python => Some(("coverage", vec!["xml"])),
        Language::Go => Some(("go", vec!["tool", "cover", "-html=coverage.out", "-o", "coverage.html"])),
        Language::Dart => Some(("flutter", vec!["test", "--coverage"])),
        Language::TypeScript => Some(("npx", vec!["nyc", "--reporter=lcov", "npm", "test"])),
        Language::Unknown(_) => None,
    };
    proof {
        if r is Some {
            assert(strs_view(r.unwrap().1@) =~= coverage_command_spec(*lang).unwrap().1);
        }
    }
    r
}

/// The manifest whose presence shows that a project of the language can be
/// tested.
pub open spec fn manifest_spec(lang: Language) -> Option<Seq<char>> {
    match lang {
        Language::Rust => Some("Cargo.toml"@),
        Language::Python => Some("pyproject.toml"@),
        Language::Go => Some("go.mod"@),
        Language::Dart => Some("pubspec.yaml"@),
        Language::TypeScript => Some("package.json"@),
        Language::Unknown(_) => None,
    }
}

pub fn test_manifest_file(lang: &Language) -> (r: Option<&'static str>)
    ensures
        match r {
            Some(m) => manifest_spec(*lang) == Some(m@),
            None => manifest_spec(*lang) is None,
        },
{
    match lang {
        Language::Rust => Some("Cargo.toml"),
        Language::Python => Some("pyproject.toml"),
        Language::Go => Some("go.mod"),
        Language::Dart => Some("pubspec.yaml"),
        Language::TypeScript => Some("package.json"),
        Language::Unknown(_) => None,
    }
}

/// The language of a directory from the manifests it holds, tried in the
/// order Rust (`Cargo.toml`), Python (`pyproject.toml`), Go (`go.mod`),
/// Dart (`pubspec.yaml`), TypeScript (`package.json`); none of them gives
/// an unknown language.
pub fn language_by_manifest(cargo: bool, pyproject: bool, gomod: bool, pubspec: bool, package_json: bool) -> (r: Language)
    ensures
        cargo ==> r is Rust,
        !cargo && pyproject ==> r is Python,
        !cargo && !pyproject && gomod ==> r is Go,
        !cargo && !pyproject && !gomod && pubspec ==> r is Dart,
        !cargo && !pyproject && !gomod && !pubspec && package_json ==> r is TypeScript,
        !cargo && !pyproject && !gomod && !pubspec && !package_json ==> (r matches Language::Unknown(s)
            && s@.len() == 0),
{
    if cargo {
        Language::Rust
    } else if pyproject {
        Language::Python
    } else if gomod {
        Language::Go
    } else if pubspec {
        Language::Dart
    } else if package_json {
        Language::TypeScript
    } else {
        Language::Unknown(String::new())
    }
}

/// The arguments of `cargo llvm-cov` for Rust coverage, with `-j` when a
/// number of parallel jobs is given.
pub open spec fn rust_coverage_args_spec(jobs: nat) -> Seq<Seq<char>> {
    seq!["llvm-cov"@, "--lcov"@, "--output-path"@, "target/coverage/lcov.info"@] + if jobs > 0 {
        seq!["-j"@, decimal(jobs)]
    } else {
        Seq::empty()
    }
}

pub fn rust_coverage_args(jobs: usize) -> (r: Vec<String>)
    ensures
        string_views(r@) == rust_coverage_args_spec(jobs as nat),
{
    let mut args: Vec<String> = Vec::new();
    args.push("llvm-cov".to_owned());
    args.push("--lcov".to_owned());
    args.push("--output-path".to_owned());
    args.push("target/coverage/lcov.info".to_owned());
    if jobs > 0 {
        args.push("-j".to_owned());
        let d = decimal_exec(jobs as u64);
        args.push(string_of(d.as_slice()));
    }
    assert(string_views(args@) =~= rust_coverage_args_spec(jobs as nat));
    args
}

/// Where the summary of the last test run is kept, inside a scope's
/// directory.
pub fn cache_path(dir: &str) -> (r: String)
    ensures
        r@ == join_path(dir@, ".quanttide/devops/test-summary.json"@),
{
    join_path_exec(dir, ".quanttide/devops/test-summary.json")
}

// ───────────────────────────── test summaries ─────────────────────────────

/// The counts of a test run.
#[derive(Debug)]
pub struct TestSummary {
    pub total: u32,
    pub passed: u32,
    pub failed: u32,
    pub skipped: u32,
}

impl Default for TestSummary {
    fn default() -> (s: Self)
        ensures
            s.total == 0 && s.passed == 0 && s.failed == 0 && s.skipped == 0,
    {
        TestSummary { total: 0, passed: 0, failed: 0, skipped: 0 }
    }
}

/// Counts as (passed, failed, ignored).
pub type Counts = (nat, nat, nat);

pub open spec fn add_counts(a: Counts, b: Counts) -> Counts {
    (a.0 + b.0, a.1 + b.1, a.2 + b.2)
}

/// What one `;`-separated part of a result line counts: `<n> passed`,
/// `<n> failed` or `<n> ignored` as its last two words.
pub open spec fn part_counts(part: Seq<char>) -> Counts {
    let w = words(trim(part));
    if w.len() < 2 {
        (0, 0, 0)
    } else {
        let kind = w[w.len() - 1];
        match parse_u32(w[w.len() - 2]) {
            None => (0, 0, 0),
            Some(n) => if kind == "passed"@ {
                (n as nat, 0, 0)
            } else if kind == "failed"@ {
                (0, n as nat, 0)
            } else if kind == "ignored"@ {
                (0, 0, n as nat)
            } else {
                (0, 0, 0)
            },
        }
    }
}

pub open spec fn parts_counts(parts: Seq<Seq<char>>) -> Counts
    decreases parts.len(),
{
    if parts.len() == 0 {
        (0, 0, 0)
    } else {
        add_counts(parts_counts(parts.drop_last()), part_counts(parts.last()))
    }
}

/// What a line counts: only a `test result:` line counts.
pub open spec fn line_counts(l: Seq<char>) -> Counts {
    if contains(l, "test result:"@) {
        parts_counts(split(l, ';'))
    } else {
        (0, 0, 0)
    }
}

pub open spec fn lines_counts(ls: Seq<Seq<char>>) -> Counts
    decreases ls.len(),
{
    if ls.len() == 0 {
        (0, 0, 0)
    } else {
        add_counts(lines_counts(ls.drop_last()), line_counts(ls.last()))
    }
}

/// The counts of a test run's output: the sums over all its result lines.
pub open spec fn summary_counts(content: Seq<char>) -> Counts {
    lines_counts(lines(content))
}

/// The counts fit in the summary: their sum is a `u32`.
pub open spec fn summary_fits(content: Seq<char>) -> bool {
    let c = summary_counts(content);
    c.0 + c.1 + c.2 <= u32::MAX
}

/// A line counts the same once `lines` drops its trailing `\r`.
proof fn lemma_line_counts_strip_cr(l: Seq<char>)
    ensures
        line_counts(strip_cr(l)) == line_counts(l),
{
    reveal_strlit("test result:");
    lemma_contains_strip_cr(l, "test result:"@);
    lemma_split_strip_cr(l, ';');
    let ps = split(l, ';');
    let last = ps.last();
    let qs = ps.update(ps.len() - 1, strip_cr(last));
    lemma_trim_strip_cr(last);
    assert(part_counts(strip_cr(last)) == part_counts(last));
    assert(qs.drop_last() =~= ps.drop_last());
    assert(parts_counts(qs) == parts_counts(ps));
}

/// The counts of two runs of lines add up.
proof fn lemma_lines_counts_concat(x: Seq<Seq<char>>, y: Seq<Seq<char>>)
    ensures
        lines_counts(x + y) == add_counts(lines_counts(x), lines_counts(y)),
    decreases y.len(),
{
    if y.len() == 0 {
        assert(x + y =~= x);
    } else {
        lemma_lines_counts_concat(x, y.drop_last());
        assert((x + y).drop_last() =~= x + y.drop_last());
        assert((x + y).last() == y.last());
    }
}

proof fn lemma_summary_counts_join(a: Seq<char>, b: Seq<char>)
    ensures
        lines_counts(lines(a + seq!['\n'] + b)) == add_counts(lines_counts(lines(a)), lines_counts(lines(b))),
    decreases a.len(),
{
    lemma_find(a, seq!['\n']);
    match find(a, seq!['\n']) {
        Some(k) => {
            lemma_single_char_match(a, '\n', k);
            let a0 = a.take(k);
            let rest = a.skip(k + 1);
            assert forall|j: int| 0 <= j < a0.len() implies a0[j] != '\n' by {
                lemma_single_char_match(a, '\n', j);
            }
            assert(!has_char(a0, '\n'));
            assert(a =~= a0 + seq!['\n'] + rest);
            lemma_lines_concat(a0, rest);
            assert(a + seq!['\n'] + b =~= a0 + seq!['\n'] + (rest + seq!['\n'] + b));
            lemma_lines_concat(a0, rest + seq!['\n'] + b);
            lemma_summary_counts_join(rest, b);
            lemma_lines_counts_concat(seq![strip_cr(a0)], lines(rest));
            lemma_lines_counts_concat(seq![strip_cr(a0)], lines(rest + seq!['\n'] + b));
            assert(seq![strip_cr(a0)].drop_last() =~= Seq::<Seq<char>>::empty());
        },
        None => {
            assert forall|j: int| 0 <= j < a.len() implies a[j] != '\n' by {
                lemma_single_char_match(a, '\n', j);
            }
            assert(!has_char(a, '\n'));
            lemma_lines_concat(a, b);
            lemma_lines_counts_concat(seq![strip_cr(a)], lines(b));
            assert(seq![strip_cr(a)].drop_last() =~= Seq::<Seq<char>>::empty());
            lemma_line_counts_strip_cr(a);
            if a.len() == 0 {
                reveal_strlit("test result:");
                assert(!contains(a, "test result:"@)) by {
                    if contains(a, "test result:"@) {
                        let j = choose|j: int| matches_at(a, "test result:"@, j);
                    }
                }
            } else {
                assert(lines(a) == seq![a]);
                assert(seq![a].drop_last() =~= Seq::<Seq<char>>::empty());
            }
        },
    }
}

/// Law: the counts of two test outputs joined by a line break are the sums
/// of their counts.
pub proof fn law_summary_counts_add(a: Seq<char>, b: Seq<char>)
    ensures
        summary_counts(a + seq!['\n'] + b) == add_counts(summary_counts(a), summary_counts(b)),
{
    lemma_summary_counts_join(a, b);
}

pub proof fn lemma_parts_prefix(parts: Seq<Seq<char>>, k: int)
    requires
        0 <= k <= parts.len(),
    ensures
        parts_counts(parts.take(k)).0 <= parts_counts(parts).0,
        parts_counts(parts.take(k)).1 <= parts_counts(parts).1,
        parts_counts(parts.take(k)).2 <= parts_counts(parts).2,
    decreases parts.len() - k,
{
    if k < parts.len() {
        lemma_parts_prefix(parts, k + 1);
        assert(parts.take(k + 1).drop_last() =~= parts.take(k));
    } else {
        assert(parts.take(k) =~= parts);
    }
}

pub proof fn lemma_lines_prefix(ls: Seq<Seq<char>>, k: int)
    requires
        0 <= k <= ls.len(),
    ensures
        lines_counts(ls.take(k)).0 <= lines_counts(ls).0,
        lines_counts(ls.take(k)).1 <= lines_counts(ls).1,
        lines_counts(ls.take(k)).2 <= lines_counts(ls).2,
    decreases ls.len() - k,
{
    if k < ls.len() {
        lemma_lines_prefix(ls, k + 1);
        assert(ls.take(k + 1).drop_last() =~= ls.take(k));
    } else {
        assert(ls.take(k) =~= ls);
    }
}

fn part_counts_exec(part: &[char]) -> (r: (u32, u32, u32))
    ensures
        (r.0 as nat, r.1 as nat, r.2 as nat) == part_counts(part@),
{
    let t = trim_exec(part);
    let w = words_exec(t.as_slice());
    if w.len() < 2 {
        return (0, 0, 0);
    }
    let n = w.len();
    assert(w@[n - 1]@ == words(trim(part@))[n - 1]);
    assert(w@[n - 2]@ == words(trim(part@))[n - 2]);
    let kind = string_of(w[n - 1].as_slice());
    match parse_u32_exec(w[n - 2].as_slice()) {
        None => (0, 0, 0),
        Some(k) => {
            if str_eq(kind.as_str(), "passed") {
                (k, 0, 0)
            } else if str_eq(kind.as_str(), "failed") {
                (0, k, 0)
            } else if str_eq(kind.as_str(), "ignored") {
                (0, 0, k)
            } else {
                (0, 0, 0)
            }
        },
    }
}

/// Reads the counts of a test run from its output (`cargo test` result
/// lines, one per test binary).
pub fn parse_test_summary(content: &str) -> (s: TestSummary)
    requires
        summary_fits(content@),
    ensures
        s.passed == summary_counts(content@).0,
        s.failed == summary_counts(content@).1,
        s.skipped == summary_counts(content@).2,
        s.total == s.passed + s.failed + s.skipped,
{
    match try_parse_test_summary(content) {
        Some(s) => s,
        None => vstd::pervasive::unreached(),
    }
}

/// `parse_test_summary` for any output: `None` exactly when the counts do
/// not fit in the summary.
pub fn try_parse_test_summary(content: &str) -> (r: Option<TestSummary>)
    ensures
        r is Some <==> summary_fits(content@),
        r matches Some(s) ==> {
            &&& s.passed == summary_counts(content@).0
            &&& s.failed == summary_counts(content@).1
            &&& s.skipped == summary_counts(content@).2
            &&& s.total == s.passed + s.failed + s.skipped
        },
{
    let c = chars_of(content);
    let ls = lines_exec(c.as_slice());
    let ghost all = views(ls@);
    let ghost total = lines_counts(all);
    let marker = chars_of("test result:");
    let mut passed: u32 = 0;
    let mut failed: u32 = 0;
    let mut skipped: u32 = 0;
    let mut i: usize = 0;
    while i < ls.len()
        invariant
            i <= ls.len(),
            all == views(ls@),
            all == lines(content@),
            total == lines_counts(all),
            marker@ == "test result:"@,
            (passed as nat, failed as nat, skipped as nat) == lines_counts(all.take(i as int)),
        decreases ls.len() - i,
    {
        proof {
            assert(all.take(i + 1).drop_last() =~= all.take(i as int));
            assert(all.take(i + 1).last() == ls@[i as int]@);
            lemma_lines_prefix(all, i + 1);
        }
        let line = &ls[i];
        if contains_exec(line.as_slice(), marker.as_slice()) {
            let parts = split_exec(line.as_slice(), ';');
            let ghost pv = views(parts@);
            let ghost before = (passed as nat, failed as nat, skipped as nat);
            let ghost lc = parts_counts(pv);
            let mut j: usize = 0;
            while j < parts.len()
                invariant
                    j <= parts.len(),
                    pv == views(parts@),
                    lc == parts_counts(pv),
                    add_counts(before, lc) == lines_counts(all.take(i + 1)),
                    lines_counts(all.take(i + 1)).0 <= total.0,
                    lines_counts(all.take(i + 1)).1 <= total.1,
                    lines_counts(all.take(i + 1)).2 <= total.2,
                    total == lines_counts(all),
                    all == lines(content@),
                    (passed as nat, failed as nat, skipped as nat) == add_counts(before, parts_counts(pv.take(j as int))),
                decreases parts.len() - j,
            {
                proof {
                    assert(pv.take(j + 1).drop_last() =~= pv.take(j as int));
                    assert(pv.take(j + 1).last() == parts@[j as int]@);
                    lemma_parts_prefix(pv, j + 1);
                }
                let (p, f, k) = part_counts_exec(parts[j].as_slice());
                let np = passed.checked_add(p);
                let nf = failed.checked_add(f);
                let nk = skipped.checked_add(k);
                match (np, nf, nk) {
                    (Some(a), Some(b), Some(d)) => {
                        passed = a;
                        failed = b;
                        skipped = d;
                    },
                    _ => {
                        return None;
                    },
                }
                j = j + 1;
            }
            assert(pv.take(parts.len() as int) =~= pv);
        }
        i = i + 1;
    }
    assert(all.take(ls.len() as int) =~= all);
    let sum: u64 = passed as u64 + failed as u64 + skipped as u64;
    if sum > 0xffff_ffff {
        return None;
    }
    Some(TestSummary { total: passed + failed + skipped, passed, failed, skipped })
}

/// How a test summary is shown: an icon (failures, skips, all passed, or
/// no tests) and a line of detail.
pub open spec fn summary_status_spec(total: u32, passed: u32, failed: u32, skipped: u32) -> (Seq<char>, Seq<char>) {
    let icon = if failed > 0 {
        "❌"@
    } else if skipped > 0 {
        "⚠"@
    } else if total > 0 {
        "✅"@
    } else {
        "—"@
    };
    let detail = if total > 0 {
        if failed > 0 {
            decimal(failed as nat) + " / "@ + decimal(total as nat) + " 失败"@
        } else if skipped > 0 {
            decimal(passed as nat) + " 通过 / "@ + decimal(skipped as nat) + " 跳过 / "@ + decimal(total as nat)
                + " 总计"@
        } else {
            decimal(total as nat) + " ✅ 全部通过"@
        }
    } else {
        "暂无测试"@
    };
    (icon, detail)
}

/// Law: how a test summary is reported. Any failed test makes it a failure,
/// however many were skipped: the icon is ❌ and, when there were tests, the
/// detail counts the failures against the total. Without failures, skipped
/// tests give ⚠ with passed, skipped and total; all passed gives ✅ with the
/// total; no tests at all give — and "暂无测试".
pub proof fn law_summary_report(total: u32, passed: u32, failed: u32, skipped: u32)
    ensures
        failed > 0 ==> summary_status_spec(total, passed, failed, skipped).0 == "❌"@,
        failed > 0 && total > 0 ==> summary_status_spec(total, passed, failed, skipped).1 == decimal(failed as nat)
            + " / "@ + decimal(total as nat) + " 失败"@,
        failed == 0 && skipped > 0 ==> summary_status_spec(total, passed, failed, skipped).0 == "⚠"@,
        failed == 0 && skipped > 0 && total > 0 ==> summary_status_spec(total, passed, failed, skipped).1 == decimal(
            passed as nat,
        ) + " 通过 / "@ + decimal(skipped as nat) + " 跳过 / "@ + decimal(total as nat) + " 总计"@,
        failed == 0 && skipped == 0 && total > 0 ==> summary_status_spec(total, passed, failed, skipped) == (
            "✅"@,
            decimal(total as nat) + " ✅ 全部通过"@,
        ),
        total == 0 ==> summary_status_spec(total, passed, failed, skipped).1 == "暂无测试"@,
        failed == 0 && skipped == 0 && total == 0 ==> summary_status_spec(total, passed, failed, skipped).0
            == "—"@,
{
}

pub fn summary_status(s: &TestSummary) -> (r: (&'static str, String))
    ensures
        (r.0@, r.1@) == summary_status_spec(s.total, s.passed, s.failed, s.skipped),
{
    let icon = if s.failed > 0 {
        "❌"
    } else if s.skipped > 0 {
        "⚠"
    } else if s.total > 0 {
        "✅"
    } else {
        "—"
    };
    let mut d: Vec<char> = Vec::new();
    if s.total > 0 {
        if s.failed > 0 {
            append(&mut d, decimal_exec(s.failed as u64).as_slice());
            append_str(&mut d, " / ");
            append(&mut d, decimal_exec(s.total as u64).as_slice());
            append_str(&mut d, " 失败");
        } else if s.skipped > 0 {
            append(&mut d, decimal_exec(s.passed as u64).as_slice());
            append_str(&mut d, " 通过 / ");
            append(&mut d, decimal_exec(s.skipped as u64).as_slice());
            append_str(&mut d, " 跳过 / ");
            append(&mut d, decimal_exec(s.total as u64).as_slice());
            append_str(&mut d, " 总计");
        } else {
            append(&mut d, decimal_exec(s.total as u64).as_slice());
            append_str(&mut d, " ✅ 全部通过");
        }
    } else {
        append_str(&mut d, "暂无测试");
    }
    (icon, string_of(d.as_slice()))
}

/// Where a scope's coverage report may lie, in the order to try: the LCOV
/// traces of a Rust scope, the Cobertura reports of a Python scope, none
/// for the other languages.
pub open spec fn coverage_paths_spec(dir: Seq<char>, lang: Language) -> Seq<Seq<char>> {
    match lang {
        Language::Rust => seq![join_path(dir, "target/coverage/lcov.info"@), join_path(dir, "coverage/lcov.info"@)],
        Language::Python => seq![join_path(dir, "coverage.xml"@), join_path(dir, "htmlcov/coverage.xml"@)],
        _ => Seq::empty(),
    }
}

pub fn coverage_report_paths(dir: &str, lang: &Language) -> (r: Vec<String>)
    ensures
        string_views(r@) == coverage_paths_spec(dir@, *lang),
{
    let mut v: Vec<String> = Vec::new();
    match lang {
        Language::Rust => {
            v.push(join_path_exec(dir, "target/coverage/lcov.info"));
            v.push(join_path_exec(dir, "coverage/lcov.info"));
        },
        Language::Python => {
            v.push(join_path_exec(dir, "coverage.xml"));
            v.push(join_path_exec(dir, "htmlcov/coverage.xml"));
        },
        _ => {},
    }
    assert(string_views(v@) =~= coverage_paths_spec(dir@, *lang));
    v
}

// ───────────────────────────── reading sources ─────────────────────────────

/// The text before the first character that `stop` holds of.
pub open spec fn prefix_until(s: Seq<char>, stop: spec_fn(char) -> bool) -> Seq<char>
    decreases s.len(),
{
    if s.len() == 0 || stop(s[0]) {
        Seq::empty()
    } else {
        seq![s[0]] + prefix_until(s.drop_first(), stop)
    }
}

pub proof fn lemma_prefix_until(s: Seq<char>, stop: spec_fn(char) -> bool, i: int)
    requires
        0 <= i <= s.len(),
        forall|k: int| 0 <= k < i ==> !stop(#[trigger] s[k]),
        i == s.len() || stop(s[i]),
    ensures
        prefix_until(s, stop) == s.take(i),
    decreases i,
{
    if i > 0 {
        lemma_prefix_until(s.drop_first(), stop, i - 1);
        assert(seq![s[0]] + s.drop_first().take(i - 1) =~= s.take(i));
    } else {
        assert(s.take(0) =~= Seq::<char>::empty());
    }
}

/// Where the name in an enum declaration ends.
pub open spec fn decl_stop(c: char) -> bool {
    c == '{' || c == ' ' || c == '\t'
}

/// Where a variant's name ends.
pub open spec fn variant_stop(c: char) -> bool {
    c == '(' || c == '{' || c == ',' || c == ' ' || c == '\t'
}

fn take_until_decl_stop(v: &[char]) -> (r: Vec<char>)
    ensures
        r@ == prefix_until(v@, |c: char| decl_stop(c)),
{
    let mut i: usize = 0;
    while i < v.len() && !(v[i] == '{' || v[i] == ' ' || v[i] == '\t')
        invariant
            i <= v.len(),
            forall|k: int| 0 <= k < i ==> !decl_stop(#[trigger] v@[k]),
        decreases v.len() - i,
    {
        i = i + 1;
    }
    proof {
        let stop = |c: char| decl_stop(c);
        assert forall|k: int| 0 <= k < i implies !stop(#[trigger] v@[k]) by {
            assert(!decl_stop(v@[k]));
        }
        lemma_prefix_until(v@, stop, i as int);
    }
    slice_of(v, 0, i)
}

fn take_until_variant_stop(v: &[char]) -> (r: Vec<char>)
    ensures
        r@ == prefix_until(v@, |c: char| variant_stop(c)),
{
    let mut i: usize = 0;
    while i < v.len() && !(v[i] == '(' || v[i] == '{' || v[i] == ',' || v[i] == ' ' || v[i] == '\t')
        invariant
            i <= v.len(),
            forall|k: int| 0 <= k < i ==> !variant_stop(#[trigger] v@[k]),
        decreases v.len() - i,
    {
        i = i + 1;
    }
    proof {
        let stop = |c: char| variant_stop(c);
        assert forall|k: int| 0 <= k < i implies !stop(#[trigger] v@[k]) by {
            assert(!variant_stop(v@[k]));
        }
        lemma_prefix_until(v@, stop, i as int);
    }
    slice_of(v, 0, i)
}

/// The name an error enum declaration (`pub enum ...Error ...`) declares.
pub open spec fn error_enum_name(line: Seq<char>) -> Option<Seq<char>> {
    match strip_prefix(trim(line), "pub enum "@) {
        None => None,
        Some(rest) => {
            let name = prefix_until(rest, |c: char| decl_stop(c));
            if contains(name, "Error"@) || contains(name, "error"@) {
                Some(name)
            } else {
                None
            }
        },
    }
}

/// Recognises the declaration of an error enum and returns its name.
pub fn is_error_enum_declaration(line: &str) -> (r: Option<String>)
    ensures
        match r {
            Some(n) => error_enum_name(line@) == Some(n@),
            None => error_enum_name(line@) is None,
        },
{
    let v = chars_of(line);
    let t = trim_exec(v.as_slice());
    let p = chars_of("pub enum ");
    if !starts_with_exec(t.as_slice(), p.as_slice()) {
        return None;
    }
    let rest = slice_of(t.as_slice(), p.len(), t.len());
    assert(rest@ =~= t@.skip(p@.len() as int));
    let name = take_until_decl_stop(rest.as_slice());
    let e1 = chars_of("Error");
    let e2 = chars_of("error");
    if contains_exec(name.as_slice(), e1.as_slice()) || contains_exec(name.as_slice(), e2.as_slice()) {
        Some(string_of(name.as_slice()))
    } else {
        None
    }
}

/// The name of the variant a line of an enum body declares; none for blank
/// lines, comments and attributes.
pub open spec fn variant_name(line: Seq<char>) -> Option<Seq<char>> {
    let t = trim(line);
    if t.len() == 0 || starts_with(t, "//"@) || starts_with(t, "#["@) {
        None
    } else {
        let name = trim(prefix_until(t, |c: char| variant_stop(c)));
        if name.len() == 0 || starts_with(name, "#"@) {
            None
        } else {
            Some(name)
        }
    }
}

/// Reads the variant name from a line of an enum body.
pub fn extract_variant_name(line: &str) -> (r: Option<String>)
    ensures
        match r {
            Some(n) => variant_name(line@) == Some(n@),
            None => variant_name(line@) is None,
        },
{
    let v = chars_of(line);
    let t = trim_exec(v.as_slice());
    let slashes = chars_of("//");
    let attr = chars_of("#[");
    if t.len() == 0 || starts_with_exec(t.as_slice(), slashes.as_slice()) || starts_with_exec(
        t.as_slice(),
        attr.as_slice(),
    ) {
        return None;
    }
    let head = take_until_variant_stop(t.as_slice());
    let name = trim_exec(head.as_slice());
    let hash = chars_of("#");
    if name.len() == 0 || starts_with_exec(name.as_slice(), hash.as_slice()) {
        None
    } else {
        Some(string_of(name.as_slice()))
    }
}

/// The name of the test function a `#[test]` line at `i` introduces: the
/// next line, trimmed, reads `fn <name>(`.
pub open spec fn test_fn_at(ls: Seq<Seq<char>>, i: int) -> Option<Seq<char>> {
    if trim(ls[i]) == "#[test]"@ {
        match strip_prefix(trim(ls[i + 1]), "fn "@) {
            Some(rest) => match find(rest, seq!['(']) {
                Some(e) => Some(rest.take(e)),
                None => None,
            },
            None => None,
        }
    } else {
        None
    }
}

pub open spec fn opt_seq(o: Option<Seq<char>>) -> Seq<Seq<char>> {
    match o {
        Some(x) => seq![x],
        None => Seq::empty(),
    }
}

/// The test functions introduced at the first `n` lines.
pub open spec fn test_fns_upto(ls: Seq<Seq<char>>, n: int) -> Seq<Seq<char>>
    decreases n,
{
    if n <= 0 {
        Seq::empty()
    } else {
        test_fns_upto(ls, n - 1) + opt_seq(test_fn_at(ls, n - 1))
    }
}

/// The names of the `#[test]` functions of a source file.
pub open spec fn test_fns_spec(content: Seq<char>) -> Seq<Seq<char>> {
    let ls = lines(content);
    test_fns_upto(ls, if ls.len() > 0 { ls.len() - 1 } else { 0 })
}

/// Appends the names of the `#[test]` functions of a source file to `fns`.
pub fn collect_test_fns(content: &str, fns: &mut Vec<String>)
    ensures
        string_views(final(fns)@) == string_views(old(fns)@) + test_fns_spec(content@),
{
    let c = chars_of(content);
    let ls = lines_exec(c.as_slice());
    let ghost all = views(ls@);
    let ghost start = string_views(fns@);
    let test_attr = chars_of("#[test]");
    let fn_kw = chars_of("fn ");
    let n: usize = if ls.len() > 0 { ls.len() - 1 } else { 0 };
    let mut i: usize = 0;
    assert(start + test_fns_upto(all, 0) =~= start);
    while i < n
        invariant
            i <= n,
            n == (if ls.len() > 0 { ls.len() - 1 } else { 0 }),
            all == views(ls@),
            all == lines(content@),
            test_attr@ == "#[test]"@,
            fn_kw@ == "fn "@,
            string_views(fns@) == start + test_fns_upto(all, i as int),
        decreases n - i,
    {
        let t = trim_exec(ls[i].as_slice());
        let ghost before = string_views(fns@);
        assert(all[i as int] == ls@[i as int]@);
        assert(all[i + 1] == ls@[i + 1]@);
        if t.len() == test_attr.len() && starts_with_exec(t.as_slice(), test_attr.as_slice()) {
            assert(t@ =~= test_attr@);
            let next = trim_exec(ls[i + 1].as_slice());
            if starts_with_exec(next.as_slice(), fn_kw.as_slice()) {
                let rest = slice_of(next.as_slice(), fn_kw.len(), next.len());
                assert(rest@ =~= next@.skip(fn_kw@.len() as int));
                match find_char_exec(rest.as_slice(), '(') {
                    Some(e) => {
                        let name = slice_of(rest.as_slice(), 0, e);
                        assert(name@ =~= rest@.take(e as int));
                        let s = string_of(name.as_slice());
                        fns.push(s);
                        assert(trim(all[i as int]) == "#[test]"@);
                        assert(trim(all[i + 1]) == next@);
                        assert(strip_prefix(next@, "fn "@) == Some(rest@));
                        assert(test_fn_at(all, i as int) == Some(name@));
                        assert(string_views(fns@) =~= before.push(s@));
                    },
                    None => {},
                }
            }
        } else {
            proof {
                if trim(all[i as int]) == "#[test]"@ {
                    assert(t@ == test_attr@);
                    assert(t@.subrange(0, t@.len() as int) =~= t@);
                    assert(false);
                }
            }
        }
        proof {
            assert(opt_seq(None) =~= Seq::<Seq<char>>::empty());
        }
        assert(string_views(fns@) =~= start + test_fns_upto(all, i + 1));
        i = i + 1;
    }
}

/// The name of the public function a line declares (`pub fn <name>(`),
/// unless it is empty, starts with `_` or holds a space.
pub open spec fn pub_fn_of(line: Seq<char>) -> Option<Seq<char>> {
    match strip_prefix(trim(line), "pub fn "@) {
        Some(rest) => match find(rest, seq!['(']) {
            Some(e) => {
                let name = trim(rest.take(e));
                if name.len() > 0 && name[0] != '_' && !has_char(name, ' ') {
                    Some(name)
                } else {
                    None
                }
            },
            None => None,
        },
        None => None,
    }
}

pub open spec fn pub_fns_spec(ls: Seq<Seq<char>>, path: Seq<char>) -> Seq<(Seq<char>, Seq<char>)>
    decreases ls.len(),
{
    if ls.len() == 0 {
        Seq::empty()
    } else {
        let rest = pub_fns_spec(ls.drop_last(), path);
        match pub_fn_of(ls.last()) {
            Some(n) => rest.push((n, path)),
            None => rest,
        }
    }
}

pub open spec fn named_views(v: Seq<(String, String)>) -> Seq<(Seq<char>, Seq<char>)> {
    v.map_values(|p: (String, String)| (p.0@, p.1@))
}

/// Appends the public functions a source file declares, each with the
/// file's path, to `fns`.
pub fn collect_pub_fns(content: &str, fns: &mut Vec<(String, String)>, path: &str)
    ensures
        named_views(final(fns)@) == named_views(old(fns)@) + pub_fns_spec(lines(content@), path@),
{
    let c = chars_of(content);
    let ls = lines_exec(c.as_slice());
    let ghost all = views(ls@);
    let ghost start = named_views(fns@);
    let kw = chars_of("pub fn ");
    let mut i: usize = 0;
    assert(start + pub_fns_spec(all.take(0), path@) =~= start);
    while i < ls.len()
        invariant
            i <= ls.len(),
            all == views(ls@),
            kw@ == "pub fn "@,
            named_views(fns@) == start + pub_fns_spec(all.take(i as int), path@),
        decreases ls.len() - i,
    {
        proof {
            assert(all.take(i + 1).drop_last() =~= all.take(i as int));
            assert(all.take(i + 1).last() == ls@[i as int]@);
        }
        let ghost before = named_views(fns@);
        let t = trim_exec(ls[i].as_slice());
        if starts_with_exec(t.as_slice(), kw.as_slice()) {
            let rest = slice_of(t.as_slice(), kw.len(), t.len());
            assert(rest@ =~= t@.skip(kw@.len() as int));
            match find_char_exec(rest.as_slice(), '(') {
                Some(e) => {
                    let head = slice_of(rest.as_slice(), 0, e);
                    assert(head@ =~= rest@.take(e as int));
                    let name = trim_exec(head.as_slice());
                    if name.len() > 0 && name[0] != '_' && !has_char_exec(name.as_slice(), ' ') {
                        let entry = (string_of(name.as_slice()), path.to_owned());
                        fns.push(entry);
                        assert(named_views(fns@) =~= before.push((name@, path@)));
                    }
                },
                None => {},
            }
        }
        assert(named_views(fns@) =~= start + pub_fns_spec(all.take(i + 1), path@));
        i = i + 1;
    }
    assert(all.take(ls.len() as int) =~= all);
}

/// A line that defines a function, type, trait or impl.
pub open spec fn defines_item(t: Seq<char>) -> bool {
    starts_with(t, "fn "@) || starts_with(t, "pub fn "@) || starts_with(t, "struct "@) || starts_with(
        t,
        "pub struct "@,
    ) || starts_with(t, "enum "@) || starts_with(t, "pub enum "@) || starts_with(t, "trait "@)
        || starts_with(t, "pub trait "@) || starts_with(t, "impl "@) || starts_with(t, "pub impl "@)
        || starts_with(t, "unsafe impl "@)
}

/// A file only declares (modules, imports) when no line, trimmed, defines
/// an item.
pub open spec fn declaration_only(content: Seq<char>) -> bool {
    forall|i: int| 0 <= i < lines(content).len() ==> !defines_item(trim(#[trigger] lines(content)[i]))
}

fn starts_with_str(t: &[char], p: &str) -> (r: bool)
    ensures
        r == starts_with(t@, p@),
{
    let pv = chars_of(p);
    starts_with_exec(t, pv.as_slice())
}

fn defines_item_exec(t: &[char]) -> (r: bool)
    ensures
        r == defines_item(t@),
{
    starts_with_str(t, "fn ") || starts_with_str(t, "pub fn ") || starts_with_str(t, "struct ")
        || starts_with_str(t, "pub struct ") || starts_with_str(t, "enum ") || starts_with_str(
        t,
        "pub enum ",
    ) || starts_with_str(t, "trait ") || starts_with_str(t, "pub trait ") || starts_with_str(
        t,
        "impl ",
    ) || starts_with_str(t, "pub impl ") || starts_with_str(t, "unsafe impl ")
}

/// Whether a source file holds declarations only (`mod`, `use`, comments)
/// and no definitions.
pub fn is_declaration_only(content: &str) -> (r: bool)
    ensures
        r == declaration_only(content@),
{
    let c = chars_of(content);
    let ls = lines_exec(c.as_slice());
    let ghost all = views(ls@);
    let mut i: usize = 0;
    while i < ls.len()
        invariant
            i <= ls.len(),
            all == views(ls@),
            all == lines(content@),
            forall|k: int| 0 <= k < i ==> !defines_item(trim(#[trigger] all[k])),
        decreases ls.len() - i,
    {
        let t = trim_exec(ls[i].as_slice());
        assert(all[i as int] == ls@[i as int]@);
        if defines_item_exec(t.as_slice()) {
            return false;
        }
        i = i + 1;
    }
    true
}

// ───────────────────────────── error enums ─────────────────────────────

/// Where a scan for error enums stands: inside an error enum, its name, its
/// variants so far, the brace depth, and inside a multi-line attribute.
pub type ScanState = (bool, Seq<char>, Seq<Seq<char>>, int, bool);

pub type EnumView = (Seq<char>, Seq<Seq<char>>);

/// One line of the scan: the next state, the enums it completes, and
/// whether the scan stops here (an attribute that closes the enum).
pub open spec fn scan_step(st: ScanState, line: Seq<char>) -> (ScanState, Seq<EnumView>, bool) {
    let t = trim(line);
    let (inside, name, vars, depth, in_attr) = st;
    if !inside {
        match error_enum_name(line) {
            Some(n) => (
                (true, n, Seq::empty(), if has_char(t, '{') {
                    1
                } else {
                    0
                }, false),
                Seq::empty(),
                false,
            ),
            None => (st, Seq::empty(), false),
        }
    } else if starts_with(t, "#"@) {
        let d = depth + count_char(t, '{') - count_char(t, '}');
        ((inside, name, vars, d, !ends_with(t, "]"@)), Seq::empty(), d <= 0)
    } else if in_attr && ends_with(t, "]"@) {
        ((inside, name, vars, depth, false), Seq::empty(), false)
    } else if in_attr {
        (st, Seq::empty(), false)
    } else {
        let d = depth + count_char(t, '{') - count_char(t, '}');
        if d <= 0 {
            (
                (false, name, vars, d, in_attr),
                if vars.len() > 0 {
                    seq![(name, vars)]
                } else {
                    Seq::empty()
                },
                false,
            )
        } else {
            match variant_name(t) {
                Some(v) => ((inside, name, vars.push(v), d, in_attr), Seq::empty(), false),
                None => ((inside, name, vars, d, in_attr), Seq::empty(), false),
            }
        }
    }
}

/// An enum still open when the scan ends is kept if it has variants.
pub open spec fn final_emit(st: ScanState) -> Seq<EnumView> {
    if st.0 && st.2.len() > 0 {
        seq![(st.1, st.2)]
    } else {
        Seq::empty()
    }
}

pub open spec fn scan_lines(ls: Seq<Seq<char>>, st: ScanState) -> Seq<EnumView>
    decreases ls.len(),
{
    if ls.len() == 0 {
        final_emit(st)
    } else {
        let (st2, em, brk) = scan_step(st, ls[0]);
        em + if brk {
            final_emit(st2)
        } else {
            scan_lines(ls.drop_first(), st2)
        }
    }
}

/// The error enums of a source file with their variants, found by
/// following the braces of each `pub enum ...Error` body.
pub open spec fn error_variants_spec(content: Seq<char>) -> Seq<EnumView> {
    scan_lines(lines(content), (false, Seq::empty(), Seq::empty(), 0, false))
}

/// Some line of `ls` declares an error enum of that name.
pub open spec fn declared_in(ls: Seq<Seq<char>>, name: Seq<char>) -> bool {
    exists|k: int| 0 <= k < ls.len() && error_enum_name(#[trigger] ls[k]) == Some(name)
}

proof fn lemma_scan_provenance(all: Seq<Seq<char>>, i: int, st: ScanState)
    requires
        0 <= i <= all.len(),
        st.0 ==> declared_in(all, st.1),
    ensures
        forall|j: int|
            0 <= j < scan_lines(all.skip(i), st).len() ==> (#[trigger] scan_lines(all.skip(i), st)[j]).1.len() > 0
                && declared_in(all, scan_lines(all.skip(i), st)[j].0),
    decreases all.len() - i,
{
    let rest = all.skip(i);
    if i < all.len() {
        assert(rest[0] == all[i]);
        assert(rest.drop_first() =~= all.skip(i + 1));
        let (st2, em, brk) = scan_step(st, all[i]);
        if !st.0 {
            match error_enum_name(all[i]) {
                Some(n) => {
                    assert(error_enum_name(all[i]) == Some(n));
                    assert(declared_in(all, n));
                },
                None => {},
            }
        }
        assert(st2.0 ==> declared_in(all, st2.1));
        lemma_scan_provenance(all, i + 1, st2);
        let tail = if brk {
            final_emit(st2)
        } else {
            scan_lines(all.skip(i + 1), st2)
        };
        assert(scan_lines(rest, st) == em + tail);
        assert forall|j: int| 0 <= j < em.len() implies (#[trigger] em[j]).1.len() > 0 && declared_in(all, em[j].0) by {
            assert(st.0);
        }
        assert forall|j: int| 0 <= j < tail.len() implies (#[trigger] tail[j]).1.len() > 0 && declared_in(all, tail[j].0) by {
            if brk {
                assert(tail[j] == (st2.1, st2.2));
            } else {
                assert(tail[j] == scan_lines(all.skip(i + 1), st2)[j]);
            }
        }
        assert forall|j: int| 0 <= j < scan_lines(rest, st).len() implies (#[trigger] scan_lines(rest, st)[j]).1.len()
            > 0 && declared_in(all, scan_lines(rest, st)[j].0) by {
            if j < em.len() {
                assert(scan_lines(rest, st)[j] == em[j]);
            } else {
                assert(scan_lines(rest, st)[j] == tail[j - em.len()]);
            }
        }
    } else {
        assert(rest.len() == 0);
        assert(scan_lines(rest, st) == final_emit(st));
    }
}

/// Law: the error enums a file is scanned for are declared by lines of the
/// file, each with at least one variant; a file with no declaration of an
/// error enum yields none.
pub proof fn law_error_enums_declared(content: Seq<char>)
    ensures
        forall|j: int|
            0 <= j < error_variants_spec(content).len() ==> (#[trigger] error_variants_spec(content)[j]).1.len() > 0
                && declared_in(lines(content), error_variants_spec(content)[j].0),
        (forall|k: int| 0 <= k < lines(content).len() ==> error_enum_name(#[trigger] lines(content)[k]) is None)
            ==> error_variants_spec(content).len() == 0,
{
    let all = lines(content);
    let init: ScanState = (false, Seq::empty(), Seq::empty(), 0, false);
    assert(all.skip(0) =~= all);
    lemma_scan_provenance(all, 0, init);
    if forall|k: int| 0 <= k < all.len() ==> error_enum_name(#[trigger] all[k]) is None {
        if error_variants_spec(content).len() > 0 {
            assert(declared_in(all, error_variants_spec(content)[0].0));
        }
    }
}

pub open spec fn enum_views(v: Seq<(String, Vec<String>)>) -> Seq<EnumView> {
    v.map_values(|e: (String, Vec<String>)| (e.0@, string_views(e.1@)))
}

fn owned_strings(v: &Vec<Vec<char>>) -> (r: Vec<String>)
    ensures
        string_views(r@) == views(v@),
{
    let mut r: Vec<String> = Vec::new();
    let mut i: usize = 0;
    while i < v.len()
        invariant
            i <= v.len(),
            string_views(r@) == views(v@).take(i as int),
        decreases v.len() - i,
    {
        let s = string_of(v[i].as_slice());
        let ghost before = r@;
        r.push(s);
        assert(string_views(r@) =~= string_views(before).push(s@));
        assert(views(v@)[i as int] == v@[i as int]@);
        assert(views(v@).take(i + 1) =~= views(v@).take(i as int).push(v@[i as int]@));
        assert(string_views(r@) =~= views(v@).take(i + 1));
        i = i + 1;
    }
    assert(views(v@).take(v.len() as int) =~= views(v@));
    r
}

/// Appends the error enums of a source file, each with its variants, to
/// `enums`. (A text never holds more than `isize::MAX` bytes, so the brace
/// depth always fits.)
pub fn collect_error_variants(content: &str, enums: &mut Vec<(String, Vec<String>)>)
    requires
        content@.len() <= isize::MAX,
    ensures
        enum_views(final(enums)@) == enum_views(old(enums)@) + error_variants_spec(content@),
        final(enums)@.len() >= old(enums)@.len(),
        forall|i: int| 0 <= i < old(enums)@.len() ==> enum_views(final(enums)@)[i] == enum_views(old(enums)@)[i],
{
    let c = chars_of(content);
    let ls = lines_exec(c.as_slice());
    let ghost all = views(ls@);
    let ghost start = enum_views(enums@);
    let ghost init: ScanState = (false, Seq::empty(), Seq::empty(), 0, false);
    let hash = chars_of("#");
    let close = chars_of("]");
    let mut inside = false;
    let mut name: Vec<char> = Vec::new();
    let mut vars: Vec<Vec<char>> = Vec::new();
    let mut depth: isize = 0;
    let mut in_attr = false;
    let mut i: usize = 0;
    proof {
        lemma_lines_sum_len(content@);
        assert(all.skip(0) =~= all);
        assert(name@ =~= Seq::<char>::empty());
        assert(views(vars@) =~= Seq::<Seq<char>>::empty());
        assert(start + Seq::<EnumView>::empty() =~= start);
    }
    while i < ls.len()
        invariant_except_break
            i <= ls.len(),
            all == views(ls@),
            all == lines(content@),
            sum_len(all) <= isize::MAX,
            hash@ == "#"@,
            close@ == "]"@,
            inside ==> depth >= 0,
            -(sum_len(all) - sum_len(all.skip(i as int))) <= depth <= sum_len(all) - sum_len(
                all.skip(i as int),
            ),
            enum_views(enums@) + scan_lines(
                all.skip(i as int),
                (inside, name@, views(vars@), depth as int, in_attr),
            ) == start + scan_lines(all, init),
        ensures
            enum_views(enums@) + final_emit((inside, name@, views(vars@), depth as int, in_attr))
                == start + scan_lines(all, init),
        decreases ls.len() - i,
    {
        let line = &ls[i];
        let ghost rest = all.skip(i as int);
        let ghost st: ScanState = (inside, name@, views(vars@), depth as int, in_attr);
        let ghost stepped = scan_step(st, line@);
        proof {
            assert(rest[0] == line@);
            assert(rest.drop_first() =~= all.skip(i + 1));
            assert(sum_len(rest) == line@.len() + sum_len(all.skip(i + 1)));
        }
        let t = trim_exec(line.as_slice());
        proof {
            lemma_trim_len(line@);
            lemma_count_two(t@, '{', '}');
        }
        if !inside {
            let ls_str = string_of(line.as_slice());
            match is_error_enum_declaration(ls_str.as_str()) {
                Some(n) => {
                    name = chars_of(n.as_str());
                    inside = true;
                    vars = Vec::new();
                    depth = if has_char_exec(t.as_slice(), '{') { 1 } else { 0 };
                    in_attr = false;
                    assert(views(vars@) =~= Seq::<Seq<char>>::empty());
                },
                None => {},
            }
            proof {
                assert(stepped.1 =~= Seq::<EnumView>::empty());
                assert(Seq::<EnumView>::empty() + scan_lines(all.skip(i + 1), stepped.0) =~= scan_lines(
                    all.skip(i + 1),
                    stepped.0,
                ));
            }
            i = i + 1;
            continue;
        }
        let opens = count_char_exec(t.as_slice(), '{');
        let closes = count_char_exec(t.as_slice(), '}');
        if starts_with_exec(t.as_slice(), hash.as_slice()) {
            in_attr = !ends_with_exec(t.as_slice(), close.as_slice());
            depth = depth + opens as isize;
            depth = depth - closes as isize;
            if depth <= 0 {
                proof {
                    assert(stepped.1 =~= Seq::<EnumView>::empty());
                }
                break;
            }
            proof {
                assert(Seq::<EnumView>::empty() + scan_lines(all.skip(i + 1), stepped.0) =~= scan_lines(
                    all.skip(i + 1),
                    stepped.0,
                ));
            }
            i = i + 1;
            continue;
        }
        if in_attr && ends_with_exec(t.as_slice(), close.as_slice()) {
            in_attr = false;
            proof {
                assert(Seq::<EnumView>::empty() + scan_lines(all.skip(i + 1), stepped.0) =~= scan_lines(
                    all.skip(i + 1),
                    stepped.0,
                ));
            }
            i = i + 1;
            continue;
        }
        if in_attr {
            proof {
                assert(Seq::<EnumView>::empty() + scan_lines(all.skip(i + 1), stepped.0) =~= scan_lines(
                    all.skip(i + 1),
                    stepped.0,
                ));
            }
            i = i + 1;
            continue;
        }
        depth = depth + opens as isize;
        depth = depth - closes as isize;
        if depth <= 0 {
            let ghost before = enum_views(enums@);
            if vars.len() > 0 {
                let strs = owned_strings(&vars);
                let entry = (string_of(name.as_slice()), strs);
                enums.push(entry);
                assert(enum_views(enums@) =~= before + seq![(name@, views(vars@))]);
            } else {
                assert(enum_views(enums@) =~= before + Seq::<EnumView>::empty());
            }
            inside = false;
            proof {
                assert(before + (stepped.1 + scan_lines(all.skip(i + 1), stepped.0)) =~= enum_views(
                    enums@,
                ) + scan_lines(all.skip(i + 1), stepped.0));
            }
            i = i + 1;
            continue;
        }
        let ts = string_of(t.as_slice());
        match extract_variant_name(ts.as_str()) {
            Some(v) => {
                let ghost old_vars = vars@;
                let vc = chars_of(v.as_str());
                vars.push(vc);
                proof {
                    lemma_views_push(old_vars, vc);
                }
            },
            None => {},
        }
        proof {
            assert(Seq::<EnumView>::empty() + scan_lines(all.skip(i + 1), stepped.0) =~= scan_lines(
                all.skip(i + 1),
                stepped.0,
            ));
        }
        i = i + 1;
    }
    proof {
        if i == ls.len() {
            assert(all.skip(i as int) =~= Seq::<Seq<char>>::empty());
        }
    }
    if inside && vars.len() > 0 {
        let strs = owned_strings(&vars);
        let entry = (string_of(name.as_slice()), strs);
        let ghost before = enum_views(enums@);
        enums.push(entry);
        assert(enum_views(enums@) =~= before + seq![(name@, views(vars@))]);
    } else {
        assert(enum_views(enums@) =~= enum_views(enums@) + Seq::<EnumView>::empty());
    }
}

// ───────────────────────────── running tests ─────────────────────────────

/// The available memory that `/proc/meminfo` reports, in kB: the second
/// word of the first `MemAvailable:` line that reads as a number.
pub open spec fn mem_available(ls: Seq<Seq<char>>) -> Option<usize>
    decreases ls.len(),
{
    if ls.len() == 0 {
        None
    } else {
        let l = ls[0];
        let here = if starts_with(l, "MemAvailable:"@) && words(l).len() > 1 {
            parse_usize(words(l)[1])
        } else {
            None
        };
        match here {
            Some(n) => Some(n),
            None => mem_available(ls.drop_first()),
        }
    }
}

/// How many compile jobs run side by side: one per 1.5 GiB of available
/// memory (4 GiB when unknown), at least one, at most one per CPU (4 when
/// unknown). In kB, 1.5 GiB is 1 572 864; for any memory size below 2^53
/// kB the quotient equals the floored floating-point one.
pub open spec fn parallel_jobs_spec(meminfo: Option<Seq<char>>, cpus: Option<usize>) -> int {
    let kb: int = match meminfo {
        Some(m) => match mem_available(lines(m)) {
            Some(n) => n as int,
            None => 4194304,
        },
        None => 4194304,
    };
    let from_mem = kb / 1572864;
    let at_least_one = if from_mem < 1 { 1 } else { from_mem };
    let c: int = match cpus {
        Some(n) => n as int,
        None => 4,
    };
    if at_least_one < c { at_least_one } else { c }
}

/// Chooses the number of parallel jobs from the text of `/proc/meminfo`
/// and the number of CPUs (each none when unknown).
pub fn parallel_jobs(meminfo: Option<&str>, cpus: Option<usize>) -> (r: usize)
    ensures
        r as int == parallel_jobs_spec(
            match meminfo {
                Some(m) => Some(m@),
                None => None,
            },
            cpus,
        ),
{
    let mut kb: usize = 4194304;
    match meminfo {
        Some(m) => {
            let c = chars_of(m);
            let ls = lines_exec(c.as_slice());
            let ghost all = views(ls@);
            let key = chars_of("MemAvailable:");
            let mut i: usize = 0;
            let mut found: Option<usize> = None;
            assert(all.skip(0) =~= all);
            while i < ls.len()
                invariant_except_break
                    i <= ls.len(),
                    all == views(ls@),
                    key@ == "MemAvailable:"@,
                    found is None,
                    mem_available(all) == mem_available(all.skip(i as int)),
                ensures
                    found == mem_available(all),
                decreases ls.len() - i,
            {
                let ghost rest = all.skip(i as int);
                proof {
                    assert(rest[0] == ls@[i as int]@);
                    assert(rest.drop_first() =~= all.skip(i + 1));
                }
                if starts_with_exec(ls[i].as_slice(), key.as_slice()) {
                    let w = words_exec(ls[i].as_slice());
                    if w.len() > 1 {
                        assert(w@[1]@ == words(ls@[i as int]@)[1]);
                        let n = parse_usize_exec(w[1].as_slice());
                        if n.is_some() {
                            found = n;
                            break;
                        }
                    }
                }
                i = i + 1;
            }
            proof {
                if i == ls.len() {
                    assert(all.skip(i as int) =~= Seq::<Seq<char>>::empty());
                }
            }
            match found {
                Some(n) => {
                    kb = n;
                },
                None => {},
            }
        },
        None => {},
    }
    let from_mem = kb / 1572864;
    let at_least_one = if from_mem < 1 { 1 } else { from_mem };
    let c: usize = match cpus {
        Some(n) => n,
        None => 4,
    };
    if at_least_one < c { at_least_one } else { c }
}

/// Whether `a` lies in `b` (or is it), directory by directory.
pub open spec fn path_within(a: Seq<char>, b: Seq<char>) -> bool {
    strip_path_prefix(a, b) is Some
}

/// The scopes whose tests a run covers from `cwd`: those whose directory
/// holds `cwd` or lies inside it, by position in the contract.
pub open spec fn scopes_for_cwd_spec(repo: Seq<char>, cwd: Seq<char>, dirs: Seq<Seq<char>>) -> Seq<int>
    decreases dirs.len(),
{
    if dirs.len() == 0 {
        Seq::empty()
    } else {
        let rest = scopes_for_cwd_spec(repo, cwd, dirs.drop_last());
        let abs = join_path(repo, dirs.last());
        if path_within(cwd, abs) || path_within(abs, cwd) {
            rest.push(dirs.len() - 1)
        } else {
            rest
        }
    }
}

pub open spec fn scope_dirs(s: Seq<Scope>) -> Seq<Seq<char>> {
    s.map_values(|x: Scope| x.dir@)
}

/// The directories a test audit covers, each with its scope's name: with
/// `all`, every scope of the contract (the repository itself as `(root)`
/// when there is none); otherwise the scope `around` the current directory,
/// or the repository as `(root)`.
pub open spec fn test_audit_dirs_spec(
    repo: Seq<char>,
    scopes: Seq<Scope>,
    all: bool,
    around: Option<usize>,
) -> Seq<(Seq<char>, Seq<char>)> {
    if all {
        if scopes.len() == 0 {
            seq![("(root)"@, repo)]
        } else {
            scopes.map_values(|x: Scope| (x.name@, join_path(repo, x.dir@)))
        }
    } else {
        match around {
            Some(i) => seq![(scopes[i as int].name@, join_path(repo, scopes[i as int].dir@))],
            None => seq![("(root)"@, repo)],
        }
    }
}

pub fn test_audit_dirs(repo: &str, scopes: &[Scope], all: bool, around: Option<usize>) -> (r: Vec<(String, String)>)
    requires
        around matches Some(i) ==> i < scopes.len(),
    ensures
        r@.map_values(|p: (String, String)| (p.0@, p.1@)) == test_audit_dirs_spec(repo@, scopes@, all, around),
{
    let mut out: Vec<(String, String)> = Vec::new();
    if all && scopes.len() > 0 {
        let mut i: usize = 0;
        while i < scopes.len()
            invariant
                i <= scopes.len(),
                out@.map_values(|p: (String, String)| (p.0@, p.1@)) == scopes@.take(i as int).map_values(
                    |x: Scope| (x.name@, join_path(repo@, x.dir@)),
                ),
            decreases scopes.len() - i,
        {
            let entry = (scopes[i].name.clone(), join_path_exec(repo, scopes[i].dir.as_str()));
            let ghost before = out@;
            out.push(entry);
            assert(out@.map_values(|p: (String, String)| (p.0@, p.1@)) =~= before.map_values(
                |p: (String, String)| (p.0@, p.1@),
            ).push((entry.0@, entry.1@)));
            assert(scopes@.take(i + 1).map_values(|x: Scope| (x.name@, join_path(repo@, x.dir@))) =~= scopes@.take(
                i as int,
            ).map_values(|x: Scope| (x.name@, join_path(repo@, x.dir@))).push(
                (scopes@[i as int].name@, join_path(repo@, scopes@[i as int].dir@)),
            ));
            i = i + 1;
        }
        assert(scopes@.take(scopes.len() as int) =~= scopes@);
        return out;
    }
    let entry = match around {
        Some(i) if !all => (scopes[i].name.clone(), join_path_exec(repo, scopes[i].dir.as_str())),
        _ => ("(root)".to_owned(), repo.to_owned()),
    };
    out.push(entry);
    assert(out@.map_values(|p: (String, String)| (p.0@, p.1@)) =~= seq![(entry.0@, entry.1@)]);
    out
}

pub fn scopes_for_cwd(repo_path: &str, cwd: &str, scopes: &[Scope]) -> (r: Vec<usize>)
    ensures
        r@.map_values(|i: usize| i as int) == scopes_for_cwd_spec(repo_path@, cwd@, scope_dirs(scopes@)),
{
    let ghost dv = scope_dirs(scopes@);
    let mut out: Vec<usize> = Vec::new();
    let mut i: usize = 0;
    while i < scopes.len()
        invariant
            i <= scopes.len(),
            dv == scope_dirs(scopes@),
            out@.map_values(|k: usize| k as int) == scopes_for_cwd_spec(repo_path@, cwd@, dv.take(i as int)),
        decreases scopes.len() - i,
    {
        proof {
            assert(dv.take(i + 1).drop_last() =~= dv.take(i as int));
            assert(dv.take(i + 1).last() == scopes@[i as int].dir@);
        }
        let abs = join_path_exec(repo_path, scopes[i].dir.as_str());
        let inside = strip_path_prefix_exec(cwd, abs.as_str()).is_some();
        let holds = strip_path_prefix_exec(abs.as_str(), cwd).is_some();
        if inside || holds {
            let ghost before = out@;
            out.push(i);
            assert(out@.map_values(|k: usize| k as int) =~= before.map_values(|k: usize| k as int).push(
                i as int,
            ));
        }
        i = i + 1;
    }
    assert(dv.take(scopes.len() as int) =~= dv);
    out
}

/// What a coverage run means for the tests of a scope, from whether the
/// coverage tool succeeded (none when it could not be started): Rust's
/// coverage run also runs the tests, so its success settles them (`true`)
/// and its failure is a test failure; for the other languages the tests
/// still have to run (`false`), whatever became of the coverage.
pub open spec fn coverage_result_spec(lang: Language, success: Option<bool>) -> Result<bool, Seq<char>> {
    match lang {
        Language::Rust => match success {
            Some(true) => Ok(true),
            Some(false) => Err("cargo 测试失败"@),
            None => Ok(false),
        },
        _ => Ok(false),
    }
}

pub fn coverage_result(lang: &Language, success: Option<bool>) -> (r: Result<bool, String>)
    ensures
        match r {
            Ok(b) => coverage_result_spec(*lang, success) == Ok::<bool, Seq<char>>(b),
            Err(e) => coverage_result_spec(*lang, success) == Err::<bool, Seq<char>>(e@),
        },
{
    match lang {
        Language::Rust => match success {
            Some(true) => Ok(true),
            Some(false) => Err("cargo 测试失败".to_owned()),
            None => Ok(false),
        },
        _ => Ok(false),
    }
}

/// After coverage failed, the tests run alone: their summary stands when
/// they all passed and there were some; otherwise the coverage error does.
pub fn after_coverage_failure(error: String, tests: Result<TestSummary, String>) -> (r: Result<TestSummary, String>)
    ensures
        match tests {
            Ok(s) => if s.failed == 0 && s.total > 0 {
                r matches Ok(t) && t.total == s.total && t.passed == s.passed && t.failed == s.failed
                    && t.skipped == s.skipped
            } else {
                r matches Err(e) && e@ == error@
            },
            Err(_) => r matches Err(e) && e@ == error@,
        },
{
    match tests {
        Ok(s) => {
            if s.failed == 0 && s.total > 0 {
                Ok(s)
            } else {
                Err(error)
            }
        },
        Err(_) => Err(error),
    }
}

/// A source file counts towards the test body when it holds an inline test
/// module or lies under a `tests` directory.
pub fn is_test_source(path: &str, content: &str) -> (r: bool)
    ensures
        r == (contains(content@, "#[cfg(test)]"@) || contains(path@, "/tests/"@)),
{
    let c = chars_of(content);
    let m = chars_of("#[cfg(test)]");
    let p = chars_of(path);
    let t = chars_of("/tests/");
    contains_exec(c.as_slice(), m.as_slice()) || contains_exec(p.as_slice(), t.as_slice())
}

/// The last part of a path.
pub open spec fn file_name(path: Seq<char>) -> Seq<char> {
    crate::release::last_segment(path)
}

/// A file name without its extension (a leading dot starts no extension).
pub open spec fn file_stem(name: Seq<char>) -> Seq<char>
    decreases name.len(),
{
    match last_dot(name) {
        Some(i) => if i > 0 {
            name.take(i)
        } else {
            name
        },
        None => name,
    }
}

/// The position of the last `.`.
pub open spec fn last_dot(s: Seq<char>) -> Option<int>
    decreases s.len(),
{
    if s.len() == 0 {
        None
    } else if s.last() == '.' {
        Some(s.len() - 1)
    } else {
        last_dot(s.drop_last())
    }
}

/// Whether a source file lacks a test: not itself a test or a build script,
/// not a `mod.rs`/`lib.rs` that only declares, without an inline test
/// module, and without `tests/<stem>.rs`.
pub open spec fn missing_test_spec(rel: Seq<char>, content: Option<Seq<char>>, external_test_exists: bool) -> bool {
    let name = file_name(rel);
    if ends_with(name, "_test.rs"@) || name == "build.rs"@ {
        false
    } else if (name == "mod.rs"@ || name == "lib.rs"@) && (content matches Some(c) && declaration_only(c)) {
        false
    } else if content matches Some(c) && contains(c, "#[cfg(test)]"@) {
        false
    } else {
        !external_test_exists
    }
}

/// Where the external test of a source file would be: `tests/<stem>.rs`
/// under the scope's directory.
pub open spec fn external_test_spec(dir: Seq<char>, rel: Seq<char>) -> Seq<char> {
    join_path(join_path(dir, "tests"@), file_stem(file_name(rel)) + ".rs"@)
}

fn last_dot_exec(v: &[char]) -> (r: Option<usize>)
    ensures
        match r {
            Some(i) => last_dot(v@) == Some(i as int) && i < v.len(),
            None => last_dot(v@) is None,
        },
{
    let mut k: usize = v.len();
    assert(v@.take(k as int) =~= v@);
    while k > 0 && v[k - 1] != '.'
        invariant
            k <= v.len(),
            last_dot(v@) == last_dot(v@.take(k as int)),
        decreases k,
    {
        assert(v@.take(k as int).drop_last() =~= v@.take(k - 1));
        k = k - 1;
    }
    proof {
        if k == v.len() {
            assert(v@.take(k as int) =~= v@);
        }
    }
    if k == 0 {
        assert(v@.take(0) =~= Seq::<char>::empty());
        None
    } else {
        Some(k - 1)
    }
}

pub fn external_test_path(dir: &str, rel: &str) -> (r: String)
    ensures
        r@ == external_test_spec(dir@, rel@),
{
    let rv = chars_of(rel);
    let name = crate::release::last_segment_exec(rv.as_slice());
    let stem = match last_dot_exec(name.as_slice()) {
        Some(i) => {
            if i > 0 {
                slice_of(name.as_slice(), 0, i)
            } else {
                slice_of(name.as_slice(), 0, name.len())
            }
        },
        None => slice_of(name.as_slice(), 0, name.len()),
    };
    assert(stem@ =~= file_stem(file_name(rel@)));
    let mut f = stem;
    append_str(&mut f, ".rs");
    let tests = join_path_exec(dir, "tests");
    join_path_exec(tests.as_str(), string_of(f.as_slice()).as_str())
}

/// Decides whether a source file lacks a test, from its text (none when it
/// could not be read) and whether its external test file exists.
pub fn missing_test_file(rel: &str, content: Option<&str>, external_test_exists: bool) -> (r: bool)
    ensures
        r == missing_test_spec(
            rel@,
            match content {
                Some(c) => Some(c@),
                None => None,
            },
            external_test_exists,
        ),
{
    let rv = chars_of(rel);
    let name_v = crate::release::last_segment_exec(rv.as_slice());
    let name = string_of(name_v.as_slice());
    let suffix = chars_of("_test.rs");
    if ends_with_exec(name_v.as_slice(), suffix.as_slice()) || str_eq(name.as_str(), "build.rs") {
        return false;
    }
    if str_eq(name.as_str(), "mod.rs") || str_eq(name.as_str(), "lib.rs") {
        match content {
            Some(c) => {
                if is_declaration_only(c) {
                    return false;
                }
            },
            None => {},
        }
    }
    match content {
        Some(c) => {
            let cv = chars_of(c);
            let m = chars_of("#[cfg(test)]");
            if contains_exec(cv.as_slice(), m.as_slice()) {
                return false;
            }
        },
        None => {},
    }
    !external_test_exists
}


// ───────────────────────────── test audit counts ─────────────────────────────

/// Names in order of `name_lt`.
pub open spec fn names_sorted(s: Seq<String>) -> bool {
    forall|i: int, j: int| 0 <= i < j < s.len() ==> !name_lt(#[trigger] s[j]@, #[trigger] s[i]@)
}

/// Sorts names (`[String]::sort`: by character, as by UTF-8 byte).
pub fn sort_names(names: Vec<String>) -> (r: Vec<String>)
    ensures
        string_views(r@).to_multiset() == string_views(names@).to_multiset(),
        names_sorted(r@),
{
    let mut rest = names;
    let mut sorted: Vec<String> = Vec::new();
    let ghost initial = string_views(rest@);
    proof {
        broadcast use vstd::seq_lib::group_to_multiset_ensures;
        broadcast use vstd::multiset::group_multiset_axioms;
        assert(string_views(sorted@).to_multiset().add(string_views(rest@).to_multiset()) =~= initial.to_multiset());
    }
    while rest.len() > 0
        invariant
            string_views(sorted@).to_multiset().add(string_views(rest@).to_multiset()) == initial.to_multiset(),
            names_sorted(sorted@),
        decreases rest.len(),
    {
        let ghost rest0 = rest@;
        let x = rest.remove(0);
        proof {
            assert(string_views(rest0).remove(0) =~= string_views(rest@));
            assert(string_views(rest0)[0] == x@);
            vstd::seq_lib::to_multiset_remove(string_views(rest0), 0);
            vstd::seq_lib::to_multiset_contains(string_views(rest0), x@);
            assert(string_views(rest0).contains(x@)) by {
                assert(string_views(rest0)[0] == x@);
            }
        }
        let mut j: usize = 0;
        while j < sorted.len() && !name_less(x.as_str(), sorted[j].as_str())
            invariant
                j <= sorted.len(),
                forall|k: int| 0 <= k < j ==> !name_lt(x@, #[trigger] sorted@[k]@),
            decreases sorted.len() - j,
        {
            j = j + 1;
        }
        let ghost before = sorted@;
        proof {
            assert forall|k: int| j <= k < before.len() implies !name_lt(#[trigger] before[k]@, x@) by {
                if name_lt(before[k]@, x@) {
                    lemma_name_lt_transitive(before[k]@, x@, before[j as int]@);
                    if k > j {
                        assert(!name_lt(before[k]@, before[j as int]@));
                    } else {
                        lemma_name_lt_irreflexive(before[k]@, x@);
                    }
                }
            }
        }
        sorted.insert(j, x);
        proof {
            assert(string_views(sorted@) =~= string_views(before).insert(j as int, x@));
            vstd::seq_lib::to_multiset_insert(string_views(before), j as int, x@);
            assert(string_views(sorted@).to_multiset().add(string_views(rest@).to_multiset()) =~= initial.to_multiset()) by {
                broadcast use vstd::multiset::group_multiset_axioms;
            }
            assert forall|a: int, b: int| 0 <= a < b < sorted@.len() implies !name_lt(
                #[trigger] sorted@[b]@,
                #[trigger] sorted@[a]@,
            ) by {
                if a < j && b < j {
                    assert(sorted@[a] == before[a]);
                    assert(sorted@[b] == before[b]);
                } else if a < j && b == j {
                    assert(sorted@[a] == before[a]);
                } else if a < j && b > j {
                    assert(sorted@[a] == before[a]);
                    assert(sorted@[b] == before[b - 1]);
                } else if a == j {
                    assert(sorted@[b] == before[b - 1]);
                } else {
                    assert(sorted@[a] == before[a - 1]);
                    assert(sorted@[b] == before[b - 1]);
                }
            }
        }
    }
    proof {
        broadcast use vstd::seq_lib::group_to_multiset_ensures;
        broadcast use vstd::multiset::group_multiset_axioms;
        assert(string_views(rest@).to_multiset().len() == 0);
        assert(string_views(sorted@).to_multiset() =~= initial.to_multiset());
    }
    sorted
}

/// The public functions, as `(name, path)`, that the test text never
/// names, written `path::name`, in order.
pub open spec fn untested_fns(fns: Seq<(Seq<char>, Seq<char>)>, body: Seq<char>) -> Seq<Seq<char>>
    decreases fns.len(),
{
    if fns.len() == 0 {
        Seq::empty()
    } else {
        let r = untested_fns(fns.drop_last(), body);
        let f = fns.last();
        if contains(body, f.0) {
            r
        } else {
            r.push(f.1 + "::"@ + f.0)
        }
    }
}

/// The variants of the error enums, written `Enum::Variant`, in order.
pub open spec fn qualified_variants(enums: Seq<EnumView>) -> Seq<Seq<char>>
    decreases enums.len(),
{
    if enums.len() == 0 {
        Seq::empty()
    } else {
        let e = enums.last();
        qualified_variants(enums.drop_last()) + e.1.map_values(|v: Seq<char>| e.0 + "::"@ + v)
    }
}

/// The names among `qs` that the test text does not hold, in order.
pub open spec fn unnamed(qs: Seq<Seq<char>>, body: Seq<char>) -> Seq<Seq<char>>
    decreases qs.len(),
{
    if qs.len() == 0 {
        Seq::empty()
    } else if contains(body, qs.last()) {
        unnamed(qs.drop_last(), body)
    } else {
        unnamed(qs.drop_last(), body).push(qs.last())
    }
}

proof fn lemma_unnamed_len(qs: Seq<Seq<char>>, body: Seq<char>)
    ensures
        unnamed(qs, body).len() <= qs.len(),
    decreases qs.len(),
{
    if qs.len() > 0 {
        lemma_unnamed_len(qs.drop_last(), body);
    }
}

/// The counts a test audit reports for a scope.
pub struct AuditCounts {
    pub total_tests: usize,
    pub total_pub_fns: usize,
    pub tested_pub_fns: usize,
    /// The public functions no test names, as `path::name`.
    pub uncovered_fns: Vec<String>,
    pub error_variants: usize,
    pub tested_variants: usize,
    /// The error variants no test names, as `Enum::Variant`, sorted.
    pub uncovered_variants: Vec<String>,
}

/// What an audit counts from the sources of a scope: its tests, its public
/// functions (`(name, path)`), its error enums, and the text of its tests.
/// A function or variant is tested when the test text names it.
pub fn audit_counts(
    pub_fns: &[(String, String)],
    error_enums: &[(String, Vec<String>)],
    test_body: &str,
    test_fns: &[String],
) -> (r: AuditCounts)
    requires
        qualified_variants(enum_views(error_enums@)).len() <= usize::MAX,
    ensures
        r.total_tests == test_fns@.len(),
        r.total_pub_fns == pub_fns@.len(),
        string_views(r.uncovered_fns@) == untested_fns(named_views(pub_fns@), test_body@),
        r.tested_pub_fns + r.uncovered_fns@.len() == r.total_pub_fns,
        r.error_variants == qualified_variants(enum_views(error_enums@)).len(),
        r.tested_variants + r.uncovered_variants@.len() == r.error_variants,
        string_views(r.uncovered_variants@).to_multiset() == unnamed(
            qualified_variants(enum_views(error_enums@)),
            test_body@,
        ).to_multiset(),
        names_sorted(r.uncovered_variants@),
{
    let body = chars_of(test_body);
    let ghost fv = named_views(pub_fns@);
    let mut uncovered_fns: Vec<String> = Vec::new();
    let mut i: usize = 0;
    while i < pub_fns.len()
        invariant
            i <= pub_fns.len(),
            body@ == test_body@,
            fv == named_views(pub_fns@),
            string_views(uncovered_fns@) == untested_fns(fv.take(i as int), test_body@),
            uncovered_fns@.len() <= i,
        decreases pub_fns.len() - i,
    {
        proof {
            assert(fv.take(i + 1).drop_last() =~= fv.take(i as int));
            assert(fv.take(i + 1).last() == fv[i as int]);
        }
        let name = chars_of(pub_fns[i].0.as_str());
        if !contains_exec(body.as_slice(), name.as_slice()) {
            let mut q: Vec<char> = Vec::new();
            append_str(&mut q, pub_fns[i].1.as_str());
            append_str(&mut q, "::");
            append_str(&mut q, pub_fns[i].0.as_str());
            let s = string_of(q.as_slice());
            let ghost before = uncovered_fns@;
            uncovered_fns.push(s);
            assert(string_views(uncovered_fns@) =~= string_views(before).push(s@));
        }
        i = i + 1;
    }
    assert(fv.take(pub_fns.len() as int) =~= fv);
    let tested_pub_fns = pub_fns.len() - uncovered_fns.len();

    let ghost ev = enum_views(error_enums@);
    let ghost all = qualified_variants(ev);
    let mut seen: Vec<String> = Vec::new();
    let ghost mut qs: Seq<Seq<char>> = Seq::empty();
    let mut total: usize = 0;
    let mut tested: usize = 0;
    let mut k: usize = 0;
    while k < error_enums.len()
        invariant
            k <= error_enums.len(),
            body@ == test_body@,
            ev == enum_views(error_enums@),
            all == qualified_variants(ev),
            all.len() <= usize::MAX,
            qs == qualified_variants(ev.take(k as int)),
            total == qs.len(),
            string_views(seen@) == unnamed(qs, test_body@),
            tested + seen@.len() == total,
        decreases error_enums.len() - k,
    {
        proof {
            assert(ev.take(k + 1).drop_last() =~= ev.take(k as int));
            assert(ev.take(k + 1).last() == ev[k as int]);
            lemma_qualified_prefix(ev, k + 1);
        }
        let ghost e = ev[k as int];
        let ghost base = qs;
        let vs = &error_enums[k].1;
        let mut j: usize = 0;
        while j < vs.len()
            invariant
                j <= vs.len(),
                k < error_enums.len(),
                body@ == test_body@,
                e == ev[k as int],
                e.0 == error_enums@[k as int].0@,
                e.1 == string_views(vs@),
                qs == base + e.1.take(j as int).map_values(|v: Seq<char>| e.0 + "::"@ + v),
                base.len() + e.1.len() <= usize::MAX,
                total == qs.len(),
                string_views(seen@) == unnamed(qs, test_body@),
                tested + seen@.len() == total,
            decreases vs.len() - j,
        {
            let mut q: Vec<char> = Vec::new();
            append_str(&mut q, error_enums[k].0.as_str());
            append_str(&mut q, "::");
            append_str(&mut q, vs[j].as_str());
            let ghost qv = q@;
            proof {
                assert(qv == e.0 + "::"@ + e.1[j as int]);
                let next = base + e.1.take(j + 1).map_values(|v: Seq<char>| e.0 + "::"@ + v);
                assert(next =~= qs.push(qv));
                assert(next.drop_last() =~= qs);
                assert(next.last() == qv);
                qs = next;
            }
            total = total + 1;
            if contains_exec(body.as_slice(), q.as_slice()) {
                tested = tested + 1;
            } else {
                let s = string_of(q.as_slice());
                let ghost before = seen@;
                seen.push(s);
                assert(string_views(seen@) =~= string_views(before).push(s@));
            }
            j = j + 1;
        }
        proof {
            assert(e.1.take(vs.len() as int) =~= e.1);
            assert(qs =~= qualified_variants(ev.take(k + 1)));
        }
        k = k + 1;
    }
    proof {
        assert(ev.take(error_enums.len() as int) =~= ev);
    }
    let uncovered_variants = sort_names(seen);
    proof {
        vstd::seq_lib::to_multiset_len(string_views(uncovered_variants@));
        vstd::seq_lib::to_multiset_len(string_views(seen@));
        assert(string_views(uncovered_variants@).len() == string_views(seen@).len());
    }
    AuditCounts {
        total_tests: test_fns.len(),
        total_pub_fns: pub_fns.len(),
        tested_pub_fns,
        uncovered_fns,
        error_variants: total,
        tested_variants: tested,
        uncovered_variants,
    }
}

proof fn lemma_qualified_prefix(ev: Seq<EnumView>, k: int)
    requires
        0 <= k <= ev.len(),
    ensures
        qualified_variants(ev.take(k)).len() <= qualified_variants(ev).len(),
    decreases ev.len() - k,
{
    if k < ev.len() {
        lemma_qualified_prefix(ev, k + 1);
        assert(ev.take(k + 1).drop_last() =~= ev.take(k));
    } else {
        assert(ev.take(k) =~= ev);
    }
}

/// The gates on the counts of an audit: at least half of the public
/// functions and half of the error variants are tested (a scope without
/// any passes that gate).
pub open spec fn counts_gates_spec(c: AuditCounts) -> bool {
    &&& (c.total_pub_fns == 0 || 2 * c.tested_pub_fns >= c.total_pub_fns)
    &&& (c.error_variants == 0 || 2 * c.tested_variants >= c.error_variants)
}

pub fn counts_gates_met(c: &AuditCounts) -> (r: bool)
    ensures
        r == counts_gates_spec(*c),
{
    let fn_ok = c.total_pub_fns == 0 || (c.tested_pub_fns as u128) * 2 >= c.total_pub_fns as u128;
    let err_ok = c.error_variants == 0 || (c.tested_variants as u128) * 2 >= c.error_variants as u128;
    fn_ok && err_ok
}

// ───────────────────────────── coverage reports ─────────────────────────────

/// What one line of an LCOV trace counts, as (instrumented, hit): a `DA:`
/// line with a second comma-separated field is an instrumented line, and a
/// hit one when that field, trimmed, reads a positive count.
pub open spec fn lcov_line(l: Seq<char>) -> (nat, nat) {
    match strip_prefix(l, "DA:"@) {
        Some(rest) => {
            let f = split(rest, ',');
            if f.len() >= 2 {
                match parse_u32(trim(f[1])) {
                    Some(n) => if n > 0 { (1, 1) } else { (1, 0) },
                    None => (1, 0),
                }
            } else {
                (0, 0)
            }
        },
        None => (0, 0),
    }
}

/// The LCOV counts of the first `k` lines.
pub open spec fn lcov_upto(ls: Seq<Seq<char>>, k: int) -> (nat, nat)
    decreases k,
{
    if k <= 0 {
        (0, 0)
    } else {
        let p = lcov_upto(ls, k - 1);
        let c = lcov_line(ls[k - 1]);
        (p.0 + c.0, p.1 + c.1)
    }
}

/// The (instrumented, hit) line counts of an LCOV trace.
pub open spec fn lcov_counts(content: Seq<char>) -> (nat, nat) {
    lcov_upto(lines(content), lines(content).len() as int)
}

/// Counts the instrumented and the hit lines of an LCOV trace; the line
/// coverage is the second over the first.
pub fn lcov_line_counts(content: &str) -> (r: (usize, usize))
    ensures
        r.0 == lcov_counts(content@).0,
        r.1 == lcov_counts(content@).1,
        r.1 <= r.0,
{
    let c = chars_of(content);
    let ls = lines_exec(c.as_slice());
    let ghost all = views(ls@);
    let da = chars_of("DA:");
    let mut total: usize = 0;
    let mut hit: usize = 0;
    let mut i: usize = 0;
    proof {
        reveal_strlit("DA:");
    }
    while i < ls.len()
        invariant
            i <= ls.len(),
            all == views(ls@),
            da@ == "DA:"@,
            da@.len() == 3,
            (total as nat, hit as nat) == lcov_upto(all, i as int),
            hit <= total <= i,
        decreases ls.len() - i,
    {
        let line = &ls[i];
        assert(all[i as int] == line@);
        if starts_with_exec(line.as_slice(), da.as_slice()) {
            let rest = slice_of(line.as_slice(), 3, line.len());
            assert(rest@ =~= line@.skip(3));
            let f = split_exec(rest.as_slice(), ',');
            if f.len() >= 2 {
                assert(f@[1]@ == split(rest@, ',')[1]);
                let t = trim_exec(f[1].as_slice());
                total = total + 1;
                match parse_u32_exec(t.as_slice()) {
                    Some(n) => {
                        if n > 0 {
                            hit = hit + 1;
                        }
                    },
                    None => {},
                }
            }
        }
        i = i + 1;
    }
    (total, hit)
}

/// The value of the `line-rate` attribute of a Cobertura report: on the
/// first line that, trimmed, opens a `<coverage` element and holds
/// `line-rate="`, the text after it up to the next quote (or up to a second
/// `line-rate="`).
pub open spec fn cobertura_rate_of(l: Seq<char>) -> Option<Seq<char>> {
    match strip_prefix(trim(l), "<coverage"@) {
        Some(rest) => match find(rest, "line-rate=\""@) {
            Some(i) => {
                let r = rest.skip(i + 11);
                let seg = match find(r, "line-rate=\""@) {
                    Some(j) => r.take(j),
                    None => r,
                };
                match find(seg, "\""@) {
                    Some(k) => Some(seg.take(k)),
                    None => Some(seg),
                }
            },
            None => None,
        },
        None => None,
    }
}

pub open spec fn cobertura_rate_in(ls: Seq<Seq<char>>) -> Option<Seq<char>>
    decreases ls.len(),
{
    if ls.len() == 0 {
        None
    } else {
        match cobertura_rate_of(ls[0]) {
            Some(v) => Some(v),
            None => cobertura_rate_in(ls.drop_first()),
        }
    }
}

/// Reads the `line-rate` text of a Cobertura XML report (see
/// `cobertura_rate_of`); the coverage is that rate times a hundred.
pub fn cobertura_line_rate(content: &str) -> (r: Option<String>)
    ensures
        match r {
            Some(v) => cobertura_rate_in(lines(content@)) == Some(v@),
            None => cobertura_rate_in(lines(content@)) == None::<Seq<char>>,
        },
{
    let c = chars_of(content);
    let mut a: usize = 0;
    assert(c@.skip(0) =~= c@);
    while a < c.len()
        invariant
            a <= c.len(),
            c@ == content@,
            cobertura_rate_in(lines(c@.skip(a as int))) == cobertura_rate_in(lines(content@)),
        decreases c.len() - a,
    {
        let ghost rest = c@.skip(a as int);
        match find_char_from(c.as_slice(), a, '\n') {
            Some(k) => {
                let raw = slice_of(c.as_slice(), a, k);
                let line = strip_cr_exec(raw.as_slice());
                let ghost tail = lines(c@.skip(k + 1));
                proof {
                    assert(raw@ =~= rest.take(k - a));
                    assert(rest.skip(k - a + 1) =~= c@.skip(k + 1));
                    assert(lines(rest) == seq![line@] + tail);
                    assert((seq![line@] + tail)[0] == line@);
                    assert((seq![line@] + tail).drop_first() =~= tail);
                }
                match cobertura_rate_exec(line.as_slice()) {
                    Some(v) => {
                        return Some(v);
                    },
                    None => {},
                }
                a = k + 1;
            },
            None => {
                let line = slice_of(c.as_slice(), a, c.len());
                proof {
                    assert(line@ =~= rest);
                    assert(lines(rest) == seq![rest]);
                    assert(seq![rest][0] == rest);
                    assert(seq![rest].drop_first() =~= Seq::<Seq<char>>::empty());
                    assert(cobertura_rate_in(Seq::<Seq<char>>::empty()) == None::<Seq<char>>);
                }
                return cobertura_rate_exec(line.as_slice());
            },
        }
    }
    proof {
        assert(c@.skip(a as int) =~= Seq::<char>::empty());
    }
    None
}

fn cobertura_rate_exec(line: &[char]) -> (r: Option<String>)
    ensures
        match r {
            Some(v) => cobertura_rate_of(line@) == Some(v@),
            None => cobertura_rate_of(line@) == None::<Seq<char>>,
        },
{
    let open_tag = chars_of("<coverage");
    let attr = chars_of("line-rate=\"");
    let quote = chars_of("\"");
    proof {
        reveal_strlit("line-rate=\"");
        reveal_strlit("<coverage");
    }
    let t = trim_exec(line);
    if starts_with_exec(t.as_slice(), open_tag.as_slice()) {
        let rest = slice_of(t.as_slice(), open_tag.len(), t.len());
        assert(rest@ =~= t@.skip(9));
        assert(strip_prefix(t@, "<coverage"@) == Some(rest@));
        match find_exec(rest.as_slice(), attr.as_slice()) {
            Some(at) => {
                proof {
                    lemma_find(rest@, attr@);
                }
                let r = slice_of(rest.as_slice(), at + 11, rest.len());
                assert(r@ =~= rest@.skip(at + 11));
                let seg = prefix_before(r.as_slice(), attr.as_slice());
                let val = prefix_before(seg.as_slice(), quote.as_slice());
                Some(string_of(val.as_slice()))
            },
            None => None,
        }
    } else {
        None
    }
}

} // verus!
