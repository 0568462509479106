//! Changelog entries: when a release needs a new entry, and what to do
//! with the commit log that feeds it.

use vstd::prelude::*;
use crate::release::{
    join_path, join_path_exec, normalize_version, normalized_version, records_version,
    records_version_exec, strip_path_prefix, strip_path_prefix_exec, precheck_errors, valid_version,
    notes_spec, notes_scan, join_lines, drop_headings, lemma_notes_skip_prefix, lemma_notes_capture,
    lemma_drop_headings_id, lemma_join_front, lemma_join_split, string_views,
};
use crate::audit::semver_triple;
use crate::latest_tags::{
    lemma_order_key_parses, order_key, order_key_exec, semver_compare, semver_order, zero_version_parses,
};
use crate::text::{
    append, append_str, chars_of, contains, contains_exec, find, find_exec, lemma_find, matches_at,
    slice_of, string_of, trim, trim_exec, lines, split, strip_cr, has_char, starts_with, trim_start,
    lemma_find_none, lemma_trim_strip_cr, lemma_trim_end_ws, lemma_lines_concat, lemma_lines_split,
    lemma_split_piece_contains, lemma_has_char_contains, lemma_trim_starts_contains,
    lemma_contains_sub, lemma_trim_ws_ends,
};
use crate::tag::lemma_split_nonempty;

verus! {

/// Why a changelog entry could not be produced.
#[derive(Debug)]
pub enum ChangelogError {
    Io(String),
    Git(String),
    Llm(String),
    NoNewCommits,
    Lib(String),
}

/// The message shown for an error.
pub open spec fn changelog_error_text(e: ChangelogError) -> Seq<char> {
    match e {
        ChangelogError::Io(s) => "I/O 错误: "@ + s@,
        ChangelogError::Git(s) => "git 操作失败: "@ + s@,
        ChangelogError::Llm(s) => "LLM 调用失败: "@ + s@,
        ChangelogError::NoNewCommits => "没有新的提交记录"@,
        ChangelogError::Lib(s) => s@,
    }
}

/// The plain value of an error: its variant number and its text.
pub open spec fn changelog_error_view(e: ChangelogError) -> (int, Seq<char>) {
    match e {
        ChangelogError::Io(s) => (0, s@),
        ChangelogError::Git(s) => (1, s@),
        ChangelogError::Llm(s) => (2, s@),
        ChangelogError::NoNewCommits => (3, Seq::empty()),
        ChangelogError::Lib(s) => (4, s@),
    }
}

impl ChangelogError {
    pub fn message(&self) -> (r: String)
        ensures
            r@ == changelog_error_text(*self),
    {
        let mut v: Vec<char> = Vec::new();
        match self {
            ChangelogError::Io(s) => {
                append_str(&mut v, "I/O 错误: ");
                append_str(&mut v, s.as_str());
            },
            ChangelogError::Git(s) => {
                append_str(&mut v, "git 操作失败: ");
                append_str(&mut v, s.as_str());
            },
            ChangelogError::Llm(s) => {
                append_str(&mut v, "LLM 调用失败: ");
                append_str(&mut v, s.as_str());
            },
            ChangelogError::NoNewCommits => {
                append_str(&mut v, "没有新的提交记录");
            },
            ChangelogError::Lib(s) => {
                append_str(&mut v, s.as_str());
            },
        }
        string_of(v.as_slice())
    }
}

/// What reading the commit log since the last tag yields: an empty log, or
/// a failure that says so, means there is nothing new; any other failure is
/// passed on.
pub open spec fn git_log_outcome(r: Result<Seq<char>, Seq<char>>) -> Result<Seq<char>, (int, Seq<char>)> {
    match r {
        Ok(log) => if log.len() == 0 {
            Err((3, Seq::empty()))
        } else {
            Ok(log)
        },
        Err(msg) => if contains(msg, "没有新的提交"@) {
            Err((3, Seq::empty()))
        } else {
            Err((4, msg))
        },
    }
}

pub fn classify_git_log(r: Result<String, String>) -> (out: Result<String, ChangelogError>)
    ensures
        match out {
            Ok(log) => git_log_outcome(match r {
                Ok(l) => Ok(l@),
                Err(e) => Err(e@),
            }) == Ok::<Seq<char>, (int, Seq<char>)>(log@),
            Err(e) => git_log_outcome(match r {
                Ok(l) => Ok(l@),
                Err(e) => Err(e@),
            }) == Err::<Seq<char>, (int, Seq<char>)>(changelog_error_view(e)),
        },
{
    match r {
        Ok(log) => {
            let lv = chars_of(log.as_str());
            if lv.len() == 0 {
                Err(ChangelogError::NoNewCommits)
            } else {
                Ok(log)
            }
        },
        Err(msg) => {
            let m = chars_of(msg.as_str());
            let pat = chars_of("没有新的提交");
            if contains_exec(m.as_slice(), pat.as_slice()) {
                Err(ChangelogError::NoNewCommits)
            } else {
                Err(ChangelogError::Lib(msg))
            }
        },
    }
}

/// Whether the changelog (its text, none when the file is missing) already
/// has an entry for `version`.
pub fn changelog_has_version(version: &str, changelog: Option<&str>) -> (r: bool)
    ensures
        r == match changelog {
            Some(c) => (contains(c@, "## ["@ + normalized_version(version@) + "]"@) || contains(
                c@,
                "## [v"@ + normalized_version(version@) + "]"@,
            )),
            None => false,
        },
{
    match changelog {
        Some(c) => {
            let ver = normalize_version(version);
            records_version_exec(c, ver.as_str())
        },
        None => false,
    }
}

/// The next step towards the changelog entry of a version.
#[derive(Debug)]
pub enum ChangelogAction {
    /// The changelog already records the version: nothing is read, generated
    /// or written.
    Skip,
    /// The commit log since the last tag is needed to go on.
    ReadLog,
    /// No commits since the last tag: the entry only notes the promotion of
    /// a prerelease.
    Promote(String),
    /// Summarise this commit log into the entry.
    Generate(String),
}

/// Decides the next step towards the changelog entry of `version`, given the
/// changelog's text (none when the file is missing) and, once it was read,
/// the outcome of reading the commit log. A changelog that already records
/// the version is left as it is, whatever else is known.
pub fn ensure_changelog(
    version: &str,
    changelog: Option<&str>,
    git_log: Option<Result<String, ChangelogError>>,
) -> (r: Result<ChangelogAction, ChangelogError>)
    ensures
        match changelog {
            Some(c) => (contains(c@, "## ["@ + normalized_version(version@) + "]"@) || contains(
                c@,
                "## [v"@ + normalized_version(version@) + "]"@,
            )),
            None => false,
        } ==> r matches Ok(ChangelogAction::Skip),
        !match changelog {
            Some(c) => (contains(c@, "## ["@ + normalized_version(version@) + "]"@) || contains(
                c@,
                "## [v"@ + normalized_version(version@) + "]"@,
            )),
            None => false,
        } ==> match git_log {
            None => r matches Ok(ChangelogAction::ReadLog),
            Some(Ok(log)) => r matches Ok(ChangelogAction::Generate(l)) && l@ == log@,
            Some(Err(ChangelogError::NoNewCommits)) => r matches Ok(ChangelogAction::Promote(t)) && t@
                == "阶段晋级至 "@ + version@,
            Some(Err(e)) => r matches Err(e2) && changelog_error_view(e2) == changelog_error_view(e),
        },
{
    if changelog_has_version(version, changelog) {
        return Ok(ChangelogAction::Skip);
    }
    match git_log {
        None => Ok(ChangelogAction::ReadLog),
        Some(Ok(log)) => Ok(ChangelogAction::Generate(log)),
        Some(Err(ChangelogError::NoNewCommits)) => {
            let mut v: Vec<char> = Vec::new();
            append_str(&mut v, "阶段晋级至 ");
            append_str(&mut v, version);
            Ok(ChangelogAction::Promote(string_of(v.as_slice())))
        },
        Some(Err(e)) => Err(e),
    }
}

/// The changelog path reported after writing: relative to the repository
/// when it lies inside it.
pub open spec fn changelog_report_path(repo: Seq<char>, scope_dir: Seq<char>) -> Seq<char> {
    let p = join_path(scope_dir, "CHANGELOG.md"@);
    match strip_path_prefix(p, repo) {
        Some(r) => r,
        None => p,
    }
}

pub fn changelog_rel_path(repo_path: &str, scope_dir: &str) -> (r: String)
    ensures
        r@ == changelog_report_path(repo_path@, scope_dir@),
{
    let p = join_path_exec(scope_dir, "CHANGELOG.md");
    match strip_path_prefix_exec(p.as_str(), repo_path) {
        Some(r) => r,
        None => p,
    }
}

// ───────────────────────────── writing an entry ─────────────────────────────

/// Today's date in the local time zone as `YYYY-MM-DD`, from
/// `jiff::Zoned::now()` and `strftime("%Y-%m-%d")`. Nothing is stated of the
/// text: it depends on the clock. (`Zoned::now` panics only when the system
/// clock cannot be read as a valid time.)
#[verifier::external_body]
fn today() -> (r: String) {
    jiff::Zoned::now().strftime("%Y-%m-%d").to_string()
}

/// A changelog with the entry of `version` (dated `date`) placed before the
/// first existing version heading, or at the end when there is none; a
/// missing changelog starts as `# CHANGELOG`.
pub open spec fn with_entry_spec(existing: Option<Seq<char>>, version: Seq<char>, date: Seq<char>, content: Seq<char>) -> Seq<
    char,
> {
    let entry = "\n## ["@ + normalized_version(version) + "] - "@ + date + "\n\n"@ + content + "\n"@;
    let base = match existing {
        Some(e) => e,
        None => "# CHANGELOG\n"@,
    };
    match find(base, "\n## "@) {
        Some(i) => base.take(i) + entry + base.skip(i),
        None => base + entry,
    }
}

pub open spec fn str_opt(o: Option<&str>) -> Option<Seq<char>> {
    match o {
        Some(e) => Some(e@),
        None => None,
    }
}

/// Places the entry of `version`, dated `date`, into the changelog text
/// (none when the file does not exist yet).
pub fn changelog_with_entry(existing: Option<&str>, version: &str, date: &str, content: &str) -> (r: String)
    ensures
        r@ == with_entry_spec(
            match existing {
                Some(e) => Some(e@),
                None => None,
            },
            version@,
            date@,
            content@,
        ),
{
    let ver = normalize_version(version);
    let mut entry: Vec<char> = Vec::new();
    append_str(&mut entry, "\n## [");
    append_str(&mut entry, ver.as_str());
    append_str(&mut entry, "] - ");
    append_str(&mut entry, date);
    append_str(&mut entry, "\n\n");
    append_str(&mut entry, content);
    append_str(&mut entry, "\n");
    let base = match existing {
        Some(e) => chars_of(e),
        None => chars_of("# CHANGELOG\n"),
    };
    let pat = chars_of("\n## ");
    let mut out: Vec<char> = Vec::new();
    match find_exec(base.as_slice(), pat.as_slice()) {
        Some(i) => {
            proof {
                lemma_find(base@, pat@);
            }
            append(&mut out, slice_of(base.as_slice(), 0, i).as_slice());
            append(&mut out, entry.as_slice());
            append(&mut out, slice_of(base.as_slice(), i, base.len()).as_slice());
            assert(out@ =~= base@.take(i as int) + entry@ + base@.skip(i as int));
        },
        None => {
            append(&mut out, base.as_slice());
            append(&mut out, entry.as_slice());
        },
    }
    string_of(out.as_slice())
}

/// What a write gives back: a changelog into which the entry of `version`
/// was written records that version, so the changelog precheck of the
/// release finds nothing missing (only a malformed version is reported).
pub proof fn law_written_entry_recorded(
    existing: Option<Seq<char>>,
    version: Seq<char>,
    date: Seq<char>,
    content: Seq<char>,
    path: Seq<char>,
)
    ensures
        records_version(with_entry_spec(existing, version, date, content), normalized_version(version)),
        precheck_errors(version, path, Some(with_entry_spec(existing, version, date, content))) == (if valid_version(
            version,
        ) {
            Seq::<Seq<char>>::empty()
        } else {
            seq!["版本号格式错误: "@ + version]
        }),
{
    let ver = normalized_version(version);
    let head = "## ["@ + ver + "]"@;
    let hl: int = head.len() as int;
    let entry = "\n## ["@ + ver + "] - "@ + date + "\n\n"@ + content + "\n"@;
    reveal_strlit("\n## [");
    reveal_strlit("## [");
    reveal_strlit("] - ");
    reveal_strlit("]");
    assert(entry.subrange(1, 1 + hl) =~= head);
    let base = match existing {
        Some(e) => e,
        None => "# CHANGELOG\n"@,
    };
    let w = with_entry_spec(existing, version, date, content);
    match find(base, "\n## "@) {
        Some(i) => {
            lemma_find(base, "\n## "@);
            assert(w == base.take(i) + entry + base.skip(i));
            assert(w.subrange(i + 1, i + 1 + hl) =~= entry.subrange(1, 1 + hl));
            assert(matches_at(w, head, i + 1));
        },
        None => {
            assert(w == base + entry);
            assert(w.subrange(base.len() + 1int, base.len() + 1int + hl) =~= entry.subrange(
                1,
                1 + hl,
            ));
            assert(matches_at(w, head, base.len() + 1int));
        },
    }
    assert(contains(w, head));
    let errs = precheck_errors(version, path, Some(w));
    assert(errs =~= (if valid_version(version) {
        Seq::<Seq<char>>::empty()
    } else {
        seq!["版本号格式错误: "@ + version]
    }) + Seq::<Seq<char>>::empty());
}

/// The line that follows the first `\n## ` of a changelog, where the
/// entry of a new version is placed: the heading of the newest recorded
/// version (none when there is no such line).
pub open spec fn next_heading(base: Seq<char>) -> Option<Seq<char>> {
    match find(base, "\n## "@) {
        Some(i) => Some(lines(base.skip(i + 1))[0]),
        None => None,
    }
}

/// A heading that ends the notes of `ver`: a `## [` heading naming
/// neither `ver` nor `v` + `ver`.
pub open spec fn ends_notes(h: Seq<char>, ver: Seq<char>) -> bool {
    starts_with(h, "## ["@) && !contains(h, ver) && !contains(h, seq!['v'] + ver)
}

proof fn lemma_contains_inner(h: Seq<char>, pre: Seq<char>, x: Seq<char>, post: Seq<char>)
    requires
        contains(h, pre + x + post),
    ensures
        contains(h, x),
        contains(h, pre),
{
    let m = pre + x + post;
    let j = choose|j: int| matches_at(h, m, j);
    assert(m.subrange(pre.len() as int, pre.len() + x.len() as int) =~= x);
    assert(m.subrange(0, pre.len() as int) =~= pre);
    assert(h.subrange(j + pre.len(), j + pre.len() + x.len()) =~= m.subrange(pre.len() as int, pre.len() + x.len() as int));
    assert(matches_at(h, x, j + pre.len()));
    assert(h.subrange(j, j + pre.len()) =~= m.subrange(0, pre.len() as int));
    assert(matches_at(h, pre, j));
}

/// A line of the entry's content neither ends the notes nor is a heading.
proof fn lemma_content_piece(c: Seq<char>, k: int, ver: Seq<char>)
    requires
        0 <= k < split(c, '\n').len(),
        !contains(c, "## ["@),
        !has_char(c, '\r'),
    ensures
        strip_cr(split(c, '\n')[k]) == split(c, '\n')[k],
        !starts_with(split(c, '\n')[k], "## ["@),
        !starts_with(trim(split(c, '\n')[k]), "## ["@),
        !starts_with(trim(split(c, '\n')[k]), "## ["@ + ver + "]"@),
        !starts_with(trim(split(c, '\n')[k]), "## [v"@ + ver + "]"@),
{
    reveal_strlit("## [");
    reveal_strlit("## [v");
    reveal_strlit("]");
    let q = split(c, '\n')[k];
    let h = "## ["@;
    if q.len() > 0 && q.last() == '\r' {
        assert(q.subrange(q.len() - 1, q.len() as int) =~= seq!['\r']);
        assert(matches_at(q, seq!['\r'], q.len() - 1));
        lemma_split_piece_contains(c, '\n', k, seq!['\r']);
        lemma_has_char_contains(c, '\r');
    }
    if starts_with(q, h) {
        assert(matches_at(q, h, 0));
        lemma_split_piece_contains(c, '\n', k, h);
    }
    if starts_with(trim(q), h) {
        lemma_trim_starts_contains(q, h);
        lemma_split_piece_contains(c, '\n', k, h);
    }
    let m1 = "## ["@ + ver + "]"@;
    let m2 = "## [v"@ + ver + "]"@;
    if starts_with(trim(q), m1) {
        assert(trim(q).subrange(0, 4) =~= m1.subrange(0, 4));
        assert(m1.subrange(0, 4) =~= h);
    }
    if starts_with(trim(q), m2) {
        assert(trim(q).subrange(0, 4) =~= m2.subrange(0, 4));
        assert(m2.subrange(0, 4) =~= h);
    }
}

/// A missing changelog starts without any version heading.
proof fn lemma_fresh_base(existing: Option<Seq<char>>, ver: Seq<char>)
    requires
        existing matches Some(e) ==> !records_version(e, ver),
    ensures
        ({
            let base = match existing {
                Some(e) => e,
                None => "# CHANGELOG\n"@,
            };
            &&& !contains(base, "## ["@ + ver + "]"@)
            &&& !contains(base, "## [v"@ + ver + "]"@)
            &&& existing is None ==> find(base, "\n## "@) is None
        }),
{
    reveal_strlit("## [");
    reveal_strlit("## [v");
    reveal_strlit("]");
    reveal_strlit("\n## ");
    reveal_strlit("# CHANGELOG\n");
    let m1 = "## ["@ + ver + "]"@;
    let m2 = "## [v"@ + ver + "]"@;
    if existing is None {
        let base = "# CHANGELOG\n"@;
        assert forall|j: int| !matches_at(base, "\n## "@, j) by {
            if matches_at(base, "\n## "@, j) {
                assert(base.subrange(j, j + 4)[0] == base[j]);
            }
        }
        lemma_find_none(base, "\n## "@);
        assert forall|j: int| !matches_at(base, m1, j) by {
            if matches_at(base, m1, j) {
                assert(base.subrange(j, j + m1.len())[0] == base[j]);
                assert(base.subrange(j, j + m1.len())[1] == base[j + 1]);
            }
        }
        assert forall|j: int| !matches_at(base, m2, j) by {
            if matches_at(base, m2, j) {
                assert(base.subrange(j, j + m2.len())[0] == base[j]);
                assert(base.subrange(j, j + m2.len())[1] == base[j + 1]);
            }
        }
    }
}

/// The heading line of a new entry holds no line break and starts the
/// notes of its version.
proof fn lemma_entry_heading(ver: Seq<char>, date: Seq<char>)
    requires
        !has_char(ver, '\n'),
        !has_char(date, '\n'),
    ensures
        !has_char("## ["@ + ver + "] - "@ + date, '\n'),
        starts_with(trim(strip_cr("## ["@ + ver + "] - "@ + date)), "## ["@ + ver + "]"@),
{
    reveal_strlit("## [");
    reveal_strlit("] - ");
    reveal_strlit("]");
    let m1 = "## ["@ + ver + "]"@;
    let h = "## ["@ + ver + "] - "@ + date;
    assert forall|j: int| 0 <= j < h.len() implies h[j] != '\n' by {
        if 4 <= j < 4 + ver.len() {
            assert(h[j] == ver[j - 4]);
            if ver[j - 4] == '\n' {
                assert(has_char(ver, '\n'));
            }
        } else if j >= 8 + ver.len() {
            assert(h[j] == date[j - 8 - ver.len()]);
            if date[j - 8 - ver.len()] == '\n' {
                assert(has_char(date, '\n'));
            }
        }
    }
    lemma_trim_strip_cr(h);
    let b = lemma_trim_end_ws(h);
    assert(h[m1.len() - 1] == ']');
    assert(b >= m1.len());
    assert(h[0] == '#');
    assert(trim_start(h) == h);
    assert(trim(h) == h.take(b));
    assert(trim(h).subrange(0, m1.len() as int) =~= m1);
}

/// The lines of an entry's body taken as notes: a blank line, then the
/// content's lines.
pub open spec fn body_lines(c: Seq<char>) -> Seq<Seq<char>> {
    seq![Seq::<char>::empty()] + split(c, '\n')
}

proof fn lemma_body_lines_plain(c: Seq<char>, ver: Seq<char>)
    requires
        !contains(c, "## ["@),
        !has_char(c, '\r'),
    ensures
        split(c, '\n').map_values(|x: Seq<char>| strip_cr(x)) == split(c, '\n'),
        forall|k: int|
            0 <= k < body_lines(c).len() ==> {
                &&& !starts_with(#[trigger] body_lines(c)[k], "## ["@)
                &&& !starts_with(trim(body_lines(c)[k]), "## ["@)
                &&& !starts_with(trim(body_lines(c)[k]), "## ["@ + ver + "]"@)
                &&& !starts_with(trim(body_lines(c)[k]), "## [v"@ + ver + "]"@)
            },
{
    reveal_strlit("## [");
    reveal_strlit("## [v");
    reveal_strlit("]");
    let pieces = split(c, '\n');
    let bl = body_lines(c);
    assert forall|k: int| 0 <= k < pieces.len() implies strip_cr(#[trigger] pieces[k]) == pieces[k] by {
        lemma_content_piece(c, k, ver);
    }
    assert(pieces.map_values(|x: Seq<char>| strip_cr(x)) =~= pieces);
    let e = Seq::<char>::empty();
    assert(trim(e) =~= e);
    assert forall|k: int| 0 <= k < bl.len() implies {
        &&& !starts_with(#[trigger] bl[k], "## ["@)
        &&& !starts_with(trim(bl[k]), "## ["@)
        &&& !starts_with(trim(bl[k]), "## ["@ + ver + "]"@)
        &&& !starts_with(trim(bl[k]), "## [v"@ + ver + "]"@)
    } by {
        if k > 0 {
            assert(bl[k] == pieces[k - 1]);
            lemma_content_piece(c, k - 1, ver);
        } else {
            assert(bl[0] == e);
        }
    }
}

/// The notes taken from the body of a new entry at the end of the
/// changelog.
proof fn lemma_body_notes_last(c: Seq<char>, ver: Seq<char>)
    requires
        !contains(c, "## ["@),
        !has_char(c, '\r'),
    ensures
        notes_scan(lines(seq!['\n'] + c + seq!['\n']), true, ver) == body_lines(c),
{
    let e = Seq::<char>::empty();
    lemma_body_lines_plain(c, ver);
    assert(seq!['\n'] + c + seq!['\n'] =~= e + seq!['\n'] + (c + seq!['\n'] + e));
    lemma_lines_concat(e, c + seq!['\n'] + e);
    lemma_lines_split(c, e);
    assert(strip_cr(e) =~= e);
    assert(lines(e) == Seq::<Seq<char>>::empty());
    assert(lines(seq!['\n'] + c + seq!['\n']) =~= body_lines(c) + Seq::<Seq<char>>::empty());
    lemma_notes_capture(body_lines(c), Seq::<Seq<char>>::empty(), ver);
    assert(body_lines(c) + Seq::<Seq<char>>::empty() =~= body_lines(c));
}

/// The notes taken from the body of a new entry placed before the heading
/// of another version.
proof fn lemma_body_notes_before(c: Seq<char>, t1: Seq<char>, ver: Seq<char>)
    requires
        !contains(c, "## ["@),
        !has_char(c, '\r'),
        lines(t1).len() > 0,
        ends_notes(lines(t1)[0], ver),
    ensures
        notes_scan(lines(seq!['\n'] + c + seq!['\n'] + (seq!['\n'] + t1)), true, ver) == body_lines(c).push(
            Seq::<char>::empty(),
        ),
{
    reveal_strlit("## [");
    reveal_strlit("## [v");
    reveal_strlit("]");
    let e = Seq::<char>::empty();
    let t = seq!['\n'] + t1;
    lemma_body_lines_plain(c, ver);
    assert(seq!['\n'] + c + seq!['\n'] + t =~= e + seq!['\n'] + (c + seq!['\n'] + t));
    lemma_lines_concat(e, c + seq!['\n'] + t);
    lemma_lines_split(c, t);
    assert(strip_cr(e) =~= e);
    assert(t =~= e + seq!['\n'] + t1);
    lemma_lines_concat(e, t1);
    let captured = body_lines(c).push(e);
    assert(lines(seq!['\n'] + c + seq!['\n'] + t) =~= captured + lines(t1));
    let hd = lines(t1)[0];
    let m1 = "## ["@ + ver + "]"@;
    let m2 = "## [v"@ + ver + "]"@;
    if starts_with(trim(hd), m1) {
        lemma_trim_starts_contains(hd, m1);
        lemma_contains_inner(hd, "## ["@, ver, "]"@);
    }
    if starts_with(trim(hd), m2) {
        lemma_trim_starts_contains(hd, m2);
        assert(m2 =~= "## ["@ + (seq!['v'] + ver) + "]"@);
        lemma_contains_inner(hd, "## ["@, seq!['v'] + ver, "]"@);
    }
    assert(notes_scan(lines(t1), true, ver) == Seq::<Seq<char>>::empty());
    assert forall|k: int| 0 <= k < captured.len() implies {
        &&& !starts_with(#[trigger] captured[k], "## ["@)
        &&& !starts_with(trim(captured[k]), "## ["@ + ver + "]"@)
        &&& !starts_with(trim(captured[k]), "## [v"@ + ver + "]"@)
    } by {
        if k < body_lines(c).len() {
            assert(captured[k] == body_lines(c)[k]);
        } else {
            assert(captured[k] == e);
            assert(trim(e) =~= e);
        }
    }
    lemma_notes_capture(captured, lines(t1), ver);
    assert(captured + Seq::<Seq<char>>::empty() =~= captured);
}

/// The text of the notes of a body: the content, trimmed.
proof fn lemma_body_text(c: Seq<char>, ver: Seq<char>, closed: bool)
    requires
        !contains(c, "## ["@),
        !has_char(c, '\r'),
    ensures
        trim(join_lines(drop_headings(if closed { body_lines(c).push(Seq::<char>::empty()) } else { body_lines(c) }))) == trim(c),
{
    reveal_strlit("## [");
    let e = Seq::<char>::empty();
    lemma_body_lines_plain(c, ver);
    let bl = body_lines(c);
    let captured = if closed { bl.push(e) } else { bl };
    assert forall|k: int| 0 <= k < captured.len() implies !starts_with(trim(#[trigger] captured[k]), "## ["@) by {
        if k < bl.len() {
            assert(captured[k] == bl[k]);
        } else {
            assert(captured[k] == e);
            assert(trim(e) =~= e);
        }
    }
    lemma_drop_headings_id(captured);
    lemma_split_nonempty(c, '\n');
    lemma_join_split(c);
    lemma_join_front(e, split(c, '\n'));
    lemma_trim_ws_ends(c, '\n');
    if closed {
        assert(captured.drop_last() =~= bl);
        assert(join_lines(captured) == join_lines(bl) + seq!['\n'] + e);
        assert(join_lines(captured) =~= seq!['\n'] + (c + seq!['\n']));
        lemma_trim_ws_ends(c + seq!['\n'], '\n');
    } else {
        assert(join_lines(captured) =~= seq!['\n'] + c);
    }
}

/// What a write gives back: after the entry of `version` is written into a
/// changelog that did not record it, the release notes extracted for
/// `version` are the entry's content, trimmed (none when that is blank).
/// This holds when the content holds no `## [` heading and no `\r`, the
/// version and the date hold no line break, and the heading after the new
/// entry names another version.
#[verifier::spinoff_prover]
#[verifier::rlimit(60)]
pub proof fn law_written_entry_notes(
    existing: Option<Seq<char>>,
    version: Seq<char>,
    date: Seq<char>,
    content: Seq<char>,
)
    requires
        !has_char(normalized_version(version), '\n'),
        !has_char(date, '\n'),
        !contains(content, "## ["@),
        !has_char(content, '\r'),
        existing matches Some(e) ==> !records_version(e, normalized_version(version)),
        existing matches Some(e) ==> (next_heading(e) matches Some(h) ==> ends_notes(h, normalized_version(version))),
    ensures
        notes_spec(version, with_entry_spec(existing, version, date, content)) == (if trim(content).len() == 0 {
            None
        } else {
            Some(trim(content))
        }),
{
    let ver = normalized_version(version);
    let m1 = "## ["@ + ver + "]"@;
    let m2 = "## [v"@ + ver + "]"@;
    reveal_strlit("## [");
    reveal_strlit("] - ");
    reveal_strlit("\n## [");
    reveal_strlit("\n\n");
    reveal_strlit("\n");
    reveal_strlit("\n## ");
    let base = match existing {
        Some(e) => e,
        None => "# CHANGELOG\n"@,
    };
    let c = content;
    let h = "## ["@ + ver + "] - "@ + date;
    let entry = "\n## ["@ + ver + "] - "@ + date + "\n\n"@ + c + "\n"@;
    assert(entry =~= seq!['\n'] + h + seq!['\n'] + seq!['\n'] + c + seq!['\n']);
    let w = with_entry_spec(existing, version, date, content);
    lemma_fresh_base(existing, ver);
    lemma_entry_heading(ver, date);
    lemma_find(base, "\n## "@);
    let closed = find(base, "\n## "@) is Some;
    let (p, t) = match find(base, "\n## "@) {
        Some(i) => (base.take(i), base.skip(i)),
        None => (base, Seq::<char>::empty()),
    };
    let r2 = seq!['\n'] + c + seq!['\n'] + t;
    let r = h + seq!['\n'] + r2;
    match find(base, "\n## "@) {
        Some(i) => {
            assert(w =~= p + seq!['\n'] + r);
            assert(p =~= base.subrange(0, i));
            if contains(p, m1) {
                lemma_contains_sub(base, 0, i, m1);
            }
            if contains(p, m2) {
                lemma_contains_sub(base, 0, i, m2);
            }
            let t1 = base.skip(i + 1);
            assert(t =~= seq!['\n'] + t1);
            assert(base.skip(i).subrange(0, 4) =~= "\n## "@);
            assert(t1.len() > 0);
            assert(lines(t1).len() > 0);
            assert(next_heading(base) == Some(lines(t1)[0]));
            lemma_body_notes_before(c, t1, ver);
        },
        None => {
            assert(w =~= p + seq!['\n'] + r);
            assert(r2 =~= seq!['\n'] + c + seq!['\n']);
            lemma_body_notes_last(c, ver);
        },
    }
    lemma_notes_skip_prefix(p, r, ver);
    lemma_lines_concat(h, r2);
    let lr = lines(r);
    assert(lr[0] == strip_cr(h));
    assert(lr.drop_first() =~= lines(r2));
    assert(notes_scan(lines(w), false, ver) == notes_scan(lines(r2), true, ver));
    lemma_body_text(c, ver, closed);
}

/// The changelog text with a new entry for `version`, dated today.
pub fn write_changelog_entry(existing: Option<&str>, version: &str, content: &str) -> (r: String)
    ensures
        exists|date: Seq<char>| r@ == #[trigger] with_entry_spec(str_opt(existing), version@, date, content@),
{
    let date = today();
    changelog_with_entry(existing, version, date.as_str(), content)
}

/// The range of commits to summarise: since the latest tag, or the whole
/// history.
pub fn log_range(tag: Option<&str>) -> (r: String)
    ensures
        r@ == match tag {
            Some(t) => t@ + "..HEAD"@,
            None => "HEAD"@,
        },
{
    match tag {
        Some(t) => {
            let mut v: Vec<char> = Vec::new();
            append_str(&mut v, t);
            append_str(&mut v, "..HEAD");
            string_of(v.as_slice())
        },
        None => "HEAD".to_owned(),
    }
}

/// What `git log --oneline` gave: its trimmed output, an error when it
/// failed (its trimmed error output, or a plain message), or the note that
/// there is nothing new.
pub open spec fn git_log_spec(success: bool, stdout: Seq<char>, stderr: Seq<char>) -> Result<Seq<char>, Seq<char>> {
    if !success {
        Err(if trim(stderr).len() == 0 {
            "git log 失败"@
        } else {
            trim(stderr)
        })
    } else if trim(stdout).len() == 0 {
        Err("没有新的提交记录"@)
    } else {
        Ok(trim(stdout))
    }
}

pub fn git_log_result(success: bool, stdout: &str, stderr: &str) -> (r: Result<String, String>)
    ensures
        match r {
            Ok(s) => git_log_spec(success, stdout@, stderr@) == Ok::<Seq<char>, Seq<char>>(s@),
            Err(e) => git_log_spec(success, stdout@, stderr@) == Err::<Seq<char>, Seq<char>>(e@),
        },
{
    if !success {
        let t = trim_exec(chars_of(stderr).as_slice());
        if t.len() == 0 {
            return Err("git log 失败".to_owned());
        }
        return Err(string_of(t.as_slice()));
    }
    let t = trim_exec(chars_of(stdout).as_slice());
    if t.len() == 0 {
        return Err("没有新的提交记录".to_owned());
    }
    Ok(string_of(t.as_slice()))
}

/// The newest of `tags` by `semver_order` of their order texts; of equally
/// new tags the first.
pub open spec fn newest_tag(tags: Seq<Seq<char>>) -> Option<Seq<char>>
    decreases tags.len(),
{
    if tags.len() == 0 {
        None
    } else {
        let t = tags.last();
        match newest_tag(tags.drop_last()) {
            None => Some(t),
            Some(c) => if semver_order(order_key(c), order_key(t)) == -1 {
                Some(t)
            } else {
                Some(c)
            },
        }
    }
}

/// The newest tag by version (sorted by version, the first). No tag is
/// newer than the one returned.
pub fn latest_tag_by_name(tags: &[String]) -> (r: Option<String>)
    ensures
        match r {
            None => tags@.len() == 0,
            Some(t) => {
                &&& newest_tag(string_views(tags@)) == Some(t@)
                &&& exists|i: int| 0 <= i < tags@.len() && tags@[i]@ == t@
                &&& forall|j: int|
                    0 <= j < tags@.len() ==> order_key(#[trigger] tags@[j]@) == order_key(t@) || semver_order(
                        order_key(t@),
                        order_key(tags@[j]@),
                    ) >= 0
            },
        },
{
    let ghost sv = string_views(tags@);
    if tags.len() == 0 {
        return None;
    }
    zero_version_parses();
    let mut best: usize = 0;
    let mut i: usize = 1;
    proof {
        assert(sv.take(1).drop_last() =~= Seq::<Seq<char>>::empty());
        assert(newest_tag(sv.take(1).drop_last()) is None);
        assert(sv.take(1).last() == tags@[0]@);
    }
    while i < tags.len()
        invariant
            1 <= i <= tags.len(),
            best < i,
            sv == string_views(tags@),
            semver_triple("0.0.0"@) is Some,
            newest_tag(sv.take(i as int)) == Some(tags@[best as int]@),
            forall|j: int|
                0 <= j < i ==> order_key(#[trigger] tags@[j]@) == order_key(tags@[best as int]@) || semver_order(
                    order_key(tags@[best as int]@),
                    order_key(tags@[j]@),
                ) >= 0,
        decreases tags.len() - i,
    {
        proof {
            assert(sv.take(i + 1).drop_last() =~= sv.take(i as int));
            assert(sv.take(i + 1).last() == tags@[i as int]@);
        }
        let a = order_key_exec(tags[best].as_str());
        let b = order_key_exec(tags[i].as_str());
        if semver_compare(a.as_str(), b.as_str()) == -1 {
            proof {
                assert forall|j: int| 0 <= j < i + 1 implies order_key(#[trigger] tags@[j]@) == order_key(
                    tags@[i as int]@,
                ) || semver_order(order_key(tags@[i as int]@), order_key(tags@[j]@)) >= 0 by {
                    if j < i && order_key(tags@[j]@) != order_key(tags@[best as int]@) {
                        lemma_order_key_parses(tags@[j]@);
                    }
                }
            }
            best = i;
        }
        i = i + 1;
    }
    proof {
        assert(sv.take(tags.len() as int) =~= sv);
    }
    Some(tags[best].clone())
}

} // verus!
