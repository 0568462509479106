//! Version inference: turning commit history into the next version number.

use vstd::prelude::*;
use crate::scope::{Scope, scope_views};
use crate::tag::{
    apply_scope_prefix, apply_scope_prefix_spec, build_version, build_version_fits,
    build_version_spec, parse_tag, parse_tag_spec, parse_version, parse_version_spec, VersionParts,
    VersionTuple,
};
use crate::text::{
    append, append_str, char_boundary, char_boundary_exec, byte_len, chars_of, contains,
    contains_exec, decimal, decimal_exec, has_char, has_char_exec, lines, lines_exec, lowercase,
    slice_of, starts_with, starts_with_exec, string_of, to_lowercase, trim, trim_exec, views,
    trim_leading, trim_leading_exec,
    lemma_views_push,
};

verus! {

/// Why a version could not be inferred.
pub enum DetectError {
    Git(String),
    Llm(String),
    Version(String),
    Other(String),
}

/// The plain value of a `DetectError`: its variant number and its text.
pub open spec fn detect_error_view(e: DetectError) -> (int, Seq<char>) {
    match e {
        DetectError::Git(s) => (0, s@),
        DetectError::Llm(s) => (1, s@),
        DetectError::Version(s) => (2, s@),
        DetectError::Other(s) => (3, s@),
    }
}

impl DetectError {
    /// The message shown to the user for this error.
    pub fn message(&self) -> (r: String)
        ensures
            r@ == match self {
                DetectError::Git(s) => "git 操作失败: "@ + s@,
                DetectError::Llm(s) => "LLM 调用失败: "@ + s@,
                DetectError::Version(s) => "版本号格式错误: "@ + s@,
                DetectError::Other(s) => s@,
            },
    {
        let mut v: Vec<char> = Vec::new();
        match self {
            DetectError::Git(s) => {
                append_str(&mut v, "git 操作失败: ");
                append_str(&mut v, s.as_str());
            },
            DetectError::Llm(s) => {
                append_str(&mut v, "LLM 调用失败: ");
                append_str(&mut v, s.as_str());
            },
            DetectError::Version(s) => {
                append_str(&mut v, "版本号格式错误: ");
                append_str(&mut v, s.as_str());
            },
            DetectError::Other(s) => {
                append_str(&mut v, s.as_str());
            },
        }
        string_of(&v)
    }
}

/// The outcome of version detection.
pub struct DetectResult {
    pub version: String,
}

/// A release decision: `action` is `release`, `skip` or `human`.
pub struct LlmDecision {
    pub action: String,
    pub increment: Option<String>,
    pub prerelease: Option<String>,
    pub reason: String,
}

pub type DecisionView = (Seq<char>, Option<Seq<char>>, Option<Seq<char>>, Seq<char>);

impl View for LlmDecision {
    type V = DecisionView;

    open spec fn view(&self) -> DecisionView {
        (self.action@, crate::tag::opt_view(self.increment), crate::tag::opt_view(self.prerelease), self.reason@)
    }
}

// ───────────────────────────── decisions ─────────────────────────────

/// The decision taken from three facts about the commits: without a logical
/// change there is nothing to release; a breaking change needs a human; a
/// feature bumps the minor number, anything else the patch number.
pub open spec fn decision_from_flags(has_feat: bool, has_breaking: bool, has_logic_change: bool) -> DecisionView {
    if !has_logic_change {
        ("skip"@, None, None, "仅有 chore/typo/CI 改动，无需发版"@)
    } else if has_breaking {
        ("human"@, None, None, "包含 breaking change，请人类指定 major 版本号"@)
    } else if has_feat {
        ("release"@, Some("minor"@), None, "包含 feat，minor 增量直发正式"@)
    } else {
        ("release"@, Some("patch"@), None, "包含 docs/fix/refactor，patch 增量直发正式"@)
    }
}

pub fn build_decision_from_flags(has_feat: bool, has_breaking: bool, has_logic_change: bool) -> (d: LlmDecision)
    ensures
        d@ == decision_from_flags(has_feat, has_breaking, has_logic_change),
{
    if !has_logic_change {
        return LlmDecision {
            action: "skip".to_owned(),
            increment: None,
            prerelease: None,
            reason: "仅有 chore/typo/CI 改动，无需发版".to_owned(),
        };
    }
    if has_breaking {
        return LlmDecision {
            action: "human".to_owned(),
            increment: None,
            prerelease: None,
            reason: "包含 breaking change，请人类指定 major 版本号".to_owned(),
        };
    }
    if has_feat {
        LlmDecision {
            action: "release".to_owned(),
            increment: Some("minor".to_owned()),
            prerelease: None,
            reason: "包含 feat，minor 增量直发正式".to_owned(),
        }
    } else {
        LlmDecision {
            action: "release".to_owned(),
            increment: Some("patch".to_owned()),
            prerelease: None,
            reason: "包含 docs/fix/refactor，patch 增量直发正式".to_owned(),
        }
    }
}

/// A commit announcing a breaking change.
pub open spec fn breaking_msg(m: Seq<char>) -> bool {
    contains(lowercase(m), "breaking"@) || (has_char(m, '!') && starts_with(lowercase(m), "feat"@))
}

/// A commit adding a feature.
pub open spec fn feat_msg(m: Seq<char>) -> bool {
    starts_with(lowercase(m), "feat"@) || contains(m, "Added"@)
}

/// A commit with some other logical change.
pub open spec fn logic_msg(m: Seq<char>) -> bool {
    ||| starts_with(lowercase(m), "fix"@)
    ||| starts_with(lowercase(m), "docs"@)
    ||| starts_with(lowercase(m), "refactor"@)
    ||| starts_with(lowercase(m), "test"@)
    ||| contains(m, "Fixed"@)
    ||| contains(m, "Changed"@)
}

pub open spec fn any_breaking(ms: Seq<Seq<char>>) -> bool {
    exists|i: int| 0 <= i < ms.len() && breaking_msg(#[trigger] ms[i])
}

pub open spec fn any_feat(ms: Seq<Seq<char>>) -> bool {
    exists|i: int| 0 <= i < ms.len() && !breaking_msg(#[trigger] ms[i]) && feat_msg(ms[i])
}

pub open spec fn any_logic(ms: Seq<Seq<char>>) -> bool {
    exists|i: int| 0 <= i < ms.len() && (breaking_msg(#[trigger] ms[i]) || feat_msg(ms[i]) || logic_msg(ms[i]))
}

pub open spec fn string_views(v: Seq<String>) -> Seq<Seq<char>> {
    v.map_values(|s: String| s@)
}

/// The decision the commit-message heuristic takes for `commits`.
pub open spec fn heuristic_decision(ms: Seq<Seq<char>>) -> DecisionView {
    decision_from_flags(any_feat(ms), any_breaking(ms), any_logic(ms))
}

/// Law: the heuristic never releases a breaking change by itself: a
/// breaking commit hands the decision to a human. Without any logical change
/// it skips the release; otherwise it releases, a minor step for a feature
/// and a patch step else.
pub proof fn law_heuristic_escalates_breaking(ms: Seq<Seq<char>>)
    ensures
        any_breaking(ms) ==> heuristic_decision(ms).0 == "human"@ && heuristic_decision(ms).1 is None,
        !any_logic(ms) ==> heuristic_decision(ms).0 == "skip"@,
        any_logic(ms) && !any_breaking(ms) ==> heuristic_decision(ms).0 == "release"@ && heuristic_decision(
            ms,
        ).1 == Some(if any_feat(ms) {
            "minor"@
        } else {
            "patch"@
        }),
{
    if any_breaking(ms) {
        let i = choose|i: int| 0 <= i < ms.len() && breaking_msg(#[trigger] ms[i]);
        assert(breaking_msg(ms[i]) || feat_msg(ms[i]) || logic_msg(ms[i]));
        assert(any_logic(ms));
    }
}

/// Law: how the heuristic reads commit messages, by their text and its
/// lowercase (`str::to_lowercase`), whatever the case of the type prefix.
/// A message that mentions "breaking" in any case, or a `feat` with a `!`,
/// hands the decision to a human. Otherwise a `feat` prefix in any case or an
/// "Added" makes a minor release. Otherwise a `fix`, `docs`, `refactor` or
/// `test` prefix in any case, or a "Fixed" or "Changed", makes a patch
/// release. Anything else is skipped.
pub proof fn law_heuristic_reads_messages(ms: Seq<Seq<char>>)
    ensures
        (exists|i: int|
            0 <= i < ms.len() && (contains(lowercase(#[trigger] ms[i]), "breaking"@) || (has_char(ms[i], '!')
                && starts_with(lowercase(ms[i]), "feat"@)))) ==> heuristic_decision(ms) == (
            "human"@,
            None::<Seq<char>>,
            None::<Seq<char>>,
            "包含 breaking change，请人类指定 major 版本号"@,
        ),
        (forall|i: int|
            0 <= i < ms.len() ==> !contains(lowercase(#[trigger] ms[i]), "breaking"@) && !(has_char(ms[i], '!')
                && starts_with(lowercase(ms[i]), "feat"@))) && (exists|i: int|
            0 <= i < ms.len() && (starts_with(lowercase(#[trigger] ms[i]), "feat"@) || contains(ms[i], "Added"@)))
            ==> heuristic_decision(ms) == (
            "release"@,
            Some("minor"@),
            None::<Seq<char>>,
            "包含 feat，minor 增量直发正式"@,
        ),
        (forall|i: int|
            0 <= i < ms.len() ==> !contains(lowercase(#[trigger] ms[i]), "breaking"@) && !starts_with(
                lowercase(ms[i]),
                "feat"@,
            ) && !contains(ms[i], "Added"@)) && (exists|i: int|
            0 <= i < ms.len() && (starts_with(lowercase(#[trigger] ms[i]), "fix"@) || starts_with(
                lowercase(ms[i]),
                "docs"@,
            ) || starts_with(lowercase(ms[i]), "refactor"@) || starts_with(lowercase(ms[i]), "test"@) || contains(
                ms[i],
                "Fixed"@,
            ) || contains(ms[i], "Changed"@))) ==> heuristic_decision(ms) == (
            "release"@,
            Some("patch"@),
            None::<Seq<char>>,
            "包含 docs/fix/refactor，patch 增量直发正式"@,
        ),
        (forall|i: int|
            0 <= i < ms.len() ==> !contains(lowercase(#[trigger] ms[i]), "breaking"@) && !starts_with(
                lowercase(ms[i]),
                "feat"@,
            ) && !contains(ms[i], "Added"@) && !starts_with(lowercase(ms[i]), "fix"@) && !starts_with(
                lowercase(ms[i]),
                "docs"@,
            ) && !starts_with(lowercase(ms[i]), "refactor"@) && !starts_with(lowercase(ms[i]), "test"@)
                && !contains(ms[i], "Fixed"@) && !contains(ms[i], "Changed"@)) ==> heuristic_decision(ms) == (
            "skip"@,
            None::<Seq<char>>,
            None::<Seq<char>>,
            "仅有 chore/typo/CI 改动，无需发版"@,
        ),
{
    if exists|i: int|
        0 <= i < ms.len() && (contains(lowercase(#[trigger] ms[i]), "breaking"@) || (has_char(ms[i], '!')
            && starts_with(lowercase(ms[i]), "feat"@))) {
        let i = choose|i: int|
            0 <= i < ms.len() && (contains(lowercase(#[trigger] ms[i]), "breaking"@) || (has_char(ms[i], '!')
                && starts_with(lowercase(ms[i]), "feat"@)));
        assert(breaking_msg(ms[i]));
        assert(any_breaking(ms));
        assert(any_logic(ms));
    }
    if exists|i: int|
        0 <= i < ms.len() && (starts_with(lowercase(#[trigger] ms[i]), "feat"@) || contains(ms[i], "Added"@)) {
        let i = choose|i: int|
            0 <= i < ms.len() && (starts_with(lowercase(#[trigger] ms[i]), "feat"@) || contains(ms[i], "Added"@));
        assert(feat_msg(ms[i]));
        assert(any_logic(ms));
        if !any_breaking(ms) {
            assert(!breaking_msg(ms[i]));
            assert(any_feat(ms));
        }
    }
    if exists|i: int|
        0 <= i < ms.len() && (starts_with(lowercase(#[trigger] ms[i]), "fix"@) || starts_with(
            lowercase(ms[i]),
            "docs"@,
        ) || starts_with(lowercase(ms[i]), "refactor"@) || starts_with(lowercase(ms[i]), "test"@) || contains(
            ms[i],
            "Fixed"@,
        ) || contains(ms[i], "Changed"@)) {
        let i = choose|i: int|
            0 <= i < ms.len() && (starts_with(lowercase(#[trigger] ms[i]), "fix"@) || starts_with(
                lowercase(ms[i]),
                "docs"@,
            ) || starts_with(lowercase(ms[i]), "refactor"@) || starts_with(lowercase(ms[i]), "test"@) || contains(
                ms[i],
                "Fixed"@,
            ) || contains(ms[i], "Changed"@));
        assert(logic_msg(ms[i]));
        assert(any_logic(ms));
    }
    if any_breaking(ms) {
        let i = choose|i: int| 0 <= i < ms.len() && breaking_msg(#[trigger] ms[i]);
        assert(breaking_msg(ms[i]) || feat_msg(ms[i]) || logic_msg(ms[i]));
    }
    if any_feat(ms) {
        let i = choose|i: int| 0 <= i < ms.len() && !breaking_msg(#[trigger] ms[i]) && feat_msg(ms[i]);
        assert(feat_msg(ms[i]));
    }
    if any_logic(ms) {
        let i = choose|i: int|
            0 <= i < ms.len() && (breaking_msg(#[trigger] ms[i]) || feat_msg(ms[i]) || logic_msg(ms[i]));
        assert(breaking_msg(ms[i]) || feat_msg(ms[i]) || logic_msg(ms[i]));
    }
}

/// Classifies commit messages without a language model.
pub fn fallback_heuristic(commits: &[String]) -> (d: LlmDecision)
    ensures
        d@ == heuristic_decision(string_views(commits@)),
{
    let ghost ms = string_views(commits@);
    let mut has_feat = false;
    let mut has_breaking = false;
    let mut has_logic_change = false;
    let mut i: usize = 0;
    while i < commits.len()
        invariant
            i <= commits.len(),
            ms == string_views(commits@),
            has_breaking == exists|j: int| 0 <= j < i && breaking_msg(#[trigger] ms[j]),
            has_feat == exists|j: int| 0 <= j < i && !breaking_msg(#[trigger] ms[j]) && feat_msg(ms[j]),
            has_logic_change == exists|j: int| 0 <= j < i && (breaking_msg(#[trigger] ms[j]) || feat_msg(ms[j]) || logic_msg(ms[j])),
        decreases commits.len() - i,
    {
        let msg = chars_of(commits[i].as_str());
        let lower = chars_of(to_lowercase(commits[i].as_str()).as_str());
        assert(msg@ == ms[i as int]);
        let b = contains_exec(&lower, &chars_of("breaking"))
            || (has_char_exec(&msg, '!') && starts_with_exec(&lower, &chars_of("feat")));
        let f = starts_with_exec(&lower, &chars_of("feat")) || contains_exec(&msg, &chars_of("Added"));
        let l = starts_with_exec(&lower, &chars_of("fix")) || starts_with_exec(&lower, &chars_of("docs"))
            || starts_with_exec(&lower, &chars_of("refactor")) || starts_with_exec(&lower, &chars_of("test"))
            || contains_exec(&msg, &chars_of("Fixed")) || contains_exec(&msg, &chars_of("Changed"));
        assert(b == breaking_msg(ms[i as int]));
        assert(f == feat_msg(ms[i as int]));
        assert(l == logic_msg(ms[i as int]));
        if b {
            has_breaking = true;
            has_logic_change = true;
        } else if f {
            has_feat = true;
            has_logic_change = true;
        } else if l {
            has_logic_change = true;
        }
        i = i + 1;
    }
    build_decision_from_flags(has_feat, has_breaking, has_logic_change)
}

// ───────────────────────────── version from decision ─────────────────────────────

pub open spec fn increment_of(d: DecisionView) -> Seq<char> {
    match d.1 {
        Some(i) => i,
        None => "patch"@,
    }
}

/// What `build_version_from_decision` returns: a project without a tag starts
/// at `v0.1.0` (or its first prerelease); `skip` and `human` are refused;
/// otherwise the version is bumped as the decision says.
pub open spec fn version_from_decision_spec(
    has_tag: bool,
    parts: crate::tag::VersionTuple,
    d: DecisionView,
) -> Result<Seq<char>, (int, Seq<char>)> {
    if !has_tag {
        match d.2 {
            Some(pr) => Ok("v0.1.0-"@ + pr + ".1"@),
            None => Ok("v0.1.0"@),
        }
    } else if d.0 == "skip"@ {
        Err((3, "无需发版"@))
    } else if d.0 == "human"@ {
        Err((3, "需要人类判断: "@ + d.3))
    } else {
        Ok(build_version_spec(parts, increment_of(d), d.2))
    }
}

pub open spec fn version_result_view(r: Result<String, DetectError>) -> Result<Seq<char>, (int, Seq<char>)> {
    match r {
        Ok(s) => Ok(s@),
        Err(e) => Err(detect_error_view(e)),
    }
}

/// The next version for a decision (see `version_from_decision_spec`).
pub fn build_version_from_decision(has_tag: bool, parts: &VersionParts, decision: &LlmDecision) -> (r: Result<String, DetectError>)
    requires
        has_tag && decision@.0 != "skip"@ && decision@.0 != "human"@ ==> build_version_fits(
            parts.tuple(),
            increment_of(decision@),
        ),
    ensures
        version_result_view(r) == version_from_decision_spec(has_tag, parts.tuple(), decision@),
{
    if !has_tag {
        return match &decision.prerelease {
            Some(pr) => {
                let mut v = chars_of("v0.1.0-");
                append_str(&mut v, pr.as_str());
                append_str(&mut v, ".1");
                Ok(string_of(&v))
            },
            None => Ok("v0.1.0".to_owned()),
        };
    }
    if crate::tag::str_eq(decision.action.as_str(), "skip") {
        return Err(DetectError::Other("无需发版".to_owned()));
    }
    if crate::tag::str_eq(decision.action.as_str(), "human") {
        let mut v = chars_of("需要人类判断: ");
        append_str(&mut v, decision.reason.as_str());
        return Err(DetectError::Other(string_of(&v)));
    }
    let increment: &str = match &decision.increment {
        Some(i) => i.as_str(),
        None => "patch",
    };
    let prerelease: Option<&str> = match &decision.prerelease {
        Some(p) => Some(p.as_str()),
        None => None,
    };
    Ok(build_version(parts, increment, prerelease))
}

/// Whether the numbers a decision bumps can still grow: what
/// `build_version_from_decision` needs of a tagged version.
pub fn decision_fits(has_tag: bool, parts: &VersionParts, decision: &LlmDecision) -> (r: bool)
    ensures
        r == (has_tag && decision@.0 != "skip"@ && decision@.0 != "human"@ ==> build_version_fits(
            parts.tuple(),
            increment_of(decision@),
        )),
{
    if !has_tag || crate::tag::str_eq(decision.action.as_str(), "skip") || crate::tag::str_eq(
        decision.action.as_str(),
        "human",
    ) {
        return true;
    }
    let increment: &str = match &decision.increment {
        Some(i) => i.as_str(),
        None => "patch",
    };
    match &parts.pre_stage {
        Some(_) => match parts.pre_num {
            Some(k) => k < u32::MAX,
            None => true,
        },
        None => if crate::tag::str_eq(increment, "minor") {
            parts.minor < u32::MAX
        } else {
            parts.patch < u32::MAX
        },
    }
}

// ───────────────────────────── commit log ─────────────────────────────

/// A line of `git log --oneline` longer than 8 bytes loses its first 7 bytes
/// (the abbreviated hash) and surrounding whitespace; shorter lines stay.
pub open spec fn commit_message_of(l: Seq<char>) -> Seq<char> {
    if byte_len(l) > 8 {
        trim(l.skip(char_boundary(l, 7).unwrap()))
    } else {
        l
    }
}

/// Every long line can be cut after its 7th byte.
pub open spec fn log_lines_cuttable(s: Seq<char>) -> bool {
    forall|i: int| 0 <= i < lines(s).len() && byte_len(#[trigger] lines(s)[i]) > 8 ==> char_boundary(lines(s)[i], 7) is Some
}

/// The non-empty commit messages of the lines `ls`, in order.
pub open spec fn commit_messages(ls: Seq<Seq<char>>) -> Seq<Seq<char>>
    decreases ls.len(),
{
    if ls.len() == 0 {
        seq![]
    } else {
        let m = commit_message_of(ls.last());
        if m.len() == 0 {
            commit_messages(ls.drop_last())
        } else {
            commit_messages(ls.drop_last()).push(m)
        }
    }
}

/// Law: the commit messages of a log are its lines, each cut to its
/// message, with the empty ones left out.
pub proof fn law_commit_messages_map_filter(ls: Seq<Seq<char>>)
    ensures
        commit_messages(ls) == ls.map_values(|l: Seq<char>| commit_message_of(l)).filter(
            |m: Seq<char>| m.len() > 0,
        ),
    decreases ls.len(),
{
    reveal(Seq::filter);
    let mapped = ls.map_values(|l: Seq<char>| commit_message_of(l));
    if ls.len() > 0 {
        law_commit_messages_map_filter(ls.drop_last());
        assert(mapped.drop_last() =~= ls.drop_last().map_values(|l: Seq<char>| commit_message_of(l)));
        assert(mapped.last() == commit_message_of(ls.last()));
    } else {
        assert(mapped =~= Seq::<Seq<char>>::empty());
    }
}

/// Parses `git log --oneline` output into commit messages.
pub fn parse_commit_messages(log_output: &str) -> (r: Vec<String>)
    requires
        log_lines_cuttable(log_output@),
    ensures
        string_views(r@) == commit_messages(lines(log_output@)),
{
    let all = chars_of(log_output);
    let ls = lines_exec(&all);
    let ghost lv = lines(log_output@);
    let mut r: Vec<String> = Vec::new();
    let mut i: usize = 0;
    assert(lv.take(0) =~= Seq::<Seq<char>>::empty());
    while i < ls.len()
        invariant
            i <= ls.len(),
            views(ls@) == lv,
            lv == lines(log_output@),
            log_lines_cuttable(log_output@),
            string_views(r@) == commit_messages(lv.take(i as int)),
        decreases ls.len() - i,
    {
        let line = &ls[i];
        assert(line@ == lv[i as int]);
        let m: Vec<char> = {
            let long = byte_len_exceeds(line, 8);
            if long {
                let cut = char_boundary_exec(line, 7);
                match cut {
                    Some(c) => {
                        let rest = slice_of(line, c, line.len());
                        assert(rest@ =~= line@.skip(c as int));
                        trim_exec(&rest)
                    },
                    None => {
                        assert(false);
                        Vec::new()
                    },
                }
            } else {
                slice_of(line, 0, line.len())
            }
        };
        assert(m@ =~= commit_message_of(lv[i as int]));
        assert(lv.take(i + 1).drop_last() =~= lv.take(i as int));
        if m.len() > 0 {
            let ghost old_r = r@;
            r.push(string_of(&m));
            assert(string_views(r@) =~= string_views(old_r).push(m@));
        }
        i = i + 1;
    }
    assert(lv.take(i as int) =~= lv);
    r
}

/// Whether the UTF-8 encoding of `v` is longer than `n` bytes.
pub fn byte_len_exceeds(v: &[char], n: u64) -> (r: bool)
    ensures
        r == (byte_len(v@) > n),
{
    let mut k: usize = 0;
    let mut acc: u128 = 0;
    assert(v@.take(0) =~= Seq::<char>::empty());
    while k < v.len()
        invariant
            k <= v.len(),
            acc == byte_len(v@.take(k as int)),
            acc <= 4 * k,
        decreases v.len() - k,
    {
        assert(v@.take(k + 1).drop_last() =~= v@.take(k as int));
        acc = acc + crate::text::utf8_len_exec(v[k]) as u128;
        k = k + 1;
    }
    assert(v@.take(k as int) =~= v@);
    acc > n as u128
}


// ───────────────────────────── prompt ─────────────────────────────

/// `1. c0\n2. c1\n...`: the commits numbered from 1, one per line.
pub open spec fn numbered_commits(ms: Seq<Seq<char>>) -> Seq<char>
    decreases ms.len(),
{
    if ms.len() == 0 {
        seq![]
    } else if ms.len() == 1 {
        decimal(1) + ". "@ + ms[0]
    } else {
        numbered_commits(ms.drop_last()) + seq!['\n'] + decimal(ms.len()) + ". "@ + ms.last()
    }
}

/// The instructions given to the language model, with the project type, the
/// latest tag, the scope and the numbered commits filled in.
pub open spec fn version_prompt(ms: Seq<Seq<char>>, latest_tag: Seq<char>, project_type: Seq<char>, scope: Seq<char>) -> Seq<char> {
    PROMPT_HEAD@ + project_type + PROMPT_TAG@ + latest_tag + PROMPT_SCOPE@ + scope + PROMPT_COMMITS@
        + numbered_commits(ms) + PROMPT_TAIL@
}

pub const PROMPT_HEAD: &'static str = "你是一个版本号推断专家。根据以下信息，决定下一个版本号策略。\n\n## 约束\n- 不做 major bump（breaking change 交给人类）\n- 仅 chore/typo/CI 配置 → skip\n- `docs:` 是内容变更（文档项目的交付物），不是非逻辑改动\n- patch 级别修复 → 直发正式版\n- minor 级别新功能 → 代码项目走预发布（rc），文档项目直发正式\n- 大版本早期未完成功能 → alpha\n- 功能基本完成 → beta\n- 功能冻结只修 bug → rc\n- 已在预发布系列 → 同阶段递增序号（除非有理由晋级下一阶段）\n\n### 如何判断 minor vs patch\n\n**代码项目：**\n- `feat:` → minor（追加新能力）\n- `fix: / refactor: / test:` → patch（修问题）\n\n**内容/文档项目：**\n- **绝大多数变更都是 patch**。\n- minor 仅限全新内容品类上线的程度，极少发生。\n- 不确定时就 patch。\n\n## 当前版本\n项目类型: ";

pub const PROMPT_TAG: &'static str = "\n最新 tag: ";

pub const PROMPT_SCOPE: &'static str = "\nscope: ";

pub const PROMPT_COMMITS: &'static str = "\n\n## 提交记录（tag→HEAD）\n";

pub const PROMPT_TAIL: &'static str = "\n\n## 输出格式（仅 JSON）\n{\"action\": \"release\"|\"skip\"|\"human\", \"increment\": \"minor\"|\"patch\"|null, \"prerelease\": \"alpha\"|\"beta\"|\"rc\"|null, \"reason\": \"判断理由\"}\n";

/// Builds the prompt that asks a language model for a release decision.
pub fn build_version_prompt(commits: &[String], latest_tag: &str, project_type: &str, scope: &str) -> (r: String)
    ensures
        r@ == version_prompt(string_views(commits@), latest_tag@, project_type@, scope@),
{
    let ghost ms = string_views(commits@);
    let mut numbered: Vec<char> = Vec::new();
    let mut i: usize = 0;
    assert(ms.take(0) =~= Seq::<Seq<char>>::empty());
    while i < commits.len()
        invariant
            i <= commits.len(),
            ms == string_views(commits@),
            numbered@ == numbered_commits(ms.take(i as int)),
        decreases commits.len() - i,
    {
        let ghost before = numbered@;
        if i > 0 {
            numbered.push('\n');
        }
        append(&mut numbered, &decimal_exec((i as u64) + 1));
        append_str(&mut numbered, ". ");
        append_str(&mut numbered, commits[i].as_str());
        proof {
            let t = ms.take(i + 1);
            assert(t.drop_last() =~= ms.take(i as int));
            assert(t.last() == commits@[i as int]@);
            if i == 0 {
                assert(t[0] == t.last());
            }
        }
        i = i + 1;
    }
    assert(ms.take(i as int) =~= ms);
    let mut v = chars_of(PROMPT_HEAD);
    append_str(&mut v, project_type);
    append_str(&mut v, PROMPT_TAG);
    append_str(&mut v, latest_tag);
    append_str(&mut v, PROMPT_SCOPE);
    append_str(&mut v, scope);
    append_str(&mut v, PROMPT_COMMITS);
    append(&mut v, &numbered);
    append_str(&mut v, PROMPT_TAIL);
    string_of(&v)
}

// ───────────────────────────── project and scope ─────────────────────────────

/// A repository with any code marker (`src/`, `Cargo.toml`, `package.json`,
/// `pyproject.toml`, `setup.py`, `go.mod`, `packages/`, `apps/`) is a code
/// project; otherwise it holds documents.
pub fn detect_project_type(indicators: &[bool]) -> (r: &'static str)
    ensures
        r@ == (if exists|i: int| 0 <= i < indicators@.len() && indicators@[i] { "code"@ } else { "docs"@ }),
{
    let mut i: usize = 0;
    while i < indicators.len()
        invariant
            i <= indicators.len(),
            forall|j: int| 0 <= j < i ==> !indicators@[j],
        decreases indicators.len() - i,
    {
        if indicators[i] {
            return "code";
        }
        i = i + 1;
    }
    "docs"
}

/// A changed path belongs to a scope directory when it starts with the
/// directory (leading `/` ignored) or contains it.
pub open spec fn path_in_scope(path: Seq<char>, dir: Seq<char>) -> bool {
    starts_with(path, trim_leading(dir, '/')) || contains(path, dir)
}

/// Hits of one path on the scopes named `name`.
pub open spec fn path_hits(path: Seq<char>, scopes: Seq<(Seq<char>, Seq<char>)>, name: Seq<char>) -> nat
    decreases scopes.len(),
{
    if scopes.len() == 0 {
        0
    } else {
        path_hits(path, scopes.drop_last(), name) + if scopes.last().0 == name && path_in_scope(path, scopes.last().1) { 1nat } else { 0nat }
    }
}

/// Hits of all changed paths on the scopes named `name`.
pub open spec fn scope_hits(paths: Seq<Seq<char>>, scopes: Seq<(Seq<char>, Seq<char>)>, name: Seq<char>) -> nat
    decreases paths.len(),
{
    if paths.len() == 0 {
        0
    } else {
        scope_hits(paths.drop_last(), scopes, name) + path_hits(paths.last(), scopes, name)
    }
}

/// Two lengths of vectors multiply to less than the largest `u128`.
proof fn lemma_product_fits(a: usize, b: usize)
    ensures
        a * b < u128::MAX,
{
    assert(usize::MAX <= 0xffff_ffff_ffff_ffffint);
    assert(a * b <= 0xffff_ffff_ffff_ffff * 0xffff_ffff_ffff_ffff) by (nonlinear_arith)
        requires
            0 <= a <= 0xffff_ffff_ffff_ffffint,
            0 <= b <= 0xffff_ffff_ffff_ffffint,
    ;
}

fn count_scope_hits(paths: &[String], scopes: &[Scope], name: &str) -> (n: u128)
    ensures
        n == scope_hits(string_views(paths@), scope_views(scopes@), name@),
{
    let ghost ps = string_views(paths@);
    let ghost ss = scope_views(scopes@);
    let mut n: u128 = 0;
    let mut i: usize = 0;
    proof {
        lemma_product_fits(paths.len(), scopes.len());
    }
    assert(ps.take(0) =~= Seq::<Seq<char>>::empty());
    while i < paths.len()
        invariant
            i <= paths.len(),
            ps == string_views(paths@),
            ss == scope_views(scopes@),
            paths.len() * scopes.len() < u128::MAX,
            n == scope_hits(ps.take(i as int), ss, name@),
            n <= i * scopes.len(),
        decreases paths.len() - i,
    {
        let path = chars_of(paths[i].as_str());
        let mut m: u128 = 0;
        let mut j: usize = 0;
        assert(ss.take(0) =~= Seq::<(Seq<char>, Seq<char>)>::empty());
        while j < scopes.len()
            invariant
                j <= scopes.len(),
                i < paths.len(),
                ss == scope_views(scopes@),
                path@ == ps[i as int],
                m == path_hits(ps[i as int], ss.take(j as int), name@),
                m <= j,
            decreases scopes.len() - j,
        {
            let dir = chars_of(scopes[j].dir.as_str());
            let hit = crate::tag::str_eq(scopes[j].name.as_str(), name) && (
            starts_with_exec(&path, &trim_leading_exec(&dir, '/')) || contains_exec(&path, &dir));
            assert(ss.take(j + 1).drop_last() =~= ss.take(j as int));
            if hit {
                m = m + 1;
            }
            j = j + 1;
        }
        assert(ss.take(j as int) =~= ss);
        assert(ps.take(i + 1).drop_last() =~= ps.take(i as int));
        proof {
            vstd::arithmetic::mul::lemma_mul_is_distributive_add_other_way(scopes.len() as int, i as int, 1);
            vstd::arithmetic::mul::lemma_mul_inequality(i as int + 1, paths.len() as int, scopes.len() as int);
        }
        n = n + m;
        i = i + 1;
    }
    assert(ps.take(i as int) =~= ps);
    n
}

/// What `format!("{:?}", names)` writes for a list of names (`Debug` of a
/// slice of strings).
pub uninterp spec fn debug_list_text(names: Seq<Seq<char>>) -> Seq<char>;

/// Trusted: the standard library's `Debug` rendering of a slice of strings;
/// its text is named `debug_list_text`.
#[verifier::external_body]
fn debug_list(names: &[String]) -> (r: String)
    ensures
        r@ == debug_list_text(string_views(names@)),
{
    format!("{:?}", names)
}

/// The tag scopes other than `(root)`, in order.
pub open spec fn scoped_names(keys: Seq<Seq<char>>) -> Seq<Seq<char>>
    decreases keys.len(),
{
    if keys.len() == 0 {
        seq![]
    } else if keys.last() == "(root)"@ {
        scoped_names(keys.drop_last())
    } else {
        scoped_names(keys.drop_last()).push(keys.last())
    }
}

/// Picks the scope a release is for. The scope whose directory the changed
/// paths hit most wins; without hits, the only scope that has tags wins; more
/// than one tagged scope is an error, and no tagged scope means the root.
pub fn detect_single_scope(changed_paths: &[String], scopes: &[Scope], tag_scopes: &[String]) -> (r: Result<Option<String>, DetectError>)
    ensures
        ({
            let ps = string_views(changed_paths@);
            let ss = scope_views(scopes@);
            let named = scoped_names(string_views(tag_scopes@));
            let hit = exists|j: int| 0 <= j < ss.len() && scope_hits(ps, ss, #[trigger] ss[j].0) > 0;
            match r {
                Ok(Some(n)) => if hit {
                    &&& exists|j: int| 0 <= j < ss.len() && #[trigger] ss[j].0 == n@
                    &&& forall|j: int| 0 <= j < ss.len() ==> scope_hits(ps, ss, #[trigger] ss[j].0) <= scope_hits(ps, ss, n@)
                } else {
                    named.len() == 1 && n@ == named[0]
                },
                Ok(None) => !hit && named.len() == 0,
                Err(e) => !hit && named.len() > 1 && detect_error_view(e) == (
                    3int,
                    "多个 scope 有变更: "@ + debug_list_text(named) + "，请用 -v 指定"@,
                ),
            }
        }),
{
    let ghost ps = string_views(changed_paths@);
    let ghost ss = scope_views(scopes@);
    let mut best: Option<usize> = None;
    let mut best_n: u128 = 0;
    let mut j: usize = 0;
    while j < scopes.len()
        invariant
            j <= scopes.len(),
            ps == string_views(changed_paths@),
            ss == scope_views(scopes@),
            best is Some ==> best.unwrap() < j && best_n > 0 && best_n == scope_hits(ps, ss, ss[best.unwrap() as int].0),
            best is None ==> best_n == 0,
            forall|k: int| 0 <= k < j ==> scope_hits(ps, ss, #[trigger] ss[k].0) <= best_n,
        decreases scopes.len() - j,
    {
        let n = count_scope_hits(changed_paths, scopes, scopes[j].name.as_str());
        assert(ss[j as int].0 == scopes@[j as int].name@);
        assert(scope_hits(ps, ss, ss[j as int].0) == n);
        if n > best_n {
            best = Some(j);
            best_n = n;
        }
        j = j + 1;
    }
    if let Some(b) = best {
        return Ok(Some(scopes[b].name.clone()));
    }
    let ghost keys = string_views(tag_scopes@);
    let mut named: Vec<String> = Vec::new();
    let mut k: usize = 0;
    assert(keys.take(0) =~= Seq::<Seq<char>>::empty());
    while k < tag_scopes.len()
        invariant
            k <= tag_scopes.len(),
            keys == string_views(tag_scopes@),
            string_views(named@) == scoped_names(keys.take(k as int)),
        decreases tag_scopes.len() - k,
    {
        assert(keys.take(k + 1).drop_last() =~= keys.take(k as int));
        if !crate::tag::str_eq(tag_scopes[k].as_str(), "(root)") {
            let ghost before = named@;
            named.push(tag_scopes[k].clone());
            assert(string_views(named@) =~= string_views(before).push(keys[k as int]));
        }
        k = k + 1;
    }
    assert(keys.take(k as int) =~= keys);
    if named.len() == 1 {
        return Ok(Some(named[0].clone()));
    }
    if named.len() > 1 {
        let mut v = chars_of("多个 scope 有变更: ");
        append_str(&mut v, debug_list(&named).as_str());
        append_str(&mut v, "，请用 -v 指定");
        return Err(DetectError::Other(string_of(&v)));
    }
    Ok(None)
}

/// The tag that changed paths are measured from: the first tag of the first
/// scope other than `(root)` that has tags, else the first `(root)` tag.
pub open spec fn diff_base(groups: Seq<(Seq<char>, Seq<Seq<char>>)>) -> Option<Seq<char>> {
    if exists|i: int| 0 <= i < groups.len() && groups[i].0 != "(root)"@ && groups[i].1.len() > 0 {
        let i = choose|i: int| 0 <= i < groups.len() && groups[i].0 != "(root)"@ && groups[i].1.len() > 0
            && forall|j: int| 0 <= j < i ==> !(groups[j].0 != "(root)"@ && groups[j].1.len() > 0);
        Some(groups[i].1[0])
    } else if exists|i: int| 0 <= i < groups.len() && groups[i].0 == "(root)"@ {
        let i = choose|i: int| 0 <= i < groups.len() && groups[i].0 == "(root)"@
            && forall|j: int| 0 <= j < i ==> groups[j].0 != "(root)"@;
        if groups[i].1.len() > 0 { Some(groups[i].1[0]) } else { None }
    } else {
        None
    }
}

pub open spec fn group_views(g: Seq<(String, Vec<String>)>) -> Seq<(Seq<char>, Seq<Seq<char>>)> {
    g.map_values(|x: (String, Vec<String>)| (x.0@, string_views(x.1@)))
}

/// The tag that changed paths are measured from (see `diff_base`).
pub fn latest_tag_for_diff(groups: &[(String, Vec<String>)]) -> (r: Option<String>)
    ensures
        match r {
            Some(t) => diff_base(group_views(groups@)) == Some(t@),
            None => diff_base(group_views(groups@)) == None::<Seq<char>>,
        },
{
    let ghost g = group_views(groups@);
    let mut i: usize = 0;
    while i < groups.len()
        invariant
            i <= groups.len(),
            g == group_views(groups@),
            forall|j: int| 0 <= j < i ==> !(g[j].0 != "(root)"@ && g[j].1.len() > 0),
        decreases groups.len() - i,
    {
        let is_root = crate::tag::str_eq(groups[i].0.as_str(), "(root)");
        assert(g[i as int].0 == groups@[i as int].0@);
        assert(g[i as int].1.len() == groups@[i as int].1@.len());
        if !is_root && groups[i].1.len() > 0 {
            proof {
                let w = choose|w: int| 0 <= w < g.len() && g[w].0 != "(root)"@ && g[w].1.len() > 0
                    && forall|j: int| 0 <= j < w ==> !(g[j].0 != "(root)"@ && g[j].1.len() > 0);
                assert(0 <= i < g.len() && g[i as int].0 != "(root)"@ && g[i as int].1.len() > 0
                    && forall|j: int| 0 <= j < i ==> !(g[j].0 != "(root)"@ && g[j].1.len() > 0));
                if w < i {
                } else if w > i {
                }
                assert(w == i);
                assert(g[i as int].1[0] == groups@[i as int].1@[0]@);
            }
            return Some(groups[i].1[0].clone());
        }
        i = i + 1;
    }
    let mut k: usize = 0;
    while k < groups.len()
        invariant
            k <= groups.len(),
            g == group_views(groups@),
            forall|j: int| 0 <= j < groups.len() ==> !(g[j].0 != "(root)"@ && g[j].1.len() > 0),
            forall|j: int| 0 <= j < k ==> g[j].0 != "(root)"@,
        decreases groups.len() - k,
    {
        assert(g[k as int].0 == groups@[k as int].0@);
        if crate::tag::str_eq(groups[k].0.as_str(), "(root)") {
            proof {
                let w = choose|w: int| 0 <= w < g.len() && g[w].0 == "(root)"@
                    && forall|j: int| 0 <= j < w ==> g[j].0 != "(root)"@;
                assert(0 <= k < g.len() && g[k as int].0 == "(root)"@
                    && forall|j: int| 0 <= j < k ==> g[j].0 != "(root)"@);
                if w < k {
                } else if w > k {
                }
                assert(w == k);
                assert(g[k as int].1.len() == groups@[k as int].1@.len());
            }
            if groups[k].1.len() > 0 {
                assert(g[k as int].1[0] == groups@[k as int].1@[0]@);
                return Some(groups[k].1[0].clone());
            }
            return None;
        }
        k = k + 1;
    }
    None
}

/// The paths `git diff --name-only <tag>..HEAD` reports, one per line; with no
/// tag to measure from there are none.
pub fn get_changed_paths_since_last_tag(groups: &[(String, Vec<String>)], diff_output: &str) -> (r: Vec<String>)
    ensures
        diff_base(group_views(groups@)) is None ==> r@.len() == 0,
        diff_base(group_views(groups@)) is Some ==> string_views(r@) == lines(diff_output@),
{
    match latest_tag_for_diff(groups) {
        None => Vec::new(),
        Some(_) => {
            let ls = lines_exec(&chars_of(diff_output));
            let mut r: Vec<String> = Vec::new();
            let mut i: usize = 0;
            while i < ls.len()
                invariant
                    i <= ls.len(),
                    views(ls@) == lines(diff_output@),
                    string_views(r@) == views(ls@).take(i as int),
                decreases ls.len() - i,
            {
                let ghost before = r@;
                assert(views(ls@)[i as int] == ls@[i as int]@);
                let line = string_of(ls[i].as_slice());
                r.push(line);
                assert(string_views(r@) =~= string_views(before).push(line@));
                assert(views(ls@).take(i + 1) =~= views(ls@).take(i as int).push(views(ls@)[i as int]));
                i = i + 1;
            }
            assert(views(ls@).take(i as int) =~= views(ls@));
            r
        },
    }
}

/// The `git diff` range from the measuring tag to `HEAD`.
pub fn diff_range(tag: &str) -> (r: String)
    ensures
        r@ == tag@ + "..HEAD"@,
{
    let mut v = chars_of(tag);
    append_str(&mut v, "..HEAD");
    string_of(&v)
}

/// There are new commits when both revisions resolved and differ.
pub fn has_new_commits_since_tag(tag_rev: Option<&str>, head_rev: Option<&str>) -> (r: bool)
    ensures
        r == (tag_rev is Some && head_rev is Some && tag_rev.unwrap()@ != head_rev.unwrap()@),
{
    match (tag_rev, head_rev) {
        (Some(t), Some(h)) => !crate::tag::str_eq(t, h),
        _ => false,
    }
}

/// What `format!("{:?}", path)` writes for a path given as text.
pub uninterp spec fn debug_path_text(path: Seq<char>) -> Seq<char>;

/// Trusted: the standard library's `Debug` rendering of a `Path`; its text is
/// named `debug_path_text`.
#[verifier::external_body]
fn debug_path(path: &str) -> (r: String)
    ensures
        r@ == debug_path_text(path@),
{
    format!("{:?}", std::path::Path::new(path))
}

/// The repository root from `git rev-parse --show-toplevel`: its trimmed
/// output, or an error naming the path when git failed.
pub fn resolve_git_root(repo_path: &str, toplevel: Result<String, String>) -> (r: Result<String, DetectError>)
    ensures
        match toplevel {
            Ok(o) => r matches Ok(s) && s@ == trim(o@),
            Err(_) => r matches Err(e) && detect_error_view(e) == (3int, "不在 git 仓库中: "@ + debug_path_text(repo_path@)),
        },
{
    match toplevel {
        Ok(o) => Ok(string_of(&trim_exec(&chars_of(o.as_str())))),
        Err(_) => {
            let mut v = chars_of("不在 git 仓库中: ");
            append_str(&mut v, debug_path(repo_path).as_str());
            Err(DetectError::Other(string_of(&v)))
        },
    }
}


// ───────────────────────────── detection steps ─────────────────────────────

/// Where the next version starts from: the numbers of the latest tag (all
/// zero when its version does not parse), or `0.1.0` for a project without
/// tags; with whether there was a tag.
pub open spec fn baseline_spec(tag: Option<Seq<char>>) -> (bool, VersionTuple) {
    match tag {
        Some(t) => (
            true,
            match parse_version_spec(parse_tag_spec(t).1) {
                Ok(v) => v,
                Err(_) => (0, 0, 0, None, None),
            },
        ),
        None => (false, (0, 1, 0, None, None)),
    }
}

pub fn tag_baseline(latest_tag: Option<&str>) -> (r: (bool, VersionParts))
    ensures
        (r.0, r.1.tuple()) == baseline_spec(
            match latest_tag {
                Some(t) => Some(t@),
                None => None,
            },
        ),
{
    match latest_tag {
        Some(tag) => {
            let (_, ver) = parse_tag(tag);
            let parts = match parse_version(ver) {
                Ok((major, minor, patch, pre_stage, pre_num)) => VersionParts {
                    major,
                    minor,
                    patch,
                    pre_stage,
                    pre_num,
                },
                Err(_) => VersionParts { major: 0, minor: 0, patch: 0, pre_stage: None, pre_num: None },
            };
            (true, parts)
        },
        None => (false, VersionParts { major: 0, minor: 1, patch: 0, pre_stage: None, pre_num: None }),
    }
}

/// Refuses to propose a version when the latest tag already points at
/// `HEAD`.
pub fn check_new_commits(has_tag: bool, has_new_commits: bool) -> (r: Result<(), DetectError>)
    ensures
        match r {
            Ok(()) => !(has_tag && !has_new_commits),
            Err(e) => has_tag && !has_new_commits && detect_error_view(e) == (3int, "上次标签后没有新提交"@),
        },
{
    if has_tag && !has_new_commits {
        return Err(DetectError::Other("上次标签后没有新提交".to_owned()));
    }
    Ok(())
}

/// Refuses to propose a version without commits to judge.
pub fn check_commits(commits: &[String]) -> (r: Result<(), DetectError>)
    ensures
        match r {
            Ok(()) => commits@.len() > 0,
            Err(e) => commits@.len() == 0 && detect_error_view(e) == (3int, "没有提交记录"@),
        },
{
    if commits.len() == 0 {
        return Err(DetectError::Other("没有提交记录".to_owned()));
    }
    Ok(())
}

/// The proposed version: the next version for the decision, under the
/// scope it was detected for.
pub fn propose_version(has_tag: bool, parts: &VersionParts, decision: &LlmDecision, scope: Option<&str>) -> (r:
    Result<DetectResult, DetectError>)
    requires
        has_tag && decision@.0 != "skip"@ && decision@.0 != "human"@ ==> build_version_fits(
            parts.tuple(),
            increment_of(decision@),
        ),
    ensures
        match r {
            Ok(d) => version_from_decision_spec(has_tag, parts.tuple(), decision@) matches Ok(v)
                && d.version@ == apply_scope_prefix_spec(
                match scope {
                    Some(s) => Some(s@),
                    None => None,
                },
                v,
            ),
            Err(e) => version_from_decision_spec(has_tag, parts.tuple(), decision@) == Err::<
                Seq<char>,
                (int, Seq<char>),
            >(detect_error_view(e)),
        },
{
    match build_version_from_decision(has_tag, parts, decision) {
        Ok(v) => Ok(DetectResult { version: apply_scope_prefix(scope, v.as_str()) }),
        Err(e) => Err(e),
    }
}

} // verus!
