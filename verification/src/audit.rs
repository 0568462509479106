//! Release audits: which scopes an audit covers, the version each is
//! audited at, and the verdicts an audit reports.

use vstd::prelude::*;
use crate::release::{
    extract_notes, normalize_version, normalized_version, notes_spec, precheck_errors,
    precheck_version_changelog, string_views, valid_version, validate_version,
};
use crate::tag::opt_view;
use crate::scope::{Scope, scope_views};
use crate::tag::str_eq;
use crate::text::{
    all_digits, append, append_str, chars_of, decimal, decimal_exec, digits_value, slice_of, split, starts_with,
    starts_with_exec, string_of,
};

verus! {

/// One verdict of a release audit.
#[derive(Debug)]
pub struct AuditItem {
    pub name: &'static str,
    pub passed: bool,
    pub detail: String,
}

/// The names of the scopes an audit covers: those of the contract, or only
/// the one asked for.
pub open spec fn audited_names(scopes: Seq<(Seq<char>, Seq<char>)>, filter: Option<Seq<char>>) -> Seq<Seq<char>>
    decreases scopes.len(),
{
    if scopes.len() == 0 {
        Seq::empty()
    } else {
        let rest = audited_names(scopes.drop_last(), filter);
        let name = scopes.last().0;
        match filter {
            Some(f) => if name == f {
                rest.push(name)
            } else {
                rest
            },
            None => rest.push(name),
        }
    }
}

/// Law: an audit asked for one scope covers only scopes of that name.
pub proof fn law_filter_keeps_only_named(scopes: Seq<(Seq<char>, Seq<char>)>, name: Seq<char>)
    ensures
        forall|i: int| 0 <= i < audited_names(scopes, Some(name)).len() ==> #[trigger] audited_names(
            scopes,
            Some(name),
        )[i] == name,
        audited_names(scopes, Some(name)).len() <= audited_names(scopes, None).len(),
    decreases scopes.len(),
{
    if scopes.len() > 0 {
        law_filter_keeps_only_named(scopes.drop_last(), name);
    }
}

/// The error when no scope is left to audit.
pub open spec fn no_scope_text(filter: Option<Seq<char>>) -> Seq<char> {
    "未找到 scope"@ + match filter {
        Some(f) => ": "@ + f,
        None => Seq::empty(),
    }
}

/// Chooses the scopes a release audit covers, in the contract's order; an
/// error when none is left.
pub fn audit_all(scopes: &[Scope], scope_filter: Option<&str>) -> (r: Result<Vec<String>, String>)
    ensures
        match r {
            Ok(names) => string_views(names@) == audited_names(
                scope_views(scopes@),
                match scope_filter {
                    Some(f) => Some(f@),
                    None => None,
                },
            ) && names@.len() > 0,
            Err(e) => audited_names(
                scope_views(scopes@),
                match scope_filter {
                    Some(f) => Some(f@),
                    None => None,
                },
            ).len() == 0 && e@ == no_scope_text(
                match scope_filter {
                    Some(f) => Some(f@),
                    None => None,
                },
            ),
        },
{
    let ghost sv = scope_views(scopes@);
    let ghost fv = match scope_filter {
        Some(f) => Some(f@),
        None => None::<Seq<char>>,
    };
    let mut names: Vec<String> = Vec::new();
    let mut i: usize = 0;
    while i < scopes.len()
        invariant
            i <= scopes.len(),
            sv == scope_views(scopes@),
            fv == match scope_filter {
                Some(f) => Some(f@),
                None => None::<Seq<char>>,
            },
            string_views(names@) == audited_names(sv.take(i as int), fv),
        decreases scopes.len() - i,
    {
        proof {
            assert(sv.take(i + 1).drop_last() =~= sv.take(i as int));
            assert(sv.take(i + 1).last() == (scopes@[i as int].name@, scopes@[i as int].dir@));
        }
        let keep = match scope_filter {
            Some(f) => str_eq(scopes[i].name.as_str(), f),
            None => true,
        };
        if keep {
            let n = scopes[i].name.clone();
            let ghost before = names@;
            names.push(n);
            assert(string_views(names@) =~= string_views(before).push(n@));
        }
        i = i + 1;
    }
    assert(sv.take(scopes.len() as int) =~= sv);
    if names.len() == 0 {
        let mut e: Vec<char> = Vec::new();
        append_str(&mut e, "未找到 scope");
        match scope_filter {
            Some(f) => {
                append_str(&mut e, ": ");
                append_str(&mut e, f);
            },
            None => {},
        }
        assert(e@ =~= no_scope_text(fv));
        return Err(string_of(e.as_slice()));
    }
    Ok(names)
}

// ───────────────────────────── candidate versions ─────────────────────────────

/// What `semver::Version::parse` reads from a text: its major, minor and
/// patch numbers, when the text is a valid semantic version.
pub uninterp spec fn semver_triple(s: Seq<char>) -> Option<(u64, u64, u64)>;

/// A number as `semver` reads one: ASCII digits, no leading zero unless it
/// is `0` itself, and a value that fits in a `u64`.
pub open spec fn plain_number(d: Seq<char>) -> bool {
    &&& d.len() > 0
    &&& all_digits(d)
    &&& (d.len() == 1 || d[0] != '0')
    &&& digits_value(d) <= u64::MAX
}

/// The numbers of a plain `X.Y.Z` text: three such numbers between two dots
/// and nothing else.
pub open spec fn plain_triple(s: Seq<char>) -> Option<(u64, u64, u64)> {
    let p = split(s, '.');
    if p.len() == 3 && plain_number(p[0]) && plain_number(p[1]) && plain_number(p[2]) {
        Some((digits_value(p[0]) as u64, digits_value(p[1]) as u64, digits_value(p[2]) as u64))
    } else {
        None
    }
}

/// Calls `semver::Version::parse` and keeps the three numbers of a version
/// it accepts. The contract names the result and states what the crate's
/// parser shows of plain texts: empty text is refused, and a plain `X.Y.Z`
/// (numbers without leading zeros that fit in a `u64`) reads as its three
/// numbers, `0.0.0` among them. What it reads from texts with a pre-release or build part is
/// left to the name.
#[verifier::external_body]
pub(crate) fn semver_parse(s: &str) -> (r: Option<(u64, u64, u64)>)
    ensures
        r == semver_triple(s@),
        s@.len() == 0 ==> r is None,
        plain_triple(s@) is Some ==> r == plain_triple(s@),
        s@ == "0.0.0"@ ==> r == Some((0u64, 0u64, 0u64)),
{
    match semver::Version::parse(s) {
        Ok(v) => Some((v.major, v.minor, v.patch)),
        Err(_) => None,
    }
}

/// The version text inside a scope's tag `scope/vX.Y.Z`: what follows the
/// scope, its `/` and a `v`.
pub open spec fn tag_version_text(scope: Seq<char>, tag: Seq<char>) -> Option<Seq<char>> {
    let p = scope + "/"@;
    if starts_with(tag, p) && starts_with(tag.skip(p.len() as int), "v"@) {
        Some(tag.skip(p.len() + 1int))
    } else {
        None
    }
}

/// The version to audit a scope at, from its newest tag and what
/// `semver_triple` reads from that tag's version text: the next patch of
/// that version; the tag with `-bump` behind it when the tag is not
/// `scope/vX.Y.Z`; `scope/v0.1.0` for a scope without tags.
pub open spec fn candidate_spec(scope: Seq<char>, tag: Option<Seq<char>>, parsed: Option<(u64, u64, u64)>) -> Seq<char> {
    match tag {
        None => scope + "/v0.1.0"@,
        Some(t) => match (tag_version_text(scope, t), parsed) {
            (Some(_), Some((major, minor, patch))) => scope + "/v"@ + decimal(major as nat) + "."@
                + decimal(minor as nat) + "."@ + decimal((patch + 1) as nat),
            _ => scope + "/"@ + t + "-bump"@,
        },
    }
}

fn version_text_exec(scope: &str, tag: &str) -> (r: Option<String>)
    ensures
        match r {
            Some(v) => tag_version_text(scope@, tag@) == Some(v@),
            None => tag_version_text(scope@, tag@) is None,
        },
{
    let t = chars_of(tag);
    let mut p: Vec<char> = Vec::new();
    append_str(&mut p, scope);
    append_str(&mut p, "/");
    proof {
        reveal_strlit("v");
    }
    if !starts_with_exec(t.as_slice(), p.as_slice()) {
        return None;
    }
    let rest = slice_of(t.as_slice(), p.len(), t.len());
    assert(rest@ =~= tag@.skip(p@.len() as int));
    let v = chars_of("v");
    if !starts_with_exec(rest.as_slice(), v.as_slice()) {
        return None;
    }
    let body = slice_of(rest.as_slice(), 1, rest.len());
    assert(body@ =~= tag@.skip(p@.len() + 1int));
    Some(string_of(body.as_slice()))
}

/// The audit version of a scope from its newest tag and the numbers read
/// from that tag; the patch number must leave room for the next one.
pub fn candidate_from_parsed(scope: &str, tag: Option<&str>, parsed: Option<(u64, u64, u64)>) -> (r: String)
    requires
        match parsed {
            Some((_, _, patch)) => patch < u64::MAX,
            None => true,
        },
    ensures
        r@ == candidate_spec(
            scope@,
            match tag {
                Some(t) => Some(t@),
                None => None,
            },
            parsed,
        ),
{
    let mut out: Vec<char> = Vec::new();
    append_str(&mut out, scope);
    match tag {
        None => {
            append_str(&mut out, "/v0.1.0");
        },
        Some(t) => {
            let text = version_text_exec(scope, t);
            match (text, parsed) {
                (Some(_), Some((major, minor, patch))) => {
                    append_str(&mut out, "/v");
                    append(&mut out, decimal_exec(major).as_slice());
                    append_str(&mut out, ".");
                    append(&mut out, decimal_exec(minor).as_slice());
                    append_str(&mut out, ".");
                    append(&mut out, decimal_exec(patch + 1).as_slice());
                },
                _ => {
                    append_str(&mut out, "/");
                    append_str(&mut out, t);
                    append_str(&mut out, "-bump");
                },
            }
        },
    }
    assert(out@ =~= candidate_spec(
        scope@,
        match tag {
            Some(t) => Some(t@),
            None => None,
        },
        parsed,
    ));
    string_of(out.as_slice())
}

/// The version a release audit checks for a scope, given the scope's newest
/// tag (none without tags). The version text of a `scope/vX.Y.Z` tag is read
/// by `semver::Version::parse`. None only when its patch number is the
/// largest `u64`, which has no next patch.
pub fn detect_candidate_version(scope: &str, latest_tag: Option<&str>) -> (r: Option<String>)
    ensures
        match latest_tag {
            None => r matches Some(v) && v@ == candidate_spec(scope@, None, None),
            Some(t) => match tag_version_text(scope@, t@) {
                None => r matches Some(v) && v@ == candidate_spec(scope@, Some(t@), None),
                Some(text) => match semver_triple(text) {
                    Some(p) => if p.2 < u64::MAX {
                        r matches Some(v) && v@ == candidate_spec(scope@, Some(t@), Some(p))
                    } else {
                        r is None
                    },
                    None => r matches Some(v) && v@ == candidate_spec(scope@, Some(t@), None),
                },
            },
        },
{
    match latest_tag {
        None => Some(candidate_from_parsed(scope, None, None)),
        Some(t) => match version_text_exec(scope, t) {
            None => Some(candidate_from_parsed(scope, Some(t), None)),
            Some(text) => {
                let parsed = semver_parse(text.as_str());
                match parsed {
                    Some((_, _, patch)) => {
                        if patch == u64::MAX {
                            return None;
                        }
                    },
                    None => {},
                }
                Some(candidate_from_parsed(scope, Some(t), parsed))
            },
        },
    }
}

// ───────────────────────────── verdicts ─────────────────────────────

/// An audit verdict as its name, whether it passed, and its detail.
pub type ItemView = (Seq<char>, bool, Seq<char>);

pub open spec fn item_view(i: AuditItem) -> ItemView {
    (i.name@, i.passed, i.detail@)
}

/// Texts joined with a separator between them.
pub open spec fn join_sep(s: Seq<Seq<char>>, sep: Seq<char>) -> Seq<char>
    decreases s.len(),
{
    if s.len() == 0 {
        Seq::empty()
    } else if s.len() == 1 {
        s[0]
    } else {
        join_sep(s.drop_last(), sep) + sep + s.last()
    }
}

fn join_sep_exec(v: &Vec<String>, sep: &str) -> (r: String)
    ensures
        r@ == join_sep(string_views(v@), sep@),
{
    let ghost sv = string_views(v@);
    let mut out: Vec<char> = Vec::new();
    let mut i: usize = 0;
    while i < v.len()
        invariant
            i <= v.len(),
            sv == string_views(v@),
            out@ == join_sep(sv.take(i as int), sep@),
        decreases v.len() - i,
    {
        proof {
            assert(sv.take(i + 1).drop_last() =~= sv.take(i as int));
            assert(sv.take(i + 1).last() == v@[i as int]@);
        }
        if i > 0 {
            append_str(&mut out, sep);
        }
        append_str(&mut out, v[i].as_str());
        proof {
            if i == 0 {
                assert(out@ =~= sv.take(1)[0]);
            } else {
                assert(out@ =~= join_sep(sv.take(i as int), sep@) + sep@ + sv.take(i + 1).last());
            }
        }
        i = i + 1;
    }
    assert(sv.take(v.len() as int) =~= sv);
    string_of(out.as_slice())
}

/// The verdict on a version given for the audit.
pub open spec fn version_format_view(version: Seq<char>) -> ItemView {
    ("版本号格式"@, valid_version(version), if valid_version(version) {
        version
    } else {
        "无效: "@ + version
    })
}

pub fn version_format_item(version: &str) -> (r: AuditItem)
    ensures
        item_view(r) == version_format_view(version@),
{
    let ok = validate_version(version);
    let mut d: Vec<char> = Vec::new();
    if !ok {
        append_str(&mut d, "无效: ");
    }
    append_str(&mut d, version);
    AuditItem { name: "版本号格式", passed: ok, detail: string_of(d.as_slice()) }
}

/// The verdict on detecting a version when none was given.
pub open spec fn version_detect_view(detected: Result<Seq<char>, Seq<char>>) -> ItemView {
    match detected {
        Ok(v) => ("版本号检测"@, true, v),
        Err(e) => ("版本号检测"@, false, "自动检测失败: "@ + e),
    }
}

pub open spec fn result_view(d: Result<&str, &str>) -> Result<Seq<char>, Seq<char>> {
    match d {
        Ok(v) => Ok(v@),
        Err(e) => Err(e@),
    }
}

pub fn version_detect_item(detected: Result<&str, &str>) -> (r: AuditItem)
    ensures
        item_view(r) == version_detect_view(result_view(detected)),
{
    match detected {
        Ok(v) => AuditItem { name: "版本号检测", passed: true, detail: v.to_owned() },
        Err(e) => {
            let mut d: Vec<char> = Vec::new();
            append_str(&mut d, "自动检测失败: ");
            append_str(&mut d, e);
            AuditItem { name: "版本号检测", passed: false, detail: string_of(d.as_slice()) }
        },
    }
}

/// The manifests that declare a version other than `ver`, as `file = version`.
pub open spec fn mismatches(files: Seq<(Seq<char>, Option<Seq<char>>)>, ver: Seq<char>) -> Seq<Seq<char>>
    decreases files.len(),
{
    if files.len() == 0 {
        Seq::empty()
    } else {
        let rest = mismatches(files.drop_last(), ver);
        match files.last().1 {
            Some(v) => if v != ver {
                rest.push(files.last().0 + " = "@ + v)
            } else {
                rest
            },
            None => rest,
        }
    }
}

pub open spec fn version_file_views(s: Seq<(String, Option<String>)>) -> Seq<(Seq<char>, Option<Seq<char>>)> {
    s.map_values(|f: (String, Option<String>)| (f.0@, crate::tag::opt_view(f.1)))
}

/// The verdict on the versions the scope's manifests declare.
pub open spec fn config_view(files: Seq<(Seq<char>, Option<Seq<char>>)>, ver: Seq<char>) -> ItemView {
    let m = mismatches(files, ver);
    ("配置文件一致性"@, m.len() == 0, if m.len() == 0 {
        decimal(files.len()) + " 个文件版本均为 "@ + ver
    } else {
        "不一致: "@ + join_sep(m, ", "@)
    })
}

pub fn config_consistency_item(files: &[(String, Option<String>)], ver: &str) -> (r: AuditItem)
    ensures
        item_view(r) == config_view(version_file_views(files@), ver@),
{
    let ghost fv = version_file_views(files@);
    let mut bad: Vec<String> = Vec::new();
    let mut i: usize = 0;
    while i < files.len()
        invariant
            i <= files.len(),
            fv == version_file_views(files@),
            string_views(bad@) == mismatches(fv.take(i as int), ver@),
        decreases files.len() - i,
    {
        proof {
            assert(fv.take(i + 1).drop_last() =~= fv.take(i as int));
            assert(fv.take(i + 1).last() == fv[i as int]);
        }
        match &files[i].1 {
            Some(v) => {
                if !str_eq(v.as_str(), ver) {
                    let mut e: Vec<char> = Vec::new();
                    append_str(&mut e, files[i].0.as_str());
                    append_str(&mut e, " = ");
                    append_str(&mut e, v.as_str());
                    let s = string_of(e.as_slice());
                    let ghost before = bad@;
                    bad.push(s);
                    assert(string_views(bad@) =~= string_views(before).push(s@));
                }
            },
            None => {},
        }
        i = i + 1;
    }
    assert(fv.take(files.len() as int) =~= fv);
    let mut d: Vec<char> = Vec::new();
    if bad.len() == 0 {
        append(&mut d, decimal_exec(files.len() as u64).as_slice());
        append_str(&mut d, " 个文件版本均为 ");
        append_str(&mut d, ver);
    } else {
        append_str(&mut d, "不一致: ");
        append_str(&mut d, join_sep_exec(&bad, ", ").as_str());
    }
    AuditItem { name: "配置文件一致性", passed: bad.len() == 0, detail: string_of(d.as_slice()) }
}

/// The verdict on the changelog, from the problems its precheck found.
pub open spec fn changelog_view(errors: Seq<Seq<char>>, ver: Seq<char>) -> ItemView {
    ("CHANGELOG"@, errors.len() == 0, if errors.len() == 0 {
        "包含 "@ + ver + " 条目"@
    } else {
        join_sep(errors, "; "@)
    })
}

pub fn changelog_item(errors: &Vec<String>, ver: &str) -> (r: AuditItem)
    ensures
        item_view(r) == changelog_view(string_views(errors@), ver@),
{
    if errors.len() == 0 {
        let mut d: Vec<char> = Vec::new();
        append_str(&mut d, "包含 ");
        append_str(&mut d, ver);
        append_str(&mut d, " 条目");
        AuditItem { name: "CHANGELOG", passed: true, detail: string_of(d.as_slice()) }
    } else {
        AuditItem { name: "CHANGELOG", passed: false, detail: join_sep_exec(errors, "; ") }
    }
}

/// The verdict on uncommitted changes.
pub open spec fn worktree_view(dirty: bool) -> ItemView {
    ("工作区状态"@, !dirty, if dirty {
        "有未提交变更"@
    } else {
        "干净"@
    })
}

pub fn worktree_item(dirty: bool) -> (r: AuditItem)
    ensures
        item_view(r) == worktree_view(dirty),
{
    AuditItem {
        name: "工作区状态",
        passed: !dirty,
        detail: if dirty {
            "有未提交变更".to_owned()
        } else {
            "干净".to_owned()
        },
    }
}

/// The verdict on a tag of that version existing already.
pub open spec fn tag_view(tag_exists: bool, version: Seq<char>) -> ItemView {
    ("标签冲突"@, !tag_exists, version + if tag_exists {
        " 已存在"@
    } else {
        " 可用"@
    })
}

pub fn tag_item(tag_exists: bool, version: &str) -> (r: AuditItem)
    ensures
        item_view(r) == tag_view(tag_exists, version@),
{
    let mut d: Vec<char> = Vec::new();
    append_str(&mut d, version);
    if tag_exists {
        append_str(&mut d, " 已存在");
    } else {
        append_str(&mut d, " 可用");
    }
    AuditItem { name: "标签冲突", passed: !tag_exists, detail: string_of(d.as_slice()) }
}

/// The verdict on the `origin` remote.
pub open spec fn remote_view(remote: Option<Seq<char>>) -> ItemView {
    match remote {
        Some(x) => ("远程仓库"@, true, "origin ("@ + x + ")"@),
        None => ("远程仓库"@, false, "未配置 origin"@),
    }
}

pub fn remote_item(remote: Option<&str>) -> (r: AuditItem)
    ensures
        item_view(r) == remote_view(match remote {
            Some(x) => Some(x@),
            None => None,
        }),
{
    match remote {
        Some(x) => {
            let mut d: Vec<char> = Vec::new();
            append_str(&mut d, "origin (");
            append_str(&mut d, x);
            append_str(&mut d, ")");
            AuditItem { name: "远程仓库", passed: true, detail: string_of(d.as_slice()) }
        },
        None => AuditItem { name: "远程仓库", passed: false, detail: "未配置 origin".to_owned() },
    }
}

/// What asking GitHub for a release gave.
pub enum GhView {
    /// The `gh` command is not installed or does not work.
    Unavailable,
    /// The release exists; its body, trimmed.
    Body(String),
    /// `gh` ran but found no release (or could not reach it).
    Missing,
    /// `gh` could not be run.
    Failed(String),
}

/// The verdict on the GitHub release of the version: nothing to check
/// before the tag exists or without a remote; else its body must equal the
/// release notes of the changelog (empty when there are none).
pub open spec fn github_release_spec(
    tag_exists: bool,
    has_remote: bool,
    view: GhView,
    notes: Option<Seq<char>>,
) -> (Seq<char>, bool, Seq<char>) {
    if !tag_exists {
        ("GitHub Release"@, true, "标签未发布，无需检查"@)
    } else if !has_remote {
        ("GitHub Release"@, true, "无远程仓库，跳过"@)
    } else {
        match view {
            GhView::Unavailable => ("GitHub Release"@, false, "gh CLI 未安装或不可用"@),
            GhView::Body(b) => {
                let n = match notes {
                    Some(x) => x,
                    None => Seq::empty(),
                };
                if b@ == n {
                    ("GitHub Release"@, true, "body 与 CHANGELOG 一致"@)
                } else {
                    ("GitHub Release"@, false, "body 与 CHANGELOG 不同步"@)
                }
            },
            GhView::Missing => ("GitHub Release"@, false, "GitHub Release 不存在或访问失败"@),
            GhView::Failed(e) => ("GitHub Release"@, false, "gh CLI 执行失败: "@ + e@),
        }
    }
}

/// The verdict on the GitHub release; `view` is only looked at when the
/// tag exists and a remote is known.
pub fn github_release_item(tag_exists: bool, remote: Option<&str>, view: &GhView, notes: Option<&str>) -> (r:
    AuditItem)
    ensures
        item_view(r) == github_release_spec(
            tag_exists,
            remote is Some,
            *view,
            match notes {
                Some(x) => Some(x@),
                None => None,
            },
        ),
{
    if !tag_exists {
        return AuditItem { name: "GitHub Release", passed: true, detail: "标签未发布，无需检查".to_owned() };
    }
    if remote.is_none() {
        return AuditItem { name: "GitHub Release", passed: true, detail: "无远程仓库，跳过".to_owned() };
    }
    match view {
        GhView::Unavailable => {
            let r = AuditItem { name: "GitHub Release", passed: false, detail: "gh CLI 未安装或不可用".to_owned() };
            r
        },
        GhView::Body(b) => {
            proof {
                reveal_strlit("");
            }
            let n: &str = match notes {
                Some(x) => x,
                None => "",
            };
            let same = str_eq(b.as_str(), n);
            let detail = if same {
                "body 与 CHANGELOG 一致".to_owned()
            } else {
                "body 与 CHANGELOG 不同步".to_owned()
            };
            let r = AuditItem { name: "GitHub Release", passed: same, detail };
            assert(n@ == match notes {
                Some(x) => x@,
                None => Seq::<char>::empty(),
            });
            r
        },
        GhView::Missing => AuditItem {
            name: "GitHub Release",
            passed: false,
            detail: "GitHub Release 不存在或访问失败".to_owned(),
        },
        GhView::Failed(e) => {
            let mut d: Vec<char> = Vec::new();
            append_str(&mut d, "gh CLI 执行失败: ");
            append_str(&mut d, e.as_str());
            AuditItem { name: "GitHub Release", passed: false, detail: string_of(d.as_slice()) }
        },
    }
}

// ───────────────────────────── the audit ─────────────────────────────

pub open spec fn audit_item_views(s: Seq<AuditItem>) -> Seq<ItemView> {
    s.map_values(|i: AuditItem| item_view(i))
}

pub open spec fn opt_str(o: Option<&str>) -> Option<Seq<char>> {
    match o {
        Some(x) => Some(x@),
        None => None,
    }
}

pub open spec fn detected_view(d: Option<Result<&str, &str>>) -> Option<Result<Seq<char>, Seq<char>>> {
    match d {
        Some(x) => Some(result_view(x)),
        None => None,
    }
}

/// The version the checks after the first verdict are made for: the one
/// given when it is well formed, else the one detected; none when the audit
/// stops at its first verdict.
pub open spec fn audited_version(version: Option<Seq<char>>, detected: Option<Result<Seq<char>, Seq<char>>>) -> Option<
    Seq<char>,
> {
    match version {
        Some(v) => if valid_version(v) {
            Some(v)
        } else {
            None
        },
        None => match detected {
            Some(Ok(d)) => Some(d),
            _ => None,
        },
    }
}

/// What the audit reports first: whether the version asked for is well
/// formed, or, when none was asked for, how detecting one went.
pub open spec fn first_verdict(version: Option<Seq<char>>, detected: Option<Result<Seq<char>, Seq<char>>>) -> Seq<
    ItemView,
> {
    match version {
        Some(v) => seq![version_format_view(v)],
        None => match detected {
            Some(d) => seq![version_detect_view(d)],
            None => Seq::empty(),
        },
    }
}

/// The verdicts that follow for the audited version `v`: manifests,
/// changelog, working tree, tag, remote and GitHub release, in that order.
pub open spec fn checks_spec(
    v: Seq<char>,
    config: Seq<(Seq<char>, Option<Seq<char>>)>,
    changelog_path: Seq<char>,
    changelog: Option<Seq<char>>,
    dirty: bool,
    tag_exists: bool,
    remote: Option<Seq<char>>,
    view: GhView,
) -> Seq<ItemView> {
    let ver = normalized_version(v);
    seq![
        config_view(config, ver),
        changelog_view(precheck_errors(v, changelog_path, changelog), ver),
        worktree_view(dirty),
        tag_view(tag_exists, v),
        remote_view(remote),
        github_release_spec(
            tag_exists,
            remote is Some,
            view,
            match changelog {
                Some(c) => notes_spec(v, c),
                None => None,
            },
        ),
    ]
}

/// The verdicts of a release audit: the first verdict, and the checks for
/// the audited version when there is one.
pub open spec fn audit_spec(
    version: Option<Seq<char>>,
    detected: Option<Result<Seq<char>, Seq<char>>>,
    config: Seq<(Seq<char>, Option<Seq<char>>)>,
    changelog_path: Seq<char>,
    changelog: Option<Seq<char>>,
    dirty: bool,
    tag_exists: bool,
    remote: Option<Seq<char>>,
    view: GhView,
) -> Seq<ItemView> {
    first_verdict(version, detected) + match audited_version(version, detected) {
        Some(v) => checks_spec(v, config, changelog_path, changelog, dirty, tag_exists, remote, view),
        None => Seq::empty(),
    }
}

/// The version whose checks the audit goes on with, if any: the reads for
/// the later verdicts are only needed for it.
pub fn audit_target(version: Option<&str>, detected: Option<Result<&str, &str>>) -> (r: Option<String>)
    ensures
        opt_view(r) == audited_version(opt_str(version), detected_view(detected)),
{
    match version {
        Some(v) => if validate_version(v) {
            Some(v.to_owned())
        } else {
            None
        },
        None => match detected {
            Some(Ok(d)) => Some(d.to_owned()),
            _ => None,
        },
    }
}

/// Whether the GitHub release is asked for: only when the tag exists and a
/// remote is known.
pub fn release_lookup_needed(tag_exists: bool, remote: Option<&str>) -> (r: bool)
    ensures
        r == (tag_exists && remote is Some),
{
    tag_exists && remote.is_some()
}

/// The pre-release audit: checks whether `version` (or the one detected,
/// when none is given) is ready for release, from what was read about the
/// scope and the repository. It stops after a malformed version or a failed
/// detection.
pub fn audit_items(
    version: Option<&str>,
    detected: Option<Result<&str, &str>>,
    config_versions: &[(String, Option<String>)],
    changelog_path: &str,
    changelog: Option<&str>,
    dirty: bool,
    tag_exists: bool,
    remote: Option<&str>,
    view: &GhView,
) -> (r: Vec<AuditItem>)
    ensures
        audit_item_views(r@) == audit_spec(
            opt_str(version),
            detected_view(detected),
            version_file_views(config_versions@),
            changelog_path@,
            opt_str(changelog),
            dirty,
            tag_exists,
            opt_str(remote),
            *view,
        ),
{
    let mut items: Vec<AuditItem> = Vec::new();
    let v: String = match version {
        Some(v) => {
            let first = version_format_item(v);
            items.push(first);
            assert(audit_item_views(items@) =~= seq![item_view(first)]);
            if !validate_version(v) {
                return items;
            }
            v.to_owned()
        },
        None => match detected {
            Some(Ok(d)) => {
                let first = version_detect_item(Ok(d));
                items.push(first);
                assert(audit_item_views(items@) =~= seq![item_view(first)]);
                d.to_owned()
            },
            Some(Err(e)) => {
                let first = version_detect_item(Err(e));
                items.push(first);
                assert(audit_item_views(items@) =~= seq![item_view(first)]);
                return items;
            },
            None => {
                assert(audit_item_views(items@) =~= Seq::<ItemView>::empty());
                return items;
            },
        },
    };
    let ghost head = audit_item_views(items@);
    let ver = normalize_version(v.as_str());
    let a = config_consistency_item(config_versions, ver.as_str());
    let errors = precheck_version_changelog(v.as_str(), changelog_path, changelog);
    let b = changelog_item(&errors, ver.as_str());
    let c = worktree_item(dirty);
    let d = tag_item(tag_exists, v.as_str());
    let e = remote_item(remote);
    let notes = match changelog {
        Some(text) => extract_notes(v.as_str(), text),
        None => None,
    };
    let f = match &notes {
        Some(n) => github_release_item(tag_exists, remote, view, Some(n.as_str())),
        None => github_release_item(tag_exists, remote, view, None),
    };
    let ghost tail = seq![item_view(a), item_view(b), item_view(c), item_view(d), item_view(e), item_view(f)];
    items.push(a);
    items.push(b);
    items.push(c);
    items.push(d);
    items.push(e);
    items.push(f);
    assert(audit_item_views(items@) =~= head + tail);
    items
}

/// What the audit of one scope is given: the scope's name, the version it is
/// audited at, and what was read for the checks.
pub struct ScopeAudit {
    pub name: String,
    pub version: String,
    pub config_versions: Vec<(String, Option<String>)>,
    pub changelog_path: String,
    pub changelog: Option<String>,
    pub dirty: bool,
    pub tag_exists: bool,
    pub remote: Option<String>,
    pub view: GhView,
}

/// The verdicts of a scope's audit at its given version.
pub open spec fn scope_audit_spec(a: ScopeAudit) -> Seq<ItemView> {
    audit_spec(
        Some(a.version@),
        None,
        version_file_views(a.config_versions@),
        a.changelog_path@,
        opt_view(a.changelog),
        a.dirty,
        a.tag_exists,
        opt_view(a.remote),
        a.view,
    )
}

/// Audits each scope once, in the order given: its name with its verdicts,
/// of which there is at least one.
pub fn audit_scopes(scopes: &[ScopeAudit]) -> (r: Vec<(String, Vec<AuditItem>)>)
    ensures
        r@.len() == scopes@.len(),
        forall|i: int|
            0 <= i < r@.len() ==> {
                &&& (#[trigger] r@[i]).0@ == scopes@[i].name@
                &&& audit_item_views(r@[i].1@) == scope_audit_spec(scopes@[i])
                &&& r@[i].1@.len() > 0
            },
{
    let mut out: Vec<(String, Vec<AuditItem>)> = Vec::new();
    let mut i: usize = 0;
    while i < scopes.len()
        invariant
            i <= scopes.len(),
            out@.len() == i,
            forall|k: int|
                0 <= k < i ==> {
                    &&& (#[trigger] out@[k]).0@ == scopes@[k].name@
                    &&& audit_item_views(out@[k].1@) == scope_audit_spec(scopes@[k])
                    &&& out@[k].1@.len() > 0
                },
        decreases scopes.len() - i,
    {
        let a = &scopes[i];
        let changelog = match &a.changelog {
            Some(c) => Some(c.as_str()),
            None => None,
        };
        let remote = match &a.remote {
            Some(x) => Some(x.as_str()),
            None => None,
        };
        let items = audit_items(
            Some(a.version.as_str()),
            None,
            a.config_versions.as_slice(),
            a.changelog_path.as_str(),
            changelog,
            a.dirty,
            a.tag_exists,
            remote,
            &a.view,
        );
        proof {
            assert(opt_str(changelog) == opt_view(a.changelog));
            assert(opt_str(remote) == opt_view(a.remote));
            let sp = scope_audit_spec(*a);
            assert(sp.len() >= 1);
            assert(audit_item_views(items@).len() == items@.len());
        }
        out.push((a.name.clone(), items));
        i = i + 1;
    }
    out
}

/// The names an audit run covers, for the scopes and the filter given.
pub open spec fn run_names(scopes: &[Scope], scope_filter: Option<&str>) -> Seq<Seq<char>> {
    audited_names(scope_views(scopes@), opt_str(scope_filter))
}

/// A release audit run: the scopes of the contract (or only the one asked
/// for), each audited once, in the contract's order, with its verdicts; an
/// error when no scope is left. `readings` holds, in that order, what was
/// read for each scope the run covers.
pub fn audit_all_scopes(scopes: &[Scope], scope_filter: Option<&str>, readings: &[ScopeAudit]) -> (r: Result<
    Vec<(String, Vec<AuditItem>)>,
    String,
>)
    requires
        run_names(scopes, scope_filter).len() > 0 ==> readings@.len() == run_names(scopes, scope_filter).len(),
        forall|i: int|
            0 <= i < readings@.len() && i < run_names(scopes, scope_filter).len() ==> (#[trigger] readings@[i]).name@
                == run_names(scopes, scope_filter)[i],
    ensures
        match r {
            Ok(v) => {
                &&& run_names(scopes, scope_filter).len() > 0
                &&& v@.len() == run_names(scopes, scope_filter).len()
                &&& forall|i: int|
                    0 <= i < v@.len() ==> {
                        &&& (#[trigger] v@[i]).0@ == run_names(scopes, scope_filter)[i]
                        &&& audit_item_views(v@[i].1@) == scope_audit_spec(readings@[i])
                        &&& v@[i].1@.len() > 0
                    }
            },
            Err(e) => run_names(scopes, scope_filter).len() == 0 && e@ == no_scope_text(opt_str(scope_filter)),
        },
{
    match audit_all(scopes, scope_filter) {
        Err(e) => Err(e),
        Ok(names) => {
            proof {
                assert(string_views(names@).len() == names@.len());
            }
            let r = audit_scopes(readings);
            proof {
                assert forall|i: int| 0 <= i < r@.len() implies (#[trigger] r@[i]).0@ == run_names(
                    scopes,
                    scope_filter,
                )[i] by {
                    assert(r@[i].0@ == readings@[i].name@);
                }
            }
            Ok(r)
        },
    }
}

} // verus!
