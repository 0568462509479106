//! Publishing a release: the checks before it, the commit it makes, and the
//! order of tag, push and GitHub release with their failures.

use vstd::prelude::*;
use crate::release::{
    is_prerelease, is_prerelease_spec, join_lines, join_lines_exec, join_path, join_path_exec, precheck_errors,
    precheck_version_changelog, string_views, valid_version, validate_version,
};
use crate::tag::str_eq;
use crate::text::{append, append_str, chars_of, lowercase, string_of, to_lowercase, trim, trim_exec};

verus! {

/// A version given on the command line must be valid.
pub fn check_version_arg(version: &str) -> (r: Result<String, String>)
    ensures
        match r {
            Ok(v) => valid_version(version@) && v@ == version@,
            Err(e) => !valid_version(version@) && e@ == "版本号格式错误: "@ + version@,
        },
{
    if !validate_version(version) {
        let mut e: Vec<char> = Vec::new();
        append_str(&mut e, "版本号格式错误: ");
        append_str(&mut e, version);
        return Err(string_of(e.as_slice()));
    }
    Ok(version.to_owned())
}

/// The user confirms a release by answering `y` or `yes`, in any case and
/// with surrounding whitespace.
pub open spec fn confirms(answer: Seq<char>) -> bool {
    lowercase(trim(answer)) == "y"@ || lowercase(trim(answer)) == "yes"@
}

pub fn confirm_answer(answer: &str) -> (r: bool)
    ensures
        r == confirms(answer@),
{
    let v = chars_of(answer);
    let t = string_of(trim_exec(v.as_slice()).as_slice());
    let low = to_lowercase(t.as_str());
    str_eq(low.as_str(), "y") || str_eq(low.as_str(), "yes")
}

/// The message of the release commit: a changelog entry, else a version
/// bump, else a plain preparation.
pub open spec fn commit_message_spec(has_changelog: bool, has_config_updates: bool, ver: Seq<char>) -> Seq<char> {
    if has_changelog {
        "chore: add CHANGELOG entry for "@ + ver
    } else if has_config_updates {
        "chore: bump version to "@ + ver
    } else {
        "chore: prepare release "@ + ver
    }
}

pub fn release_commit_message(has_changelog: bool, has_config_updates: bool, ver: &str) -> (r: String)
    ensures
        r@ == commit_message_spec(has_changelog, has_config_updates, ver@),
{
    let mut v: Vec<char> = Vec::new();
    if has_changelog {
        append_str(&mut v, "chore: add CHANGELOG entry for ");
    } else if has_config_updates {
        append_str(&mut v, "chore: bump version to ");
    } else {
        append_str(&mut v, "chore: prepare release ");
    }
    append_str(&mut v, ver);
    string_of(v.as_slice())
}

/// A release commits only when it changed a file.
pub fn needs_commit(lock_changed: bool, changelog_written: bool, has_config_updates: bool) -> (r: bool)
    ensures
        r == (lock_changed || changelog_written || has_config_updates),
{
    lock_changed || changelog_written || has_config_updates
}

/// The files a release may have changed in its scope, to be staged when
/// they exist.
pub fn release_files(scope_dir: &str) -> (r: Vec<String>)
    ensures
        string_views(r@) == seq![
            join_path(scope_dir@, "Cargo.toml"@),
            join_path(scope_dir@, "pyproject.toml"@),
            join_path(scope_dir@, "Cargo.lock"@),
            join_path(scope_dir@, "CHANGELOG.md"@),
        ],
{
    let mut v: Vec<String> = Vec::new();
    v.push(join_path_exec(scope_dir, "Cargo.toml"));
    v.push(join_path_exec(scope_dir, "pyproject.toml"));
    v.push(join_path_exec(scope_dir, "Cargo.lock"));
    v.push(join_path_exec(scope_dir, "CHANGELOG.md"));
    assert(string_views(v@) =~= seq![
        join_path(scope_dir@, "Cargo.toml"@),
        join_path(scope_dir@, "pyproject.toml"@),
        join_path(scope_dir@, "Cargo.lock"@),
        join_path(scope_dir@, "CHANGELOG.md"@),
    ]);
    v
}

/// The page of a release on GitHub.
pub fn release_url(repo: &str, version: &str) -> (r: String)
    ensures
        r@ == "https://github.com/"@ + repo@ + "/releases/tag/"@ + version@,
{
    let mut v: Vec<char> = Vec::new();
    append_str(&mut v, "https://github.com/");
    append_str(&mut v, repo);
    append_str(&mut v, "/releases/tag/");
    append_str(&mut v, version);
    string_of(v.as_slice())
}

// ───────────────────────────── tag, push, release ─────────────────────────────

/// What the last step of a release reported.
pub enum ReleaseEvent {
    /// Whether the tag was created (an existing tag counts).
    TagCreated(bool),
    /// How pushing the tag went.
    TagPushed(Result<(), String>),
    /// The GitHub repository of the `origin` remote, if any.
    RemoteFound(Option<String>),
    /// Whether the GitHub release was created (an existing one counts).
    ReleaseCreated(bool),
}

/// What to do next.
#[derive(Debug, PartialEq, Eq)]
pub enum ReleaseAction {
    PushTag,
    FindRemote,
    CreateRelease(String),
    /// The release is out.
    Finish,
    /// Delete the tag again, locally and remotely, then fail.
    RollbackAndFail(String),
    Fail(String),
}

pub open spec fn action_view(a: ReleaseAction) -> (int, Seq<char>) {
    match a {
        ReleaseAction::PushTag => (0, Seq::empty()),
        ReleaseAction::FindRemote => (1, Seq::empty()),
        ReleaseAction::CreateRelease(r) => (2, r@),
        ReleaseAction::Finish => (3, Seq::empty()),
        ReleaseAction::RollbackAndFail(m) => (4, m@),
        ReleaseAction::Fail(m) => (5, m@),
    }
}

/// The order of a release: create the tag, push it, find the GitHub
/// repository, create the release there. A tag that cannot be created
/// fails the release; a push or release that fails takes the tag back.
/// Without a GitHub remote the release ends after the push.
pub open spec fn next_release_spec(version: Seq<char>, event: ReleaseEvent) -> (int, Seq<char>) {
    match event {
        ReleaseEvent::TagCreated(ok) => if ok {
            (0, Seq::empty())
        } else {
            (5, "创建标签 "@ + version + " 失败"@)
        },
        ReleaseEvent::TagPushed(r) => match r {
            Ok(()) => (1, Seq::empty()),
            Err(e) => (4, "推送标签失败: "@ + e@),
        },
        ReleaseEvent::RemoteFound(repo) => match repo {
            Some(r) => (2, r@),
            None => (3, Seq::empty()),
        },
        ReleaseEvent::ReleaseCreated(ok) => if ok {
            (3, Seq::empty())
        } else {
            (4, "创建 GitHub Release 失败"@)
        },
    }
}

pub fn next_release_action(version: &str, event: ReleaseEvent) -> (r: ReleaseAction)
    ensures
        action_view(r) == next_release_spec(version@, event),
{
    match event {
        ReleaseEvent::TagCreated(ok) => {
            if ok {
                ReleaseAction::PushTag
            } else {
                let mut v: Vec<char> = Vec::new();
                append_str(&mut v, "创建标签 ");
                append_str(&mut v, version);
                append_str(&mut v, " 失败");
                ReleaseAction::Fail(string_of(v.as_slice()))
            }
        },
        ReleaseEvent::TagPushed(r) => match r {
            Ok(()) => ReleaseAction::FindRemote,
            Err(e) => {
                let mut v: Vec<char> = Vec::new();
                append_str(&mut v, "推送标签失败: ");
                append_str(&mut v, e.as_str());
                ReleaseAction::RollbackAndFail(string_of(v.as_slice()))
            },
        },
        ReleaseEvent::RemoteFound(repo) => match repo {
            Some(r) => ReleaseAction::CreateRelease(r),
            None => ReleaseAction::Finish,
        },
        ReleaseEvent::ReleaseCreated(ok) => {
            if ok {
                ReleaseAction::Finish
            } else {
                ReleaseAction::RollbackAndFail("创建 GitHub Release 失败".to_owned())
            }
        },
    }
}

// ───────────────────────────── staging a prerelease ─────────────────────────────

/// Why a prerelease may not be staged: an invalid version, a formal
/// version, or the problems of its changelog (one per line).
pub open spec fn stage_check_spec(version: Seq<char>, path: Seq<char>, changelog: Option<Seq<char>>) -> Result<
    (),
    Seq<char>,
> {
    if !valid_version(version) {
        Err("版本号格式错误: "@ + version)
    } else if !is_prerelease_spec(version) {
        Err("stage 仅用于预发布版本（含 -rc.N、-alpha.N 等后缀），正式版请直接 publish: "@ + version)
    } else if precheck_errors(version, path, changelog).len() > 0 {
        Err(join_lines(precheck_errors(version, path, changelog)))
    } else {
        Ok(())
    }
}

/// Checks a prerelease before it is staged, with the text of the changelog
/// at `changelog_path` (none when the file does not exist).
pub fn stage_checks(version: &str, changelog_path: &str, changelog: Option<&str>) -> (r: Result<(), String>)
    ensures
        match r {
            Ok(()) => stage_check_spec(
                version@,
                changelog_path@,
                match changelog {
                    Some(c) => Some(c@),
                    None => None,
                },
            ) == Ok::<(), Seq<char>>(()),
            Err(e) => stage_check_spec(
                version@,
                changelog_path@,
                match changelog {
                    Some(c) => Some(c@),
                    None => None,
                },
            ) == Err::<(), Seq<char>>(e@),
        },
{
    if !validate_version(version) {
        let mut e: Vec<char> = Vec::new();
        append_str(&mut e, "版本号格式错误: ");
        append_str(&mut e, version);
        return Err(string_of(e.as_slice()));
    }
    if !is_prerelease(version) {
        let mut e: Vec<char> = Vec::new();
        append_str(&mut e, "stage 仅用于预发布版本（含 -rc.N、-alpha.N 等后缀），正式版请直接 publish: ");
        append_str(&mut e, version);
        return Err(string_of(e.as_slice()));
    }
    let errors = precheck_version_changelog(version, changelog_path, changelog);
    if errors.len() > 0 {
        return Err(join_lines_exec(&errors));
    }
    Ok(())
}

} // verus!
