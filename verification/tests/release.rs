use qtcloud_devops_cli::release::{
    extract_notes, is_prerelease, join_path_exec, load_scopes_map, normalize_version,
    parse_github_repo, precheck_version_changelog, resolve_scope_dir, run_precheck,
    scope_dir_candidates, strip_path_prefix_exec, validate_version, PublishTarget,
};
use qtcloud_devops_cli::scope::Scope;

fn scope(name: &str, dir: &str) -> Scope {
    Scope { name: name.into(), dir: dir.into() }
}

// ── PublishTarget ───────────────────────────────────────────────

#[test]
fn mod_test_publish_target_debug() {
    assert_eq!(format!("{:?}", PublishTarget::PyPI), "PyPI");
}

#[test]
fn mod_test_publish_target_clone_eq() {
    assert_eq!(PublishTarget::PyPI, PublishTarget::PyPI);
}

#[test]
fn util_test_publish_target_debug() {
    assert_eq!(format!("{:?}", PublishTarget::PyPI), "PyPI");
}

#[test]
fn util_test_publish_target_clone_eq() {
    assert_eq!(PublishTarget::PyPI, PublishTarget::PyPI);
}

// ── versions ────────────────────────────────────────────────────

#[test]
fn validate_version_cases() {
    assert!(validate_version("v1.0.0"));
    assert!(validate_version("v1.0.0-rc.1"));
    assert!(validate_version("cli/v0.3.2"));
    assert!(validate_version("1.2.3"));
    assert!(!validate_version("bad"));
    assert!(!validate_version("v1.0"));
    assert!(!validate_version("cli/vx.0.0"));
}

#[test]
fn normalize_version_cases() {
    assert_eq!(normalize_version("v1.0.0"), "1.0.0");
    assert_eq!(normalize_version("cli/v1.0.0"), "1.0.0");
    assert_eq!(normalize_version("1.0.0-rc.1"), "1.0.0-rc.1");
    assert_eq!(normalize_version("a/b/v2.0.0"), "2.0.0");
}

#[test]
fn test_is_prerelease_rc() {
    assert!(is_prerelease("v1.0.0-rc.1"));
}

#[test]
fn test_is_prerelease_alpha() {
    assert!(is_prerelease("v1.0.0-alpha.1"));
}

#[test]
fn test_is_prerelease_beta() {
    assert!(is_prerelease("v1.0.0-beta.2"));
}

#[test]
fn test_is_prerelease_scoped() {
    assert!(is_prerelease("cli/v0.3.2-rc.1"));
}

#[test]
fn test_is_prerelease_formal() {
    assert!(!is_prerelease("v1.0.0"));
}

#[test]
fn test_is_prerelease_formal_scoped() {
    assert!(!is_prerelease("cli/v0.3.2"));
}

#[test]
fn is_prerelease_ignores_dash_in_scope() {
    assert!(!is_prerelease("my-cli/v0.3.2"));
}

// ── parse_github_repo ───────────────────────────────────────────

#[test]
fn test_parse_github_repo_https() {
    assert_eq!(parse_github_repo("https://github.com/owner/repo.git"), Some("owner/repo".into()));
}

#[test]
fn test_parse_github_repo_ssh() {
    assert_eq!(parse_github_repo("git@github.com:owner/repo.git"), Some("owner/repo".into()));
}

#[test]
fn test_parse_github_repo_not_github() {
    assert_eq!(parse_github_repo("https://gitlab.com/owner/repo.git"), None);
}

#[test]
fn parse_github_repo_without_git_suffix() {
    assert_eq!(parse_github_repo("https://github.com/owner/repo"), Some("owner/repo".into()));
}

#[test]
fn parse_github_repo_rejects_empty_and_trailing_slash() {
    assert_eq!(parse_github_repo("https://github.com/"), None);
    assert_eq!(parse_github_repo("https://github.com/owner/"), None);
    assert_eq!(parse_github_repo("https://github.com"), None);
    assert_eq!(parse_github_repo("https://github.comowner/repo"), None);
}

// ── scopes ──────────────────────────────────────────────────────

#[test]
fn load_scopes_map_adds_root() {
    let m = load_scopes_map(&[scope("cli", "packages/cli")]);
    assert_eq!(m.len(), 2);
    assert!(m.contains(&("cli".to_string(), "packages/cli".to_string())));
    assert!(m.contains(&("(root)".to_string(), String::new())));
}

#[test]
fn load_scopes_map_keeps_declared_root_and_last_duplicate() {
    let m = load_scopes_map(&[scope("(root)", "."), scope("cli", "a"), scope("cli", "b")]);
    assert_eq!(m.len(), 2);
    assert!(m.contains(&("(root)".to_string(), ".".to_string())));
    assert!(m.contains(&("cli".to_string(), "b".to_string())));
}

#[test]
fn join_and_strip_paths() {
    assert_eq!(join_path_exec("/tmp/x", "CHANGELOG.md"), "/tmp/x/CHANGELOG.md");
    assert_eq!(join_path_exec("/tmp/x/", "a"), "/tmp/x/a");
    assert_eq!(join_path_exec("", "a"), "a");
    assert_eq!(join_path_exec("/tmp", "/abs"), "/abs");
    assert_eq!(strip_path_prefix_exec("/r/packages/cli", "/r"), Some("packages/cli".to_string()));
    assert_eq!(strip_path_prefix_exec("/r", "/r"), Some(String::new()));
    assert_eq!(strip_path_prefix_exec("/rx/a", "/r"), None);
}

#[test]
fn test_resolve_scope_dir_with_contract() {
    let scopes = [scope("cli", "packages/cli")];
    let candidates = scope_dir_candidates("cli/v0.1.0", "/repo", &scopes);
    assert_eq!(
        candidates,
        Some((Some("/repo/packages/cli".to_string()), "/repo/cli".to_string()))
    );
    let resolved = resolve_scope_dir("cli/v0.1.0", "/repo", &scopes, true, false);
    assert!(resolved.ends_with("packages/cli"));
}

#[test]
fn resolve_scope_dir_fallbacks() {
    let scopes = [scope("cli", "packages/cli")];
    assert_eq!(resolve_scope_dir("v1.0.0", "/repo", &scopes, true, true), "/repo");
    assert_eq!(resolve_scope_dir("(root)/v1.0.0", "/repo", &scopes, true, true), "/repo");
    assert_eq!(resolve_scope_dir("cli/v1.0.0", "/repo", &scopes, false, true), "/repo/cli");
    assert_eq!(resolve_scope_dir("cli/v1.0.0", "/repo", &scopes, false, false), "/repo");
    assert_eq!(resolve_scope_dir("web/v1.0.0", "/repo", &scopes, true, true), "/repo/web");
    assert_eq!(scope_dir_candidates("v1.0.0", "/repo", &scopes), None);
}

// ── changelog precheck ──────────────────────────────────────────

#[test]
fn mod_test_precheck_changelog_file_not_found() {
    assert!(precheck_version_changelog("v1.0.0", "/d/N.md", None)
        .iter()
        .any(|e| e.contains("不存在")));
}

#[test]
fn mod_test_precheck_changelog_version_invalid() {
    assert!(precheck_version_changelog("bad", "/d/C.md", None).iter().any(|e| e.contains("格式错误")));
}

#[test]
fn util_test_precheck_changelog_file_not_found() {
    assert!(precheck_version_changelog("v1.0.0", "/d/N.md", None)
        .iter()
        .any(|e| e.contains("不存在")));
}

#[test]
fn util_test_precheck_changelog_version_invalid() {
    assert!(precheck_version_changelog("bad", "/d/C.md", None).iter().any(|e| e.contains("格式错误")));
}

#[test]
fn precheck_changelog_no_errors() {
    assert!(precheck_version_changelog("v1.0.0", "C.md", Some("## [1.0.0]\n\ncontent")).is_empty());
}

#[test]
fn precheck_changelog_with_v_prefix_marker() {
    assert!(precheck_version_changelog("v1.0.0", "C.md", Some("## [v1.0.0]\n\ncontent\n")).is_empty());
}

#[test]
fn precheck_changelog_missing_entry_exact() {
    assert_eq!(
        precheck_version_changelog("v2.0.0", "C.md", Some("## [1.0.0]\n\ncontent")),
        vec!["CHANGELOG.md 未找到 2.0.0 版本记录".to_string()]
    );
    assert_eq!(
        precheck_version_changelog("bad", "/x/C.md", None),
        vec!["版本号格式错误: bad".to_string(), "CHANGELOG.md 不存在: /x/C.md".to_string()]
    );
}

#[test]
fn test_run_precheck_scoped() {
    let result = run_precheck("cli/v1.0.0", "/d", None);
    assert_eq!(result.version, "cli/v1.0.0");
    assert_eq!(result.normalized, "1.0.0");
}

#[test]
fn test_run_precheck_changelog_not_found() {
    let result = run_precheck("v1.0.0", "/d", None);
    assert!(result.changelog_errors.iter().any(|e| e.contains("不存在")));
    assert!(!result.changelog_ok());
}

#[test]
fn run_precheck_ok() {
    let result = run_precheck("v1.0.0", "/d", Some("## [1.0.0]\n\ncontent\n"));
    assert_eq!(result.changelog_path, "/d/CHANGELOG.md");
    assert_eq!(result.scope_dir, "/d");
    assert!(result.changelog_ok());
}

// ── release notes ───────────────────────────────────────────────

#[test]
fn extract_notes_found_and_not_found() {
    assert!(extract_notes("v1.0.0", "## [1.0.0]\n\ncontent").is_some());
    assert!(extract_notes("v2.0.0", "## [1.0.0]\n\ncontent").is_none());
}

#[test]
fn extract_notes_sections() {
    let notes = extract_notes(
        "v1.0.0",
        "# Changelog\n\n## [1.0.0] - 2026-06-26\n\n### Added\n- feature\n",
    )
    .unwrap_or_default();
    assert_eq!(notes, "### Added\n- feature");
}

#[test]
fn extract_notes_with_v_prefix_marker() {
    let notes = extract_notes("v1.0.0", "## [v1.0.0]\n\ncontent line").unwrap_or_default();
    assert!(notes.contains("content line"));
}

#[test]
fn extract_notes_next_version_stops() {
    let notes = extract_notes("v1.0.0", "## [1.0.0]\n\ncontent\n## [2.0.0]\n\nnext\n").unwrap();
    assert!(notes.contains("content"));
    assert!(!notes.contains("next"));
}

#[test]
fn extract_notes_filters_header_lines() {
    let notes = extract_notes(
        "v1.0.0",
        "## [1.0.0] - 2026-06-26\n\n## [v1.0.0] - 2023-08-31\n\n### Added\n- feature\n",
    )
    .unwrap_or_default();
    assert!(!notes.contains("## ["));
    assert!(notes.contains("### Added"));
    assert!(notes.contains("- feature"));
}

#[test]
fn extract_notes_empty_entry_is_none() {
    assert_eq!(extract_notes("v1.0.0", "## [1.0.0]\n\n   \n## [0.9.0]\nold\n"), None);
}

#[test]
fn parse_github_repo_splits_at_github_com() {
    assert_eq!(parse_github_repo("https://github.com/owner"), Some("owner".into()));
    assert_eq!(parse_github_repo("https://github.com/a/b/c.git"), Some("a/b/c".into()));
    assert_eq!(parse_github_repo("https://github.com/a/github.com/c"), None);
    assert_eq!(parse_github_repo("https://github.com/.git"), None);
    assert_eq!(parse_github_repo("git@github.com:owner/repo.git.git"), Some("owner/repo.git".into()));
}
