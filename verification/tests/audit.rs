use qtcloud_devops_cli::audit::{
    audit_all, audit_all_scopes, audit_items, audit_scopes, audit_target, candidate_from_parsed, changelog_item,
    config_consistency_item, detect_candidate_version, github_release_item, release_lookup_needed,
    remote_item, tag_item, version_detect_item, version_format_item, worktree_item, AuditItem, GhView,
    ScopeAudit,
};
use qtcloud_devops_cli::scope::Scope;

fn scope(name: &str) -> Scope {
    Scope { name: name.into(), dir: ".".into() }
}

#[test]
fn test_audit_all_no_scopes() {
    let result = audit_all(&[], None);
    assert!(result.is_err());
}

#[test]
fn audit_all_with_scope_filter_empty() {
    let result = audit_all(&[scope("cli")], Some("nonexistent"));
    assert_eq!(result, Err("未找到 scope: nonexistent".to_string()));
}

#[test]
fn audit_all_found_scope() {
    let result = audit_all(&[scope("cli"), scope("web")], Some("cli"));
    assert_eq!(result, Ok(vec!["cli".to_string()]));
    assert_eq!(audit_all(&[scope("cli"), scope("web")], None), Ok(vec!["cli".to_string(), "web".to_string()]));
    assert_eq!(audit_all(&[], None), Err("未找到 scope".to_string()));
}

#[test]
fn test_detect_candidate_no_tags() {
    let version = detect_candidate_version("cli", None);
    assert_eq!(version, Some("cli/v0.1.0".to_string()));
}

#[test]
fn detect_candidate_with_existing_tag() {
    assert_eq!(detect_candidate_version("cli", Some("cli/v1.2.3")), Some("cli/v1.2.4".to_string()));
    assert_eq!(
        detect_candidate_version("cli", Some("cli/v1.2.3-rc.1")),
        Some("cli/v1.2.4".to_string())
    );
}

#[test]
fn detect_candidate_fallback_bump() {
    assert_eq!(detect_candidate_version("cli", Some("cli/vbad")), Some("cli/cli/vbad-bump".to_string()));
    assert_eq!(detect_candidate_version("cli", Some("other/v1.0.0")), Some("cli/other/v1.0.0-bump".to_string()));
    assert_eq!(detect_candidate_version("cli", Some("cli/v01.0.0")), Some("cli/cli/v01.0.0-bump".to_string()));
}

#[test]
fn candidate_from_parsed_cases() {
    assert_eq!(candidate_from_parsed("cli", Some("cli/v1.2.3"), Some((1, 2, 3))), "cli/v1.2.4");
    assert_eq!(candidate_from_parsed("cli", Some("cli/v1.2.3"), None), "cli/cli/v1.2.3-bump");
    assert_eq!(candidate_from_parsed("cli", None, None), "cli/v0.1.0");
}

#[test]
fn audit_item_fields() {
    let item = AuditItem { name: "版本号格式", passed: true, detail: "v1.0.0".into() };
    assert!(item.passed);
    assert_eq!(item.name, "版本号格式");
}

/// An audit of `version` over an empty directory without a remote.
fn bare_audit(version: &str) -> Vec<AuditItem> {
    audit_items(Some(version), None, &[], "/d/CHANGELOG.md", None, false, false, None, &GhView::Missing)
}

#[test]
fn test_audit_invalid_version() {
    let item = version_format_item("bad");
    assert!(!item.passed);
    assert_eq!(item.detail, "无效: bad");
    let items = bare_audit("bad-version");
    assert!(!items.is_empty());
    assert!(items.iter().any(|i| !i.passed && i.name == "版本号格式"));
    assert_eq!(items.len(), 1);
}

#[test]
fn test_audit_valid_version() {
    let item = version_format_item("v1.0.0");
    assert!(item.passed);
    assert_eq!(item.detail, "v1.0.0");
    let items = bare_audit("cli/v1.0.0");
    assert!(items.len() >= 2, "应有多项检查: {:?}", items);
    assert!(items.iter().any(|i| i.passed && i.name == "版本号格式"));
}

#[test]
fn test_audit_no_remote() {
    let remote = remote_item(None);
    assert_eq!(remote.name, "远程仓库");
    assert!(!remote.passed, "无远程应标记为失败");
    assert_eq!(remote_item(Some("o/r")).detail, "origin (o/r)");
    let items = bare_audit("cli/v1.0.0");
    let remote = items.iter().find(|i| i.name == "远程仓库");
    assert!(remote.is_some());
    assert!(!remote.unwrap().passed, "无远程应标记为失败");
}

#[test]
fn audit_items_in_order() {
    let names: Vec<&str> = bare_audit("cli/v1.0.0").iter().map(|i| i.name).collect();
    assert_eq!(
        names,
        vec!["版本号格式", "配置文件一致性", "CHANGELOG", "工作区状态", "标签冲突", "远程仓库", "GitHub Release"]
    );
    let items = bare_audit("cli/v1.0.0");
    assert_eq!(items[2].detail, "CHANGELOG.md 不存在: /d/CHANGELOG.md");
    assert_eq!(items[4].detail, "cli/v1.0.0 可用");
    assert_eq!(items[6].detail, "标签未发布，无需检查");
}

#[test]
fn audit_items_stops_after_failed_detection() {
    let items = audit_items(None, Some(Err("no tags")), &[], "", None, true, true, Some("o/r"), &GhView::Missing);
    assert_eq!(items.len(), 1);
    assert_eq!(items[0].name, "版本号检测");
    assert_eq!(items[0].detail, "自动检测失败: no tags");
    assert!(!items[0].passed);
}

#[test]
fn audit_items_with_detected_version_and_release() {
    let changelog = "# CHANGELOG\n\n## [1.2.0] - 2024-01-01\n\n- added x\n";
    let files = vec![("Cargo.toml".to_string(), Some("1.2.0".to_string()))];
    let items = audit_items(
        None,
        Some(Ok("v1.2.0")),
        &files,
        "/r/CHANGELOG.md",
        Some(changelog),
        false,
        true,
        Some("o/r"),
        &GhView::Body("- added x".into()),
    );
    assert_eq!(items.len(), 7);
    assert_eq!(items[0].name, "版本号检测");
    assert_eq!(items[0].detail, "v1.2.0");
    assert!(items[1].passed);
    assert!(items[2].passed && items[2].detail == "包含 1.2.0 条目");
    assert!(!items[4].passed && items[4].detail == "v1.2.0 已存在");
    assert!(items[6].passed && items[6].detail == "body 与 CHANGELOG 一致");
    // The release body is only compared once the tag exists and a remote is known.
    assert!(release_lookup_needed(true, Some("o/r")));
    assert!(!release_lookup_needed(true, None));
    assert!(!release_lookup_needed(false, Some("o/r")));
}

#[test]
fn audit_target_cases() {
    assert_eq!(audit_target(Some("v1.0.0"), None), Some("v1.0.0".to_string()));
    assert_eq!(audit_target(Some("bad"), None), None);
    assert_eq!(audit_target(None, Some(Ok("v2.0.0"))), Some("v2.0.0".to_string()));
    assert_eq!(audit_target(None, Some(Err("x"))), None);
    assert_eq!(audit_target(None, None), None);
}

fn scope_audit(name: &str, version: &str) -> ScopeAudit {
    ScopeAudit {
        name: name.into(),
        version: version.into(),
        config_versions: vec![],
        changelog_path: "CHANGELOG.md".into(),
        changelog: None,
        dirty: false,
        tag_exists: false,
        remote: None,
        view: GhView::Missing,
    }
}

#[test]
fn audit_scopes_audits_each_once() {
    let r = audit_scopes(&[scope_audit("cli", "cli/v1.2.4"), scope_audit("web", "web/v0.1.0")]);
    assert_eq!(r.len(), 2);
    assert_eq!(r[0].0, "cli");
    assert_eq!(r[1].0, "web");
    assert!(!r[0].1.is_empty() && !r[1].1.is_empty());
    assert_eq!(r[0].1[4].detail, "cli/v1.2.4 可用");
    let bad = audit_scopes(&[scope_audit("x", "x/cli/vbad-bump")]);
    assert_eq!(bad[0].1.len(), 1);
    assert!(audit_scopes(&[]).is_empty());
}

#[test]
fn test_audit_github_release_no_tag() {
    let item = github_release_item(false, Some("owner/repo"), &GhView::Unavailable, None);
    assert!(item.passed && item.name == "GitHub Release");
}

#[test]
fn test_audit_github_release_no_remote() {
    let item = github_release_item(true, None, &GhView::Unavailable, None);
    assert!(item.passed && item.name == "GitHub Release");
}

#[test]
fn github_release_verdicts() {
    assert!(!github_release_item(true, Some("o/r"), &GhView::Unavailable, None).passed);
    let same = github_release_item(true, Some("o/r"), &GhView::Body("notes".into()), Some("notes"));
    assert!(same.passed);
    assert_eq!(same.detail, "body 与 CHANGELOG 一致");
    let empty = github_release_item(true, Some("o/r"), &GhView::Body(String::new()), None);
    assert!(empty.passed);
    let diff = github_release_item(true, Some("o/r"), &GhView::Body("old".into()), Some("new"));
    assert!(!diff.passed);
    assert_eq!(github_release_item(true, Some("o/r"), &GhView::Missing, None).detail, "GitHub Release 不存在或访问失败");
    assert_eq!(
        github_release_item(true, Some("o/r"), &GhView::Failed("io".into()), None).detail,
        "gh CLI 执行失败: io"
    );
}

#[test]
fn other_verdicts() {
    assert_eq!(version_detect_item(Ok("v1.0.0")).detail, "v1.0.0");
    assert_eq!(version_detect_item(Err("boom")).detail, "自动检测失败: boom");
    let files = vec![
        ("Cargo.toml".to_string(), Some("1.0.0".to_string())),
        ("pyproject.toml".to_string(), None),
    ];
    let ok = config_consistency_item(&files, "1.0.0");
    assert!(ok.passed);
    assert_eq!(ok.detail, "2 个文件版本均为 1.0.0");
    let bad = vec![
        ("Cargo.toml".to_string(), Some("0.9.0".to_string())),
        ("package.json".to_string(), Some("0.8.0".to_string())),
    ];
    let item = config_consistency_item(&bad, "1.0.0");
    assert!(!item.passed);
    assert_eq!(item.detail, "不一致: Cargo.toml = 0.9.0, package.json = 0.8.0");
    assert_eq!(changelog_item(&vec![], "1.0.0").detail, "包含 1.0.0 条目");
    assert_eq!(changelog_item(&vec!["a".to_string(), "b".to_string()], "1.0.0").detail, "a; b");
    assert_eq!(worktree_item(true).detail, "有未提交变更");
    assert!(worktree_item(false).passed);
    assert_eq!(tag_item(true, "v1").detail, "v1 已存在");
    assert_eq!(tag_item(false, "v1").detail, "v1 可用");
}

#[test]
fn audit_run_covers_each_chosen_scope_once() {
    let scopes = [scope("cli"), scope("web")];
    let r = audit_all_scopes(&scopes, None, &[scope_audit("cli", "cli/v1.0.1"), scope_audit("web", "web/v0.1.0")])
        .unwrap();
    assert_eq!(r.iter().map(|(n, _)| n.as_str()).collect::<Vec<_>>(), vec!["cli", "web"]);
    assert!(r.iter().all(|(_, items)| !items.is_empty()));
    let one = audit_all_scopes(&scopes, Some("web"), &[scope_audit("web", "web/v0.1.0")]).unwrap();
    assert_eq!(one.len(), 1);
    assert_eq!(one[0].0, "web");
    assert_eq!(audit_all_scopes(&scopes, Some("x"), &[]).unwrap_err(), "未找到 scope: x");
}
