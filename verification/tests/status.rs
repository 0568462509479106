use qtcloud_devops_cli::release::load_scopes_map;
use qtcloud_devops_cli::scope::Scope;
use qtcloud_devops_cli::status::{
    check_changelog, classify, status_to, ReleaseState, ReleaseStatus, TagProbe,
};

fn probe(scope: &str, tag: &str, path: &str, consistent: Option<bool>, pending: Option<usize>) -> TagProbe {
    TagProbe {
        scope: scope.into(),
        tag: tag.into(),
        scope_path: path.into(),
        version_consistent: consistent,
        pending,
    }
}

#[test]
fn test_release_status_variants() {
    assert_ne!(ReleaseStatus::Unreleased, ReleaseStatus::Latest);
    assert_ne!(ReleaseStatus::Latest, ReleaseStatus::Pending);
    assert_ne!(ReleaseStatus::Pending, ReleaseStatus::Inconsistent);
    assert_ne!(ReleaseStatus::Inconsistent, ReleaseStatus::Unknown);
}

#[test]
fn test_release_status_debug() {
    assert_eq!(format!("{:?}", ReleaseStatus::Unreleased), "Unreleased");
    assert_eq!(format!("{:?}", ReleaseStatus::Latest), "Latest");
    assert_eq!(format!("{:?}", ReleaseStatus::Pending), "Pending");
    assert_eq!(format!("{:?}", ReleaseStatus::Inconsistent), "Inconsistent");
    assert_eq!(format!("{:?}", ReleaseStatus::Unknown), "Unknown");
}

#[test]
fn release_status_labels() {
    assert_eq!(ReleaseStatus::Unreleased.label(), "未发布");
    assert_eq!(ReleaseStatus::Latest.label(), "已是最新");
    assert_eq!(ReleaseStatus::Pending.label(), "待发布");
    assert_eq!(ReleaseStatus::Inconsistent.label(), "版本冲突");
    assert_eq!(ReleaseStatus::Unknown.label(), "状态未知");
}

#[test]
fn test_release_state_unreleased() {
    let state = ReleaseState {
        status: ReleaseStatus::Unreleased,
        scope: "cli".into(),
        scope_path: "src/cli".into(),
        current_version: None,
        pending_commits: 0,
        changelog: "CHANGELOG.md".into(),
        version_consistent: None,
    };
    assert_eq!(state.status, ReleaseStatus::Unreleased);
    assert!(state.current_version.is_none());
    assert_eq!(state.pending_commits, 0);
}

#[test]
fn test_release_state_pending() {
    let state = ReleaseState {
        status: ReleaseStatus::Pending,
        scope: "core".into(),
        scope_path: "packages/core".into(),
        current_version: Some("v1.2.3".into()),
        pending_commits: 5,
        changelog: "CHANGELOG.md".into(),
        version_consistent: Some(true),
    };
    assert_eq!(state.status, ReleaseStatus::Pending);
    assert_eq!(state.current_version.as_deref(), Some("v1.2.3"));
    assert_eq!(state.pending_commits, 5);
    assert_eq!(state.version_consistent, Some(true));
}

#[test]
fn test_release_state_latest() {
    let state = ReleaseState {
        status: ReleaseStatus::Latest,
        scope: "(root)".into(),
        scope_path: ".".into(),
        current_version: Some("v5.0.0".into()),
        pending_commits: 0,
        changelog: "CHANGELOG.md".into(),
        version_consistent: Some(true),
    };
    assert_eq!(state.status, ReleaseStatus::Latest);
    assert_eq!(state.pending_commits, 0);
}

#[test]
fn classify_cases() {
    assert_eq!(classify(None, Some(false)), (ReleaseStatus::Unknown, 0));
    assert_eq!(classify(Some(3), Some(false)), (ReleaseStatus::Inconsistent, 3));
    assert_eq!(classify(Some(3), Some(true)), (ReleaseStatus::Pending, 3));
    assert_eq!(classify(Some(0), None), (ReleaseStatus::Latest, 0));
}

#[test]
fn test_check_changelog_missing() {
    assert_eq!(check_changelog(false, None, "v1.0.0"), Some(false));
}

#[test]
fn check_changelog_cases() {
    assert_eq!(check_changelog(true, None, "v1.0.0"), None);
    assert_eq!(check_changelog(true, Some("## [v1.0.0]"), "v1.0.0"), Some(true));
    assert_eq!(check_changelog(true, Some("## [1.0.0]"), "v2.0.0"), Some(false));
}

#[test]
fn collect_all_orders_tagged_then_untagged() {
    let map = load_scopes_map(&[
        Scope { name: "cli".into(), dir: "packages/cli".into() },
        Scope { name: "web".into(), dir: "packages/web".into() },
    ]);
    let probes = [probe("cli", "cli/v1.0.0", "packages/cli", Some(true), Some(2))];
    let states = ReleaseState::collect_all(&map, &probes);
    assert_eq!(states.len(), 3);
    assert_eq!(states[0].scope, "cli");
    assert_eq!(states[0].status, ReleaseStatus::Pending);
    assert_eq!(states[0].pending_commits, 2);
    assert_eq!(states[0].current_version.as_deref(), Some("cli/v1.0.0"));
    let web = states.iter().find(|s| s.scope == "web").unwrap();
    assert_eq!(web.status, ReleaseStatus::Unreleased);
    assert_eq!(web.scope_path, "packages/web");
    let root = states.iter().find(|s| s.scope == "(root)").unwrap();
    assert_eq!(root.scope_path, "");
}

#[test]
fn test_status_to_non_git_dir() {
    let map = load_scopes_map(&[]);
    let states = ReleaseState::collect_all(&map, &[]);
    let out = status_to(&states);
    assert!(out.contains("未发布"));
}

#[test]
fn status_report_exact() {
    let states = ReleaseState::collect_all(&[], &[probe("(root)", "v5.0.0", ".", Some(true), Some(0))]);
    let out = status_to(&states);
    let rule = "─".repeat(40);
    assert_eq!(
        out,
        format!(
            "发布状态\n{}\n  [(root)]                Latest\n    路径:         .\n    最新标签:     v5.0.0\n    未发布提交:   0\n    状态:         已是最新\n    变更日志:     CHANGELOG.md\n    版本一致:     是\n",
            rule
        )
    );
    assert_eq!(status_to(&[]), format!("发布状态\n{}\n  最新标签:     (无)\n", rule));
}

#[test]
fn status_report_documented_lines() {
    // The root scope's path is empty in its state and shown as `.`.
    let states = ReleaseState::collect_all(
        &[],
        &[
            probe("qtcloud-core", "qtcloud-core/v2.1.0", "apps/qtcloud-core", None, Some(3)),
            probe("(root)", "v5.0.0", "", Some(true), Some(0)),
        ],
    );
    let out = status_to(&states);
    assert!(out.contains("  [qtcloud-core]          Pending\n"));
    assert!(out.contains("    路径:         apps/qtcloud-core\n"));
    assert!(out.contains("    未发布提交:   3\n    状态:         待发布\n"));
    assert!(out.contains("  [(root)]                Latest\n"));
    assert!(out.contains("    路径:         .\n"));
    assert!(out.contains("    最新标签:     v5.0.0"));
    assert!(out.contains("    未发布提交:   0"));
    assert!(out.contains("    状态:         已是最新"));
}

#[test]
fn status_report_long_scope_name_is_not_cut() {
    let long = "a-very-long-scope-name-indeed";
    let tag = format!("{}/v1.0.0", long);
    let states = ReleaseState::collect_all(&[], &[probe(long, &tag, long, None, None)]);
    let out = status_to(&states);
    assert!(out.contains(&format!("  [{}]Unknown\n", long)));
    assert!(out.contains("    状态:         状态未知\n"));
}

#[test]
fn each_scope_reported_once() {
    let map = load_scopes_map(&[
        Scope { name: "cli".into(), dir: "packages/cli".into() },
        Scope { name: "web".into(), dir: "packages/web".into() },
    ]);
    let states = ReleaseState::collect_all(&map, &[probe("cli", "cli/v1.0.0", "packages/cli", Some(true), Some(0))]);
    let names: Vec<&str> = states.iter().map(|s| s.scope.as_str()).collect();
    assert_eq!(names.len(), map.len());
    assert_eq!(names.iter().filter(|n| **n == "(root)").count(), 1);
    assert_eq!(names.iter().filter(|n| **n == "cli").count(), 1);
    assert_eq!(names.iter().filter(|n| **n == "web").count(), 1);
}
