use qtcloud_devops_cli::release::{extract_notes, precheck_version_changelog};
use qtcloud_devops_cli::changelog::{
    changelog_has_version, changelog_rel_path, changelog_with_entry, classify_git_log, ensure_changelog,
    git_log_result, latest_tag_by_name, log_range, write_changelog_entry, ChangelogAction, ChangelogError,
};

#[test]
fn changelog_error_messages() {
    assert_eq!(ChangelogError::Git("x".into()).message(), "git 操作失败: x");
    assert_eq!(ChangelogError::Llm("y".into()).message(), "LLM 调用失败: y");
    assert_eq!(ChangelogError::Io("z".into()).message(), "I/O 错误: z");
    assert_eq!(ChangelogError::NoNewCommits.message(), "没有新的提交记录");
    assert_eq!(ChangelogError::Lib("w".into()).message(), "w");
}

#[test]
fn classify_git_log_cases() {
    assert!(matches!(classify_git_log(Ok(String::new())), Err(ChangelogError::NoNewCommits)));
    assert!(matches!(classify_git_log(Ok("abc feat".into())), Ok(ref s) if s == "abc feat"));
    assert!(matches!(
        classify_git_log(Err("没有新的提交记录".into())),
        Err(ChangelogError::NoNewCommits)
    ));
    assert!(matches!(classify_git_log(Err("boom".into())), Err(ChangelogError::Lib(ref s)) if s == "boom"));
}

#[test]
fn changelog_has_version_cases() {
    assert!(changelog_has_version("v0.1.0", Some("# Changelog\n\n## [0.1.0]\n\ncontent\n")));
    assert!(!changelog_has_version("v0.2.0", Some("## [0.1.0]\n")));
    assert!(!changelog_has_version("v0.1.0", None));
}

#[test]
fn changelog_test_ensure_changelog_no_git_log() {
    let r = ensure_changelog("v0.1.0", None, Some(Err(ChangelogError::Lib("not a git repository".into()))));
    assert!(r.is_err());
}

#[test]
fn changelog_test_ensure_changelog_skips_if_exists() {
    let text = "# Changelog\n\n## [0.1.0]\n\ncontent\n";
    assert!(matches!(ensure_changelog("v0.1.0", Some(text), None), Ok(ChangelogAction::Skip)));
}

#[test]
fn changelog_test_ensure_changelog_skips_with_v_prefix() {
    let text = "# Changelog\n\n## [0.1.0]\n\ncontent\n";
    // Recorded: even a commit log already read changes nothing.
    assert!(matches!(
        ensure_changelog("v0.1.0", Some(text), Some(Ok("abc init".into()))),
        Ok(ChangelogAction::Skip)
    ));
    assert!(matches!(ensure_changelog("cli/v0.1.0", Some(text), None), Ok(ChangelogAction::Skip)));
}

#[test]
fn ensure_changelog_asks_for_the_log() {
    assert!(matches!(ensure_changelog("v0.2.0", Some("## [0.1.0]\n"), None), Ok(ChangelogAction::ReadLog)));
    assert!(matches!(ensure_changelog("v0.2.0", None, None), Ok(ChangelogAction::ReadLog)));
}

#[test]
fn ensure_changelog_promotes_without_commits() {
    match ensure_changelog("v1.0.0-rc.1", None, Some(Err(ChangelogError::NoNewCommits))) {
        Ok(ChangelogAction::Promote(t)) => assert_eq!(t, "阶段晋级至 v1.0.0-rc.1"),
        other => panic!("unexpected: {:?}", other),
    }
    match ensure_changelog("v1.0.0", Some("## [0.9.0]\n"), Some(Ok("feat: x".into()))) {
        Ok(ChangelogAction::Generate(l)) => assert_eq!(l, "feat: x"),
        other => panic!("unexpected: {:?}", other),
    }
}

#[test]
fn changelog_rel_path_cases() {
    assert_eq!(changelog_rel_path("/r", "/r/packages/cli"), "packages/cli/CHANGELOG.md");
    assert_eq!(changelog_rel_path("/r", "/elsewhere"), "/elsewhere/CHANGELOG.md");
}

#[test]
fn changelog_entry_goes_before_first_version() {
    let existing = "# CHANGELOG\n\n## [0.1.0] - 2024-01-01\n\nold\n";
    assert_eq!(
        changelog_with_entry(Some(existing), "cli/v0.2.0", "2024-02-02", "new"),
        "# CHANGELOG\n\n## [0.2.0] - 2024-02-02\n\nnew\n\n## [0.1.0] - 2024-01-01\n\nold\n"
    );
}

#[test]
fn changelog_entry_appended_or_created() {
    assert_eq!(
        changelog_with_entry(None, "v1.0.0", "2024-03-03", "first"),
        "# CHANGELOG\n\n## [1.0.0] - 2024-03-03\n\nfirst\n"
    );
    assert_eq!(
        changelog_with_entry(Some("# Log"), "v1.0.0", "d", "x"),
        "# Log\n## [1.0.0] - d\n\nx\n"
    );
}

#[test]
fn write_changelog_entry_dates_today() {
    let out = write_changelog_entry(None, "v1.0.0", "body");
    assert!(out.starts_with("# CHANGELOG\n\n## [1.0.0] - "));
    assert!(out.ends_with("\n\nbody\n"));
    let date = &out["# CHANGELOG\n\n## [1.0.0] - ".len()..out.len() - "\n\nbody\n".len()];
    assert_eq!(date.len(), 10);
    assert_eq!(&date[4..5], "-");
}

#[test]
fn git_log_outcomes() {
    assert_eq!(log_range(Some("v1.0.0")), "v1.0.0..HEAD");
    assert_eq!(log_range(None), "HEAD");
    assert_eq!(git_log_result(true, "  abc feat\n", ""), Ok("abc feat".to_string()));
    assert_eq!(git_log_result(true, "\n", ""), Err("没有新的提交记录".to_string()));
    assert_eq!(git_log_result(false, "", " fatal: x \n"), Err("fatal: x".to_string()));
    assert_eq!(git_log_result(false, "", ""), Err("git log 失败".to_string()));
}

#[test]
fn latest_tag_by_name_cases() {
    let tags: Vec<String> = ["v0.9.0", "v0.10.0", "cli/v1.0.0"].iter().map(|s| s.to_string()).collect();
    assert_eq!(latest_tag_by_name(&tags), Some("cli/v1.0.0".to_string()));
    assert_eq!(latest_tag_by_name(&[]), None);
}

#[test]
fn latest_tag_by_name_orders_by_version() {
    let tags: Vec<String> = ["v9.0.0", "v10.0.0"].iter().map(|s| s.to_string()).collect();
    assert_eq!(latest_tag_by_name(&tags), Some("v10.0.0".to_string()));
    let pre: Vec<String> = ["v1.0.0", "v1.0.0-rc.1"].iter().map(|s| s.to_string()).collect();
    assert_eq!(latest_tag_by_name(&pre), Some("v1.0.0".to_string()));
}

#[test]
fn latest_tag_by_name_ties_and_unreadable() {
    // Equal versions: the first listed stays.
    let tied: Vec<String> = ["a/v1.0.0", "b/v1.0.0"].iter().map(|s| s.to_string()).collect();
    assert_eq!(latest_tag_by_name(&tied), Some("a/v1.0.0".to_string()));
    // A tag semver cannot read counts as 0.0.0.
    let odd: Vec<String> = ["release-x", "v0.0.1"].iter().map(|s| s.to_string()).collect();
    assert_eq!(latest_tag_by_name(&odd), Some("v0.0.1".to_string()));
    let only_odd: Vec<String> = ["release-x", "v0.0.0"].iter().map(|s| s.to_string()).collect();
    assert_eq!(latest_tag_by_name(&only_odd), Some("release-x".to_string()));
}

#[test]
fn written_entry_passes_precheck() {
    let text = changelog_with_entry(Some("# CHANGELOG\n\n## [0.1.0] - 2024-01-01\n\n- first\n"), "cli/v0.2.0", "2024-02-02", "- second");
    assert!(precheck_version_changelog("cli/v0.2.0", "CHANGELOG.md", Some(&text)).is_empty());
    let fresh = write_changelog_entry(None, "v1.0.0", "- hello");
    assert!(precheck_version_changelog("v1.0.0", "CHANGELOG.md", Some(&fresh)).is_empty());
    assert_eq!(extract_notes("v1.0.0", &fresh), Some("- hello".to_string()));
}

#[test]
fn written_entry_notes_read_back() {
    let existing = "# CHANGELOG\n\n## [0.1.0] - 2024-01-01\n\n- first\n";
    let text = changelog_with_entry(Some(existing), "cli/v0.2.0", "2024-02-02", "- second\n- third");
    assert_eq!(extract_notes("cli/v0.2.0", &text), Some("- second\n- third".to_string()));
    assert_eq!(extract_notes("v0.1.0", &text), Some("- first".to_string()));
    let blank = changelog_with_entry(None, "v1.0.0", "2024-02-02", "   ");
    assert_eq!(extract_notes("v1.0.0", &blank), None);
}
