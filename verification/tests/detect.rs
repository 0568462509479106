use qtcloud_devops_cli::detect::decision_fits;
use qtcloud_devops_cli::detect::{
    check_commits, check_new_commits, propose_version, tag_baseline,
    build_decision_from_flags, build_version_from_decision, build_version_prompt, detect_project_type,
    detect_single_scope, diff_range, fallback_heuristic, get_changed_paths_since_last_tag,
    has_new_commits_since_tag, latest_tag_for_diff, parse_commit_messages, resolve_git_root, DetectError,
    LlmDecision,
};
use qtcloud_devops_cli::scope::Scope;
use qtcloud_devops_cli::tag::VersionParts;

fn decision(action: &str, increment: Option<&str>, prerelease: Option<&str>, reason: &str) -> LlmDecision {
    LlmDecision {
        action: action.into(),
        increment: increment.map(|s| s.into()),
        prerelease: prerelease.map(|s| s.into()),
        reason: reason.into(),
    }
}

fn parts(major: u32, minor: u32, patch: u32) -> VersionParts {
    VersionParts { major, minor, patch, pre_stage: None, pre_num: None }
}

fn h(v: &[&str]) -> Vec<String> {
    v.iter().map(|s| s.to_string()).collect()
}

#[test]
fn detect_test_build_version_from_decision_no_tag() {
    let d = decision("release", Some("minor"), None, "");
    let v = build_version_from_decision(false, &parts(0, 0, 0), &d).ok().unwrap();
    assert_eq!(v, "v0.1.0");
}

#[test]
fn detect_test_build_version_from_decision_no_tag_prerelease() {
    let d = decision("release", Some("minor"), Some("alpha"), "");
    let v = build_version_from_decision(false, &parts(0, 0, 0), &d).ok().unwrap();
    assert_eq!(v, "v0.1.0-alpha.1");
}

#[test]
fn detect_test_build_version_from_decision_skip() {
    let d = decision("skip", None, None, "");
    assert!(build_version_from_decision(true, &parts(1, 0, 0), &d).is_err());
}

#[test]
fn detect_test_build_version_from_decision_human() {
    let d = decision("human", None, None, "breaking change");
    assert!(build_version_from_decision(true, &parts(1, 0, 0), &d).is_err());
}

#[test]
fn detect_test_build_version_from_decision_patch() {
    let d = decision("release", Some("patch"), None, "");
    let v = build_version_from_decision(true, &parts(0, 8, 4), &d).ok().unwrap();
    assert_eq!(v, "v0.8.5");
}

#[test]
fn detect_test_fallback_heuristic_feat() {
    let d = fallback_heuristic(&["feat: add command".into()]);
    assert_eq!(d.action, "release");
    assert_eq!(d.increment.as_deref(), Some("minor"));
}

#[test]
fn detect_test_fallback_heuristic_fix() {
    let d = fallback_heuristic(&["fix: resolve crash".into()]);
    assert_eq!(d.action, "release");
    assert_eq!(d.increment.as_deref(), Some("patch"));
}

#[test]
fn detect_test_fallback_heuristic_docs() {
    let d = fallback_heuristic(&["docs: update readme".into()]);
    assert_eq!(d.action, "release");
    assert_eq!(d.increment.as_deref(), Some("patch"));
}

#[test]
fn detect_test_fallback_heuristic_skip() {
    let d = fallback_heuristic(&["chore: bump version".into()]);
    assert_eq!(d.action, "skip");
}

#[test]
fn detect_test_fallback_heuristic_breaking() {
    let d = fallback_heuristic(&["feat!: breaking".into()]);
    assert_eq!(d.action, "human");
}

#[test]
fn detect_test_fallback_heuristic_refactor() {
    let d = fallback_heuristic(&["refactor: extract method".into()]);
    assert_eq!(d.action, "release");
    assert_eq!(d.increment.as_deref(), Some("patch"));
}

#[test]
fn detect_test_fallback_heuristic_test_commit() {
    let d = fallback_heuristic(&["test: add coverage".into()]);
    assert_eq!(d.action, "release");
    assert_eq!(d.increment.as_deref(), Some("patch"));
}

#[test]
fn detect_test_fallback_heuristic_added_commits() {
    let d = fallback_heuristic(&["Added new feature".into()]);
    assert_eq!(d.action, "release");
    assert_eq!(d.increment.as_deref(), Some("minor"));
}

#[test]
fn detect_test_fallback_heuristic_fixed_commits() {
    let d = fallback_heuristic(&["Fixed crash on startup".into()]);
    assert_eq!(d.action, "release");
    assert_eq!(d.increment.as_deref(), Some("patch"));
}

#[test]
fn detect_test_fallback_heuristic_changed_commits() {
    let d = fallback_heuristic(&["Changed behavior of X".into()]);
    assert_eq!(d.action, "release");
    assert_eq!(d.increment.as_deref(), Some("patch"));
}

#[test]
fn inference_test_build_version_from_decision_no_tag() {
    let d = decision("release", Some("minor"), None, "");
    let v = build_version_from_decision(false, &parts(0, 0, 0), &d).ok().unwrap();
    assert_eq!(v, "v0.1.0");
}

#[test]
fn inference_test_build_version_from_decision_no_tag_prerelease() {
    let d = decision("release", Some("minor"), Some("alpha"), "");
    let v = build_version_from_decision(false, &parts(0, 0, 0), &d).ok().unwrap();
    assert_eq!(v, "v0.1.0-alpha.1");
}

#[test]
fn inference_test_build_version_from_decision_skip() {
    let d = decision("skip", None, None, "");
    assert!(build_version_from_decision(true, &parts(1, 0, 0), &d).is_err());
}

#[test]
fn inference_test_build_version_from_decision_human() {
    let d = decision("human", None, None, "breaking change");
    assert!(build_version_from_decision(true, &parts(1, 0, 0), &d).is_err());
}

#[test]
fn inference_test_build_version_from_decision_patch() {
    let d = decision("release", Some("patch"), None, "");
    let v = build_version_from_decision(true, &parts(0, 8, 4), &d).ok().unwrap();
    assert_eq!(v, "v0.8.5");
}

#[test]
fn inference_test_fallback_heuristic_feat() {
    let d = fallback_heuristic(&["feat: add command".into()]);
    assert_eq!(d.action, "release");
    assert_eq!(d.increment.as_deref(), Some("minor"));
}

#[test]
fn inference_test_fallback_heuristic_fix() {
    let d = fallback_heuristic(&["fix: resolve crash".into()]);
    assert_eq!(d.action, "release");
    assert_eq!(d.increment.as_deref(), Some("patch"));
}

#[test]
fn inference_test_fallback_heuristic_docs() {
    let d = fallback_heuristic(&["docs: update readme".into()]);
    assert_eq!(d.action, "release");
    assert_eq!(d.increment.as_deref(), Some("patch"));
}

#[test]
fn inference_test_fallback_heuristic_skip() {
    let d = fallback_heuristic(&["chore: bump version".into()]);
    assert_eq!(d.action, "skip");
}

#[test]
fn inference_test_fallback_heuristic_breaking() {
    let d = fallback_heuristic(&["feat!: breaking".into()]);
    assert_eq!(d.action, "human");
}

#[test]
fn inference_test_fallback_heuristic_refactor() {
    let d = fallback_heuristic(&["refactor: extract method".into()]);
    assert_eq!(d.action, "release");
    assert_eq!(d.increment.as_deref(), Some("patch"));
}

#[test]
fn inference_test_fallback_heuristic_test_commit() {
    let d = fallback_heuristic(&["test: add coverage".into()]);
    assert_eq!(d.action, "release");
    assert_eq!(d.increment.as_deref(), Some("patch"));
}

#[test]
fn inference_test_fallback_heuristic_added_commits() {
    let d = fallback_heuristic(&["Added new feature".into()]);
    assert_eq!(d.action, "release");
    assert_eq!(d.increment.as_deref(), Some("minor"));
}

#[test]
fn inference_test_fallback_heuristic_fixed_commits() {
    let d = fallback_heuristic(&["Fixed crash on startup".into()]);
    assert_eq!(d.action, "release");
    assert_eq!(d.increment.as_deref(), Some("patch"));
}

#[test]
fn inference_test_fallback_heuristic_changed_commits() {
    let d = fallback_heuristic(&["Changed behavior of X".into()]);
    assert_eq!(d.action, "release");
    assert_eq!(d.increment.as_deref(), Some("patch"));
}

#[test]
fn git_test_parse_commit_messages_typical() {
    let msgs = parse_commit_messages("abc1234 feat: add foo\ndef5678 fix: bar\n");
    assert_eq!(msgs.len(), 2);
    assert_eq!(msgs[0], "feat: add foo");
    assert_eq!(msgs[1], "fix: bar");
}

#[test]
fn git_test_parse_commit_messages_empty() {
    assert!(parse_commit_messages("").is_empty());
}

#[test]
fn git_test_parse_commit_messages_short_line() {
    let msgs = parse_commit_messages("abc1234\n");
    assert_eq!(msgs.len(), 1);
    assert_eq!(msgs[0], "abc1234");
}

#[test]
fn inference_test_parse_commit_messages_typical() {
    let msgs = parse_commit_messages("abc1234 feat: add foo\ndef5678 fix: bar\n");
    assert_eq!(msgs.len(), 2);
    assert_eq!(msgs[0], "feat: add foo");
    assert_eq!(msgs[1], "fix: bar");
}

#[test]
fn inference_test_parse_commit_messages_empty() {
    assert!(parse_commit_messages("").is_empty());
}

#[test]
fn inference_test_parse_commit_messages_short_line() {
    let msgs = parse_commit_messages("abc1234\n");
    assert_eq!(msgs.len(), 1);
    assert_eq!(msgs[0], "abc1234");
}

#[test]
fn log_test_parse_commit_messages_typical() {
    let msgs = parse_commit_messages("abc1234 feat: add foo\ndef5678 fix: bar\n");
    assert_eq!(msgs.len(), 2);
    assert_eq!(msgs[0], "feat: add foo");
    assert_eq!(msgs[1], "fix: bar");
}

#[test]
fn log_test_parse_commit_messages_empty() {
    assert!(parse_commit_messages("").is_empty());
}

#[test]
fn log_test_parse_commit_messages_short_line() {
    let msgs = parse_commit_messages("abc1234\n");
    assert_eq!(msgs.len(), 1);
    assert_eq!(msgs[0], "abc1234");
}

#[test]
fn parse_commit_messages_skips_blank_and_counts_bytes() {
    let msgs = parse_commit_messages("abc1234 中文提交\r\n\n12345678\nabcdef0    \n");
    assert_eq!(msgs, vec!["中文提交".to_string(), "12345678".to_string()]);
}

#[test]
fn decision_from_flags_covers_every_outcome() {
    let d = build_decision_from_flags(true, false, false);
    assert_eq!((d.action.as_str(), d.increment), ("skip", None));
    let d = build_decision_from_flags(true, true, true);
    assert_eq!(d.action, "human");
    assert_eq!(d.reason, "包含 breaking change，请人类指定 major 版本号");
    let d = build_decision_from_flags(true, false, true);
    assert_eq!(d.increment.as_deref(), Some("minor"));
    let d = build_decision_from_flags(false, false, true);
    assert_eq!(d.increment.as_deref(), Some("patch"));
    assert_eq!(d.reason, "包含 docs/fix/refactor，patch 增量直发正式");
}

#[test]
fn fallback_heuristic_mixed_and_case() {
    let d = fallback_heuristic(&h(&["chore: x", "FEAT: shout", "fix: y"]));
    assert_eq!(d.increment.as_deref(), Some("minor"));
    let d = fallback_heuristic(&h(&["fix: y", "BREAKING: drop api"]));
    assert_eq!(d.action, "human");
    let d = fallback_heuristic(&[]);
    assert_eq!(d.action, "skip");
}

#[test]
fn build_version_from_decision_messages() {
    let e = build_version_from_decision(true, &parts(1, 0, 0), &decision("skip", None, None, "")).err().unwrap();
    assert!(matches!(&e, DetectError::Other(m) if m == "无需发版"));
    let e = build_version_from_decision(true, &parts(1, 0, 0), &decision("human", None, None, "why")).err().unwrap();
    assert_eq!(e.message(), "需要人类判断: why");
    let v = build_version_from_decision(true, &parts(1, 4, 9), &decision("release", None, None, "")).ok().unwrap();
    assert_eq!(v, "v1.4.10");
    let v = build_version_from_decision(true, &parts(1, 4, 9), &decision("release", Some("minor"), Some("rc"), "")).ok().unwrap();
    assert_eq!(v, "v1.5.0-rc.1");
}

#[test]
fn detect_error_messages() {
    assert_eq!(DetectError::Git("x".into()).message(), "git 操作失败: x");
    assert_eq!(DetectError::Llm("y".into()).message(), "LLM 调用失败: y");
    assert_eq!(DetectError::Version("z".into()).message(), "版本号格式错误: z");
    assert_eq!(DetectError::Other("w".into()).message(), "w");
}

#[test]
fn version_prompt_numbers_commits() {
    let p = build_version_prompt(&h(&["feat: a", "fix: b"]), "v1.0.0", "code", "cli");
    assert!(p.starts_with("你是一个版本号推断专家。"));
    assert!(p.contains("项目类型: code\n最新 tag: v1.0.0\nscope: cli\n\n## 提交记录（tag→HEAD）\n1. feat: a\n2. fix: b\n\n## 输出格式（仅 JSON）\n"));
    assert!(p.ends_with("\"reason\": \"判断理由\"}\n"));
}

#[test]
fn project_type_from_markers() {
    assert_eq!(detect_project_type(&[false, true, false]), "code");
    assert_eq!(detect_project_type(&[false, false]), "docs");
    assert_eq!(detect_project_type(&[]), "docs");
}

fn scope(name: &str, dir: &str) -> Scope {
    Scope { name: name.into(), dir: dir.into() }
}

#[test]
fn single_scope_by_hits_and_by_tags() {
    let scopes = vec![scope("cli", "packages/cli"), scope("web", "/apps/web")];
    let r = detect_single_scope(&h(&["apps/web/a.ts", "apps/web/b.ts", "packages/cli/x.rs"]), &scopes, &[]);
    assert_eq!(r.ok().unwrap().as_deref(), Some("web"));
    let r = detect_single_scope(&h(&["readme.md"]), &scopes, &h(&["(root)", "cli"]));
    assert_eq!(r.ok().unwrap().as_deref(), Some("cli"));
    let r = detect_single_scope(&h(&["readme.md"]), &scopes, &h(&["(root)"]));
    assert_eq!(r.ok().unwrap(), None);
    let r = detect_single_scope(&h(&["readme.md"]), &scopes, &h(&["cli", "web"]));
    assert_eq!(r.err().unwrap().message(), "多个 scope 有变更: [\"cli\", \"web\"]，请用 -v 指定");
}

#[test]
fn diff_base_prefers_scoped_tags() {
    let g = vec![("(root)".to_string(), h(&["v2.0.0"])), ("cli".to_string(), h(&["cli/v0.2.0", "cli/v0.1.0"]))];
    assert_eq!(latest_tag_for_diff(&g).as_deref(), Some("cli/v0.2.0"));
    let g = vec![("(root)".to_string(), h(&["v2.0.0"])), ("cli".to_string(), vec![])];
    assert_eq!(latest_tag_for_diff(&g).as_deref(), Some("v2.0.0"));
    assert_eq!(latest_tag_for_diff(&[]), None);
    assert_eq!(diff_range("v2.0.0"), "v2.0.0..HEAD");
    assert_eq!(get_changed_paths_since_last_tag(&g, "a.txt\nb/c.txt\n"), h(&["a.txt", "b/c.txt"]));
    assert!(get_changed_paths_since_last_tag(&[], "a.txt").is_empty());
}

#[test]
fn new_commits_and_git_root() {
    assert!(has_new_commits_since_tag(Some("abc"), Some("def")));
    assert!(!has_new_commits_since_tag(Some("abc"), Some("abc")));
    assert!(!has_new_commits_since_tag(None, Some("abc")));
    assert_eq!(resolve_git_root("/x", Ok("  /repo \n".into())).ok().unwrap(), "/repo");
    assert_eq!(resolve_git_root("/x", Err("no".into())).err().unwrap().message(), "不在 git 仓库中: \"/x\"");
}

// ── detection steps ───────────────────────────────────────────────

#[test]
fn tag_baseline_cases() {
    let (has, p) = tag_baseline(Some("cli/v1.2.3-rc.4"));
    assert!(has);
    assert_eq!((p.major, p.minor, p.patch), (1, 2, 3));
    assert_eq!(p.pre_stage.as_deref(), Some("rc"));
    assert_eq!(p.pre_num, Some(4));
    let (has, p) = tag_baseline(None);
    assert!(!has);
    assert_eq!((p.major, p.minor, p.patch), (0, 1, 0));
    let (has, p) = tag_baseline(Some("garbage"));
    assert!(has);
    assert_eq!((p.major, p.minor, p.patch), (0, 0, 0));
}

#[test]
fn detection_gates() {
    assert!(check_new_commits(true, true).is_ok());
    assert!(check_new_commits(false, false).is_ok());
    assert_eq!(check_new_commits(true, false).unwrap_err().message(), "上次标签后没有新提交");
    assert_eq!(check_commits(&[]).unwrap_err().message(), "没有提交记录");
    assert!(check_commits(&["feat: x".to_string()]).is_ok());
}

#[test]
fn propose_version_under_scope() {
    let parts = VersionParts { major: 0, minor: 3, patch: 1, pre_stage: None, pre_num: None };
    let d = build_decision_from_flags(true, false, true);
    let r = propose_version(true, &parts, &d, Some("cli")).ok().unwrap();
    assert_eq!(r.version, "cli/v0.4.0");
    let skip = build_decision_from_flags(false, false, false);
    assert!(propose_version(true, &parts, &skip, None).is_err());
}

#[test]
fn decision_fits_bounds() {
    let release_minor = decision("release", Some("minor"), None, "r");
    let release_patch = decision("release", Some("patch"), None, "r");
    assert!(decision_fits(true, &parts(1, 2, 3), &release_minor));
    assert!(!decision_fits(true, &parts(1, u32::MAX, 3), &release_minor));
    assert!(decision_fits(true, &parts(1, u32::MAX, 3), &release_patch));
    assert!(!decision_fits(true, &parts(1, 2, u32::MAX), &release_patch));
    assert!(decision_fits(false, &parts(1, 2, u32::MAX), &release_patch));
    assert!(decision_fits(true, &parts(1, 2, u32::MAX), &decision("skip", None, None, "r")));
    let pre = VersionParts { major: 1, minor: 0, patch: 0, pre_stage: Some("rc".into()), pre_num: Some(u32::MAX) };
    assert!(!decision_fits(true, &pre, &release_patch));
}

#[test]
fn detect_test_detect_project_type_docs() {
    assert_eq!(detect_project_type(&[false; 8]), "docs");
}

#[test]
fn detect_test_detect_project_type_no_workdir() {
    assert_eq!(detect_project_type(&[false; 8]), "docs");
}

#[test]
fn scope_util_test_detect_project_type_docs() {
    assert_eq!(detect_project_type(&[false; 8]), "docs");
}

#[test]
fn scope_util_test_detect_project_type_no_workdir() {
    assert_eq!(detect_project_type(&[false; 8]), "docs");
}

#[test]
fn commit_messages_are_cut_lines_without_empty_ones() {
    let log = "abc1234 feat: add x\n\nshort\nabc1235    \ndef5678 fix: y";
    assert_eq!(
        parse_commit_messages(log),
        vec!["feat: add x".to_string(), "short".to_string(), "fix: y".to_string()]
    );
}
