use qtcloud_devops_cli::plan::{
    build_plan, compute_config_updates, inconsistent_configs, plan_text, update_version_in_content,
    validate_plan, ConfigUpdate,
};

#[test]
fn test_update_version_in_content_toml() {
    let content = "name = \"foo\"\nversion = \"0.1.0\"\n";
    assert_eq!(update_version_in_content(content, "0.2.0"), "name = \"foo\"\nversion = \"0.2.0\"\n");
}

#[test]
fn test_update_version_in_content_json() {
    let content = "{\n  \"version\": \"1.0.0\",\n}\n";
    let result = update_version_in_content(content, "2.0.0");
    assert!(result.contains("\"version\": \"2.0.0\""));
}

#[test]
fn update_version_keeps_indent_and_adds_final_newline() {
    assert_eq!(
        update_version_in_content("[package]\n  version = \"0.1.0\"", "0.3.0"),
        "[package]\n  version = \"0.3.0\"\n"
    );
    assert_eq!(update_version_in_content("", "1.0.0"), "");
}

#[test]
fn compute_config_updates_no_change() {
    let files = vec![("Cargo.toml".to_string(), Some("[package]\nversion = \"0.1.0\"\n".to_string()))];
    assert!(compute_config_updates("/d", &files, "0.1.0").is_empty());
}

#[test]
fn compute_config_updates_changes() {
    let files = vec![
        ("Cargo.toml".to_string(), Some("[package]\nversion = \"0.1.0\"\n".to_string())),
        ("pyproject.toml".to_string(), None),
    ];
    let updates = compute_config_updates("/d", &files, "0.2.0");
    assert_eq!(updates.len(), 1);
    assert_eq!(updates[0].path, "/d/Cargo.toml");
    assert_eq!(updates[0].new_content, "[package]\nversion = \"0.2.0\"\n");
}

#[test]
fn build_and_validate_plan() {
    let updates = vec![ConfigUpdate { path: "/d/Cargo.toml".into(), new_content: String::new() }];
    let plan = build_plan("rust/v0.4.0", "/r", "/d", false, updates, None, true);
    assert_eq!(plan.ver, "0.4.0");
    assert!(plan.lockfile_needs_update);
    let versions = vec![
        ("Cargo.toml".to_string(), Some("0.3.0".to_string())),
        ("pyproject.toml".to_string(), Some("0.4.0".to_string())),
    ];
    assert!(inconsistent_configs(&plan, &versions).is_empty());
    assert_eq!(validate_plan(&plan, &versions, Some("## [0.4.0]\n")), Ok(()));
    assert_eq!(
        validate_plan(&plan, &versions, None),
        Err("CHANGELOG.md 不存在: /d/CHANGELOG.md".to_string())
    );
    let bad = vec![("package.json".to_string(), Some("0.1.0".to_string()))];
    assert_eq!(inconsistent_configs(&plan, &bad), bad);
    assert_eq!(
        validate_plan(&plan, &bad, Some("## [0.4.0]\n")),
        Err("存在版本号不一致的配置文件，请先同步".to_string())
    );
}

#[test]
fn plan_with_changelog_content_skips_changelog_check() {
    let plan = build_plan("v1.0.0", "/r", "/r", true, vec![], Some("entry".into()), true);
    assert!(!plan.lockfile_needs_update);
    assert_eq!(validate_plan(&plan, &[], None), Ok(()));
}

#[test]
fn plan_text_short_entry() {
    let updates = vec![ConfigUpdate { path: "/d/Cargo.toml".into(), new_content: String::new() }];
    let plan = build_plan("v1.0.0", "/d", "/d", false, updates, Some("### Added\n- x".into()), true);
    let rule = "─".repeat(40);
    let expected = format!(
        "\n📋 发布计划\n{rule}\n  版本:         v1.0.0\n  目录:         /d\n\n  配置文件更新:\n    • Cargo.toml → 版本 1.0.0\n\n  CHANGELOG 更新:\n    ### Added\n    - x\n\n  Cargo.lock:   需要同步\n\n  将执行:\n    • ✓ 写配置文件\n    • ✓ 生成 CHANGELOG\n    • ✓ 同步 Cargo.lock\n    • ✓ Git 提交\n    • ✓ 创建并推送 tag\n    • ✓ 创建 GitHub Release\n{rule}\n"
    );
    assert_eq!(plan_text(&plan), expected);
}

#[test]
fn plan_text_long_entry_and_force() {
    let plan = build_plan("v1.0.0", "/d", "/d", true, vec![], Some("a\nb\nc\nd\ne\nf\ng".into()), false);
    let text = plan_text(&plan);
    assert!(text.contains("  模式:         强制重新发布（删除旧 tag + Release）\n"));
    assert!(text.contains("\n  CHANGELOG 更新:\n    a\n        b\n        c\n        ... (7 行)\n"));
    assert!(text.contains("    • ☐ 写配置文件\n"));
    let none = build_plan("v1.0.0", "/d", "/d", false, vec![], None, false);
    assert!(plan_text(&none).contains("\n  CHANGELOG:     版本已存在，无需更新\n"));
}

#[test]
fn update_version_twice_is_once() {
    let content = "[package]\nname = \"foo\"\n  version = \"0.1.0\"\r\n{\n  \"version\": \"0.1.0\",\n}";
    let once = update_version_in_content(content, "0.2.0");
    assert_eq!(update_version_in_content(&once, "0.2.0"), once);
    assert_eq!(once, "[package]\nname = \"foo\"\n  version = \"0.2.0\"\n{\n  \"version\": \"0.2.0\",\n}\n");
}
