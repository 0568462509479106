use qtcloud_devops_cli::roadmap::{
    apply_rules_to_line, category_list, doctor_file, is_version_line, rule_category_case, rule_checkbox_format,
    rule_nonstandard_category, rule_nonstandard_header, rule_v_prefix,
};

#[test]
fn smoke() {
    // the `source` status command delegates to the diagnostics of the application
}

#[test]
fn version_line_forms() {
    assert_eq!(is_version_line("## [0.1.0]").as_deref(), Some("0.1.0"));
    assert_eq!(is_version_line("  ## [v1.2.3] — 已发布 ").as_deref(), Some("1.2.3"));
    assert_eq!(is_version_line("## [ vv2.0 ]").as_deref(), Some("2.0"));
    assert_eq!(is_version_line("## 3. 发布流程").as_deref(), Some("3. 发布流程"));
    assert_eq!(is_version_line("## []"), None);
    assert_eq!(is_version_line("## Unreleased"), None);
    assert_eq!(is_version_line("## x. title"), None);
    assert_eq!(is_version_line("### [1.0.0]"), None);
}

#[test]
fn categories_are_standard() {
    assert_eq!(category_list()[0], "### Added");
    assert_eq!(category_list().len(), 6);
}

#[test]
fn nonstandard_header_reported() {
    let (line, issue) = rule_nonstandard_header("## Unreleased", "## Unreleased", 3, "cli").unwrap();
    assert_eq!(line, "## Unreleased");
    let issue = issue.unwrap();
    assert_eq!((issue.line, issue.scope.as_str()), (3, "cli"));
    assert_eq!(issue.message, "非标准版本头（应为 ## [X.Y.Z]）: ## Unreleased");
    assert!(rule_nonstandard_header("## [1.0.0]", "## [1.0.0]", 1, "").is_none());
    assert!(rule_nonstandard_header("text", "text", 1, "").is_none());
}

#[test]
fn nonstandard_category_reported() {
    let (_, issue) = rule_nonstandard_category("### Misc", "### Misc", 5, "s").unwrap();
    assert_eq!(issue.unwrap().message, "非标准分类标题: ### Misc");
    assert!(rule_nonstandard_category("### added", "### added", 5, "s").is_none());
    assert!(rule_nonstandard_category("### Added", "### Added", 5, "s").is_none());
}

#[test]
fn v_prefix_fixed() {
    let (line, issue) = rule_v_prefix("## [v1.0.0] - 2024", "## [v1.0.0] - 2024", 2, "s").unwrap();
    assert_eq!(line, "## [1.0.0] - 2024");
    assert_eq!(issue.unwrap().message, "修复 v 前缀: v1.0.0 → 1.0.0");
    let (line, issue) = rule_v_prefix("## [1.0.0]", "  ## [1.0.0]", 2, "s").unwrap();
    assert_eq!(line, "  ## [1.0.0]");
    assert!(issue.is_none());
    assert!(rule_v_prefix("- item", "- item", 2, "s").is_none());
}

#[test]
fn category_case_fixed() {
    let (line, issue) = rule_category_case("### added", "  ### added", 4, "s").unwrap();
    assert_eq!(line, "  ### Added");
    assert_eq!(issue.unwrap().message, "修复大小写: ### added → ### Added");
    let (line, issue) = rule_category_case("### Fixed", "### Fixed", 4, "s").unwrap();
    assert_eq!(line, "### Fixed");
    assert!(issue.is_none());
    assert!(rule_category_case("- x", "- x", 4, "s").is_none());
}

#[test]
fn checkbox_fixed() {
    let (line, issue) = rule_checkbox_format("* [X]   done item", "* [X]   done item", 7, "s").unwrap();
    assert_eq!(line, "- [x] done item");
    assert_eq!(issue.unwrap().message, "修复 checkbox 格式: * [X]   done item → - [x] done item");
    let (line, _) = rule_checkbox_format("-[ ]todo", "-[ ]todo", 7, "s").unwrap();
    assert_eq!(line, "- [ ] todo");
    assert!(rule_checkbox_format("- [x] ok", "- [x] ok", 7, "s").is_none());
    assert!(rule_checkbox_format("plain", "plain", 7, "s").is_none());
}

#[test]
fn rules_apply_in_order() {
    let (line, issue) = apply_rules_to_line("## [v0.2.0]", "## [v0.2.0]", 1, "s");
    assert_eq!(line, "## [0.2.0]");
    assert!(issue.is_some());
    let (line, issue) = apply_rules_to_line("### Other", "### Other", 1, "s");
    assert_eq!(line, "### Other");
    assert_eq!(issue.unwrap().message, "非标准分类标题: ### Other");
    let (line, issue) = apply_rules_to_line("plain text", "plain text", 1, "s");
    assert_eq!(line, "plain text");
    assert!(issue.is_none());
}

#[test]
fn doctor_file_fixes_and_numbers_lines() {
    let content = "# Roadmap\n\n## [v1.0.0] - 2024\n\n### added\n- [x] done\n";
    let (fixed, issues) = doctor_file(content, "(root)");
    assert!(fixed.ends_with('\n'));
    assert!(fixed.contains("## [1.0.0] - 2024"));
    assert!(!issues.is_empty());
    assert_eq!(issues[0].line, 3);
    assert_eq!(issues[0].scope, "(root)");
    let (again, no_issues) = doctor_file("# Roadmap\n## [1.0.0]", "s");
    assert_eq!(again, "# Roadmap\n## [1.0.0]");
    assert!(no_issues.is_empty());
    assert_eq!(doctor_file("", "s").0, "");
}

#[test]
fn fixed_checkbox_is_left_alone_next_time() {
    let (once, issues) = doctor_file("* [X]   done item\n[ ] open item\n", "s");
    assert_eq!(once, "- [x] done item\n- [ ] open item\n");
    assert_eq!(issues.len(), 2);
    let (twice, again) = doctor_file(&once, "s");
    assert_eq!(twice, once);
    assert!(again.is_empty());
}

#[test]
fn fixed_lines_raise_nothing_next_time() {
    let text = "## [v1.2.0] - 2024-01-01\n### added\n  ### FIXED\n* [x] done\n";
    let (once, issues) = doctor_file(text, "s");
    assert_eq!(once, "## [1.2.0] - 2024-01-01\n### Added\n  ### Fixed\n- [x] done\n");
    assert_eq!(issues.len(), 4);
    let (twice, again) = doctor_file(&once, "s");
    assert_eq!(twice, once);
    assert!(again.is_empty());
}

#[test]
fn heading_that_does_not_settle_is_fixed_again() {
    // The bracket text read again still starts with `v` once every leading
    // `## [` is stripped: the v-prefix rule fires a second time.
    let (line, issue) = apply_rules_to_line("## [v## [v1]", "## [v## [v1]", 1, "s");
    assert_eq!(line, "## [## [v1]");
    assert!(issue.is_some());
    let (again, issue2) = apply_rules_to_line(&line, &line, 1, "s");
    assert!(issue2.is_some());
    assert_eq!(again, line);
}
