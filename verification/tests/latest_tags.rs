use qtcloud_devops_cli::latest_tags::get_latest_tags_by_scope;

fn tags(v: &[&str]) -> Vec<String> {
    v.iter().map(|s| s.to_string()).collect()
}

#[test]
fn semver_v10_greater_than_v9() {
    let r = get_latest_tags_by_scope(&tags(&["v9.0.0", "v10.0.0"]));
    assert_eq!(r, vec![("(root)".to_string(), "v10.0.0".to_string())]);
}

#[test]
fn latest_per_scope_in_first_seen_order() {
    let r = get_latest_tags_by_scope(&tags(&[
        "cli/v0.2.0",
        "v1.0.0",
        "cli/v0.10.0",
        "core/v1.0.0-rc.1",
        "core/v1.0.0",
        "cli/v0.9.9",
    ]));
    assert_eq!(
        r,
        vec![
            ("cli".to_string(), "cli/v0.10.0".to_string()),
            ("(root)".to_string(), "v1.0.0".to_string()),
            ("core".to_string(), "core/v1.0.0".to_string()),
        ]
    );
}

#[test]
fn equal_versions_keep_the_later_tag() {
    let r = get_latest_tags_by_scope(&tags(&["cli/v1.0.0", "cli/1.0.0"]));
    assert_eq!(r, vec![("cli".to_string(), "cli/1.0.0".to_string())]);
}

#[test]
fn unparsable_versions_count_as_zero() {
    let r = get_latest_tags_by_scope(&tags(&["cli/v0.0.1", "cli/latest"]));
    assert_eq!(r, vec![("cli".to_string(), "cli/v0.0.1".to_string())]);
    assert!(get_latest_tags_by_scope(&[]).is_empty());
}

fn latest_for(tags: &[&str], scope: Option<&str>) -> Option<String> {
    let all: Vec<String> = tags.iter().map(|t| t.to_string()).collect();
    let key = scope.unwrap_or("(root)");
    get_latest_tags_by_scope(&all).into_iter().find(|(s, _)| s == key).map(|(_, t)| t)
}

#[test]
fn test_get_latest_tag_root_scope() {
    let tags = ["v1.0.0", "v2.0.0"];
    assert_eq!(latest_for(&tags, None).as_deref(), Some("v2.0.0"));
    assert_eq!(latest_for(&tags, Some("(root)")).as_deref(), Some("v2.0.0"));
}

#[test]
fn test_get_latest_tag_scoped() {
    let tags = ["cli/v0.1.0", "cli/v0.2.0", "sdk/v0.5.0"];
    assert_eq!(latest_for(&tags, Some("cli")).as_deref(), Some("cli/v0.2.0"));
    assert_eq!(latest_for(&tags, Some("sdk")).as_deref(), Some("sdk/v0.5.0"));
    assert_eq!(latest_for(&tags, Some("nosuch")).as_deref(), None);
}
