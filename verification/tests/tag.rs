use qtcloud_devops_cli::tag::{
    apply_scope_prefix, build_version, parse_tag, parse_version, tag_push_refspec, VersionParts,
};

fn parts(major: u32, minor: u32, patch: u32, stage: Option<&str>, num: Option<u32>) -> VersionParts {
    VersionParts { major, minor, patch, pre_stage: stage.map(|s| s.to_string()), pre_num: num }
}

// ── parse_tag ─────────────────────────────────────────────────

#[test]
fn test_parse_tag_scoped() {
    assert_eq!(parse_tag("cli/v0.8.4"), (Some("cli".into()), "v0.8.4"));
}

#[test]
fn test_parse_tag_root() {
    assert_eq!(parse_tag("v0.1.0"), (None, "v0.1.0"));
}

#[test]
fn test_parse_tag_empty() {
    assert_eq!(parse_tag(""), (None, ""));
}

#[test]
fn test_parse_tag_multiple_slashes() {
    assert_eq!(parse_tag("scope/v0.1.0-rc.1"), (Some("scope".into()), "v0.1.0-rc.1"));
}

#[test]
fn parse_tag_splits_at_first_slash() {
    assert_eq!(parse_tag("a/b/c"), (Some("a".into()), "b/c"));
}

// ── parse_version ─────────────────────────────────────────────

#[test]
fn test_parse_version_formal() {
    let (ma, mi, pa, st, nu) = parse_version("0.8.4").unwrap();
    assert_eq!((ma, mi, pa), (0, 8, 4));
    assert!(st.is_none());
    assert!(nu.is_none());
}

#[test]
fn test_parse_version_prerelease() {
    let (ma, mi, pa, st, nu) = parse_version("0.9.0-rc.1").unwrap();
    assert_eq!((ma, mi, pa), (0, 9, 0));
    assert_eq!(st.as_deref(), Some("rc"));
    assert_eq!(nu, Some(1));
}

#[test]
fn test_parse_version_with_v_prefix() {
    let (ma, mi, pa, _, _) = parse_version("v0.8.4").unwrap();
    assert_eq!((ma, mi, pa), (0, 8, 4));
}

#[test]
fn test_parse_version_bad_format() {
    assert!(parse_version("abc").is_err());
    assert!(parse_version("0.1").is_err());
}

#[test]
fn test_parse_version_alpha() {
    let (ma, mi, pa, st, nu) = parse_version("1.0.0-alpha.1").unwrap();
    assert_eq!((ma, mi, pa), (1, 0, 0));
    assert_eq!(st.as_deref(), Some("alpha"));
    assert_eq!(nu, Some(1));
}

#[test]
fn test_parse_version_beta() {
    let (ma, mi, pa, st, nu) = parse_version("0.5.0-beta.2").unwrap();
    assert_eq!((ma, mi, pa), (0, 5, 0));
    assert_eq!(st.as_deref(), Some("beta"));
    assert_eq!(nu, Some(2));
}

#[test]
fn test_parse_version_prerelease_no_number() {
    let (ma, mi, pa, st, nu) = parse_version("1.2.3-rc").unwrap();
    assert_eq!((ma, mi, pa), (1, 2, 3));
    assert_eq!(st.as_deref(), Some("rc"));
    assert_eq!(nu, None);
}

#[test]
fn test_parse_version_non_numeric_parts() {
    assert!(parse_version("a.b.c").is_err());
    assert!(parse_version("1.x.3").is_err());
}

#[test]
fn parse_version_error_messages() {
    assert_eq!(parse_version("v0.1").unwrap_err(), "版本号格式错误: 0.1，需要 X.Y.Z");
    assert_eq!(parse_version("a.1.2").unwrap_err(), "major 不是数字");
    assert_eq!(parse_version("1.b.2").unwrap_err(), "minor 不是数字");
    assert_eq!(parse_version("1.2.c").unwrap_err(), "patch 不是数字");
    assert_eq!(parse_version("1.2.4294967296").unwrap_err(), "patch 不是数字");
}

#[test]
fn parse_version_plus_sign_and_bad_prerelease_number() {
    assert_eq!(parse_version("+1.2.3").unwrap().0, 1);
    let (_, _, _, st, nu) = parse_version("1.2.3-rc.x").unwrap();
    assert_eq!(st.as_deref(), Some("rc"));
    assert_eq!(nu, None);
}

// ── build_version ────────────────────────────────────────────

#[test]
fn test_build_version_patch() {
    assert_eq!(build_version(&parts(0, 8, 4, None, None), "patch", None), "v0.8.5");
}

#[test]
fn test_build_version_minor_rc() {
    assert_eq!(build_version(&parts(0, 8, 4, None, None), "minor", Some("rc")), "v0.9.0-rc.1");
}

#[test]
fn test_build_version_prerelease_increment() {
    assert_eq!(build_version(&parts(0, 9, 0, Some("rc"), Some(1)), "patch", None), "v0.9.0-rc.2");
}

#[test]
fn test_build_version_minor_formal() {
    assert_eq!(build_version(&parts(0, 8, 4, None, None), "minor", None), "v0.9.0");
}

#[test]
fn test_build_version_minor_with_alpha() {
    assert_eq!(build_version(&parts(0, 1, 0, None, None), "minor", Some("alpha")), "v0.2.0-alpha.1");
}

#[test]
fn test_build_version_no_prerelease_info() {
    assert_eq!(build_version(&parts(1, 0, 0, None, None), "patch", None), "v1.0.1");
}

#[test]
fn test_build_version_patch_with_same_stage() {
    assert_eq!(build_version(&parts(1, 0, 0, Some("beta"), Some(3)), "patch", None), "v1.0.0-beta.4");
}

#[test]
fn build_version_stage_without_number_starts_at_one() {
    assert_eq!(build_version(&parts(2, 3, 4, Some("rc"), None), "minor", Some("beta")), "v2.3.4-rc.1");
}

#[test]
fn build_then_parse_reads_back_bumped_version() {
    let v = build_version(&parts(3, 9, 9, None, None), "minor", Some("rc"));
    let (ma, mi, pa, st, nu) = parse_version(&v).unwrap();
    assert_eq!((ma, mi, pa, st.as_deref(), nu), (3, 10, 0, Some("rc"), Some(1)));
    let v = build_version(&parts(10, 20, 30, None, None), "patch", None);
    assert_eq!(parse_version(&v).unwrap(), (10, 20, 31, None, None));
}

// ── apply_scope_prefix ────────────────────────────────────────

#[test]
fn test_apply_scope_prefix_with_scope() {
    assert_eq!(apply_scope_prefix(Some("cli"), "v0.1.0"), "cli/v0.1.0");
}

#[test]
fn test_apply_scope_prefix_root() {
    assert_eq!(apply_scope_prefix(Some("(root)"), "v0.1.0"), "v0.1.0");
}

#[test]
fn test_apply_scope_prefix_none() {
    assert_eq!(apply_scope_prefix(None, "v0.1.0"), "v0.1.0");
}

#[test]
fn test_apply_scope_prefix_empty() {
    assert_eq!(apply_scope_prefix(Some(""), "v0.1.0"), "v0.1.0");
}

#[test]
fn scope_prefix_roundtrips_through_parse_tag() {
    let t = apply_scope_prefix(Some("sdk"), "v1.2.3-rc.4");
    assert_eq!(parse_tag(&t), (Some("sdk".into()), "v1.2.3-rc.4"));
}

// ── tag_push_refspec ──────────────────────────────────────────

#[test]
fn tag_test_tag_push_refspec_scoped() {
    assert_eq!(tag_push_refspec("cli/v1.0.0"), "refs/tags/cli/v1.0.0");
}

#[test]
fn tag_test_tag_push_refspec_simple() {
    assert_eq!(tag_push_refspec("v1.0.0"), "refs/tags/v1.0.0");
}

#[test]
fn tag_test_tag_push_refspec_root_tag() {
    assert_eq!(tag_push_refspec("v0.1.0"), "refs/tags/v0.1.0");
}

#[test]
fn util_test_tag_push_refspec_scoped() {
    assert_eq!(tag_push_refspec("cli/v0.9.3"), "refs/tags/cli/v0.9.3");
}

#[test]
fn util_test_tag_push_refspec_simple() {
    assert_eq!(tag_push_refspec("v0.9.3"), "refs/tags/v0.9.3");
}

#[test]
fn util_test_tag_push_refspec_root_tag() {
    assert_eq!(tag_push_refspec("v0.1.0"), "refs/tags/v0.1.0");
}
