use qtcloud_devops_cli::testing::test_audit_dirs;
use qtcloud_devops_cli::testing::language_by_manifest;
use qtcloud_devops_cli::testing::try_parse_test_summary;
use qtcloud_devops_cli::testing::{
    cache_path, collect_error_variants, collect_pub_fns, collect_test_fns, coverage_command,
    extract_variant_name, is_declaration_only, is_error_enum_declaration, parse_test_summary,
    rust_coverage_args, test_command, test_manifest_file, Language, TestSummary, after_coverage_failure,
    external_test_path, is_test_source, missing_test_file, parallel_jobs, scopes_for_cwd,
};
use qtcloud_devops_cli::scope::Scope;

#[test]
fn test_test_parse_test_summary_ok() {
    let s = parse_test_summary(
        "test result: ok. 10 passed; 0 failed; 2 ignored; 0 measured; 12 filtered out",
    );
    assert_eq!(s.passed, 10);
    assert_eq!(s.failed, 0);
    assert_eq!(s.skipped, 2);
    assert_eq!(s.total, 12);
}

#[test]
fn test_test_parse_test_summary_failed() {
    let s = parse_test_summary("test result: FAILED. 8 passed; 3 failed; 1 ignored; 0 measured");
    assert_eq!(s.passed, 8);
    assert_eq!(s.failed, 3);
    assert_eq!(s.skipped, 1);
}

#[test]
fn test_test_parse_test_summary_large_output() {
    let mut content = String::new();
    for i in 0..500 {
        content.push_str(&format!("test test_{i} ... ok\ntest test_{i}_a ... FAILED\n"));
    }
    content.push_str("test result: FAILED. 500 passed; 500 failed; 0 ignored; 0 measured\n");
    let s = parse_test_summary(&content);
    assert_eq!(s.passed, 500);
    assert_eq!(s.failed, 500);
    assert_eq!(s.total, 1000);
}

#[test]
fn test_test_parse_test_summary_very_large_stdout() {
    let mut lines: Vec<String> = (0..2000).map(|i| format!("  Compiling crate-{} v0.1.0", i)).collect();
    lines.push("test result: ok. 1 passed; 0 failed; 0 ignored; 0 measured".into());
    for i in 2000..4000 {
        lines.push(format!("warning: unused variable `x` in crate-{}", i));
    }
    let content = lines.join("\n");
    let start = std::time::Instant::now();
    let s = parse_test_summary(&content);
    let elapsed = start.elapsed();
    assert_eq!(s.passed, 1);
    assert!(elapsed.as_millis() < 500, "4000 行日志应在 500ms 内解析完成: {}ms", elapsed.as_millis());
}

#[test]
fn test_test_command_all_languages() {
    assert_eq!(test_command(&Language::Rust), Some(("cargo", vec!["test"])));
    assert_eq!(test_command(&Language::Python), Some(("python", vec!["-m", "pytest"])));
    assert_eq!(test_command(&Language::Go), Some(("go", vec!["test", "./..."])));
    assert_eq!(test_command(&Language::Dart), Some(("flutter", vec!["test"])));
    assert_eq!(test_command(&Language::TypeScript), Some(("npm", vec!["test"])));
    assert_eq!(test_command(&Language::Unknown("?".into())), None);
}

#[test]
fn test_test_coverage_command_all_languages() {
    assert_eq!(coverage_command(&Language::Rust).map(|(c, _)| c), Some("cargo"));
    assert_eq!(coverage_command(&Language::Python).map(|(c, _)| c), Some("coverage"));
    assert_eq!(coverage_command(&Language::Go).map(|(c, _)| c), Some("go"));
    assert_eq!(coverage_command(&Language::Dart).map(|(c, _)| c), Some("flutter"));
    assert_eq!(coverage_command(&Language::TypeScript).map(|(c, _)| c), Some("npx"));
    assert!(coverage_command(&Language::Unknown("auto".into())).is_none());
}

#[test]
fn test_test_manifest_file_all_languages() {
    assert_eq!(test_manifest_file(&Language::Rust), Some("Cargo.toml"));
    assert_eq!(test_manifest_file(&Language::Python), Some("pyproject.toml"));
    assert_eq!(test_manifest_file(&Language::Go), Some("go.mod"));
    assert_eq!(test_manifest_file(&Language::Dart), Some("pubspec.yaml"));
    assert_eq!(test_manifest_file(&Language::TypeScript), Some("package.json"));
    assert_eq!(test_manifest_file(&Language::Unknown("?".into())), None);
}

#[test]
fn test_test_cache_path_absolute() {
    let p = cache_path("/tmp/myproject");
    assert_eq!(p, "/tmp/myproject/.quanttide/devops/test-summary.json");
}

#[test]
fn test_test_parse_test_summary_empty() {
    let s = parse_test_summary("");
    assert_eq!(s.total, 0);
}

#[test]
fn test_test_parse_test_summary_no_result_line() {
    let s = parse_test_summary("Compiling foo ...\n   Compiling bar ...\n");
    assert_eq!(s.total, 0);
}

#[test]
fn test_test_parse_test_summary_malformed_skips_bad_tokens() {
    let s = parse_test_summary("test result: ok. abc passed; 0 failed");
    assert_eq!(s.passed, 0);
    assert_eq!(s.failed, 0);
}

#[test]
fn test_test_parse_test_summary_multiple_result_lines() {
    let content = "test result: ok. 5 passed; 0 failed; 1 ignored\n\
                   test result: ok. 3 passed; 1 failed; 0 ignored\n";
    let s = parse_test_summary(content);
    assert_eq!(s.passed, 8);
    assert_eq!(s.failed, 1);
    assert_eq!(s.skipped, 1);
    assert_eq!(s.total, 10);
}

#[test]
fn test_test_parse_test_summary_filtered_out() {
    let s = parse_test_summary("test result: ok. 5 passed; 0 failed; 0 ignored; 50 filtered out");
    assert_eq!(s.total, 5);
    assert_eq!(s.passed, 5);
}

#[test]
fn test_test_parse_test_summary_with_measured() {
    let s = parse_test_summary("test result: ok. 3 passed; 1 failed; 0 ignored; 2 measured");
    assert_eq!(s.total, 4);
    assert_eq!(s.passed, 3);
    assert_eq!(s.failed, 1);
}

#[test]
fn test_test_parse_test_summary_zero_all() {
    let s = parse_test_summary("test result: ok. 0 passed; 0 failed; 0 ignored; 0 measured");
    assert_eq!(s.total, 0);
}

#[test]
fn tests_test_parse_test_summary_ok() {
    let s = parse_test_summary(
        "test result: ok. 10 passed; 0 failed; 2 ignored; 0 measured; 12 filtered out",
    );
    assert_eq!(s.passed, 10);
    assert_eq!(s.failed, 0);
    assert_eq!(s.skipped, 2);
    assert_eq!(s.total, 12);
}

#[test]
fn tests_test_parse_test_summary_failed() {
    let s = parse_test_summary("test result: FAILED. 8 passed; 3 failed; 1 ignored; 0 measured");
    assert_eq!(s.passed, 8);
    assert_eq!(s.failed, 3);
    assert_eq!(s.skipped, 1);
}

#[test]
fn tests_test_parse_test_summary_large_output() {
    let mut content = String::new();
    for i in 0..500 {
        content.push_str(&format!("test test_{i} ... ok\ntest test_{i}_a ... FAILED\n"));
    }
    content.push_str("test result: FAILED. 500 passed; 500 failed; 0 ignored; 0 measured\n");
    let s = parse_test_summary(&content);
    assert_eq!(s.passed, 500);
    assert_eq!(s.failed, 500);
    assert_eq!(s.total, 1000);
}

#[test]
fn tests_test_parse_test_summary_very_large_stdout() {
    let mut lines: Vec<String> = (0..2000).map(|i| format!("  Compiling crate-{} v0.1.0", i)).collect();
    lines.push("test result: ok. 1 passed; 0 failed; 0 ignored; 0 measured".into());
    for i in 2000..4000 {
        lines.push(format!("warning: unused variable `x` in crate-{}", i));
    }
    let content = lines.join("\n");
    let start = std::time::Instant::now();
    let s = parse_test_summary(&content);
    let elapsed = start.elapsed();
    assert_eq!(s.passed, 1);
    assert!(elapsed.as_millis() < 500, "4000 行日志应在 500ms 内解析完成: {}ms", elapsed.as_millis());
}

#[test]
fn tests_test_command_all_languages() {
    assert_eq!(test_command(&Language::Rust), Some(("cargo", vec!["test"])));
    assert_eq!(test_command(&Language::Python), Some(("python", vec!["-m", "pytest"])));
    assert_eq!(test_command(&Language::Go), Some(("go", vec!["test", "./..."])));
    assert_eq!(test_command(&Language::Dart), Some(("flutter", vec!["test"])));
    assert_eq!(test_command(&Language::TypeScript), Some(("npm", vec!["test"])));
    assert_eq!(test_command(&Language::Unknown("?".into())), None);
}

#[test]
fn tests_test_coverage_command_all_languages() {
    assert_eq!(coverage_command(&Language::Rust).map(|(c, _)| c), Some("cargo"));
    assert_eq!(coverage_command(&Language::Python).map(|(c, _)| c), Some("coverage"));
    assert_eq!(coverage_command(&Language::Go).map(|(c, _)| c), Some("go"));
    assert_eq!(coverage_command(&Language::Dart).map(|(c, _)| c), Some("flutter"));
    assert_eq!(coverage_command(&Language::TypeScript).map(|(c, _)| c), Some("npx"));
    assert!(coverage_command(&Language::Unknown("auto".into())).is_none());
}

#[test]
fn tests_test_manifest_file_all_languages() {
    assert_eq!(test_manifest_file(&Language::Rust), Some("Cargo.toml"));
    assert_eq!(test_manifest_file(&Language::Python), Some("pyproject.toml"));
    assert_eq!(test_manifest_file(&Language::Go), Some("go.mod"));
    assert_eq!(test_manifest_file(&Language::Dart), Some("pubspec.yaml"));
    assert_eq!(test_manifest_file(&Language::TypeScript), Some("package.json"));
    assert_eq!(test_manifest_file(&Language::Unknown("?".into())), None);
}

#[test]
fn tests_test_cache_path_absolute() {
    let p = cache_path("/tmp/myproject");
    assert_eq!(p, "/tmp/myproject/.quanttide/devops/test-summary.json");
}

#[test]
fn tests_test_parse_test_summary_empty() {
    let s = parse_test_summary("");
    assert_eq!(s.total, 0);
}

#[test]
fn tests_test_parse_test_summary_no_result_line() {
    let s = parse_test_summary("Compiling foo ...\n   Compiling bar ...\n");
    assert_eq!(s.total, 0);
}

#[test]
fn tests_test_parse_test_summary_malformed_skips_bad_tokens() {
    let s = parse_test_summary("test result: ok. abc passed; 0 failed");
    assert_eq!(s.passed, 0);
    assert_eq!(s.failed, 0);
}

#[test]
fn tests_test_parse_test_summary_multiple_result_lines() {
    let content = "test result: ok. 5 passed; 0 failed; 1 ignored\n\
                   test result: ok. 3 passed; 1 failed; 0 ignored\n";
    let s = parse_test_summary(content);
    assert_eq!(s.passed, 8);
    assert_eq!(s.failed, 1);
    assert_eq!(s.skipped, 1);
    assert_eq!(s.total, 10);
}

#[test]
fn tests_test_parse_test_summary_filtered_out() {
    let s = parse_test_summary("test result: ok. 5 passed; 0 failed; 0 ignored; 50 filtered out");
    assert_eq!(s.total, 5);
    assert_eq!(s.passed, 5);
}

#[test]
fn tests_test_parse_test_summary_with_measured() {
    let s = parse_test_summary("test result: ok. 3 passed; 1 failed; 0 ignored; 2 measured");
    assert_eq!(s.total, 4);
    assert_eq!(s.passed, 3);
    assert_eq!(s.failed, 1);
}

#[test]
fn tests_test_parse_test_summary_zero_all() {
    let s = parse_test_summary("test result: ok. 0 passed; 0 failed; 0 ignored; 0 measured");
    assert_eq!(s.total, 0);
}

// ── is_error_enum_declaration ──────────────────────────────────

#[test]
fn test_is_error_enum_declaration_matches() {
    assert_eq!(is_error_enum_declaration("pub enum MyError {"), Some("MyError".into()));
}

#[test]
fn test_is_error_enum_declaration_matches_lowercase() {
    assert_eq!(is_error_enum_declaration("pub enum parse_error {"), Some("parse_error".into()));
}

#[test]
fn test_is_error_enum_declaration_skips_non_error() {
    assert_eq!(is_error_enum_declaration("pub enum Color {"), None);
}

#[test]
fn test_is_error_enum_declaration_skips_non_pub() {
    assert_eq!(is_error_enum_declaration("enum MyError {"), None);
}

#[test]
fn test_is_error_enum_declaration_skips_struct() {
    assert_eq!(is_error_enum_declaration("pub struct Error {"), None);
}

#[test]
fn test_is_error_enum_declaration_extracts_name_with_generics() {
    assert_eq!(is_error_enum_declaration("pub enum MyError<E> {"), Some("MyError<E>".into()));
}

// ── extract_variant_name ───────────────────────────────────────

#[test]
fn test_extract_variant_name_simple() {
    assert_eq!(extract_variant_name("    IoError,"), Some("IoError".into()));
}

#[test]
fn test_extract_variant_name_with_tuple() {
    assert_eq!(extract_variant_name("    NotFound(String),"), Some("NotFound".into()));
}

#[test]
fn test_extract_variant_name_with_braces() {
    assert_eq!(extract_variant_name("    Detailed { code: u32 },"), Some("Detailed".into()));
}

#[test]
fn test_extract_variant_name_skips_comment() {
    assert_eq!(extract_variant_name("// this is a comment"), None);
}

#[test]
fn test_extract_variant_name_skips_derive() {
    assert_eq!(extract_variant_name("#[derive(Debug)]"), None);
}

#[test]
fn test_extract_variant_name_skips_empty() {
    assert_eq!(extract_variant_name(""), None);
}

#[test]
fn test_extract_variant_name_skips_blank() {
    assert_eq!(extract_variant_name("   "), None);
}

// ── source scans ───────────────────────────────────────────────

#[test]
fn collect_test_fns_finds_tests() {
    let src = "fn a() {}\n#[test]\nfn test_one() {}\n  #[test]\n  fn test_two(x: u8) {}\n#[test]\nasync fn skipped() {}\n#[test]";
    let mut fns = vec!["earlier".to_string()];
    collect_test_fns(src, &mut fns);
    assert_eq!(fns, vec!["earlier".to_string(), "test_one".to_string(), "test_two".to_string()]);
}

#[test]
fn collect_pub_fns_filters_names() {
    let src = "pub fn alpha(x: u8) {}\n    pub fn _hidden() {}\npub fn beta<T>(t: T) {}\nfn private() {}\npub fn  (x) {}";
    let mut fns = Vec::new();
    collect_pub_fns(src, &mut fns, "src/lib.rs");
    assert_eq!(
        fns,
        vec![
            ("alpha".to_string(), "src/lib.rs".to_string()),
            ("beta<T>".to_string(), "src/lib.rs".to_string()),
        ]
    );
}

#[test]
fn collect_error_variants_multi_line() {
    let src = "pub enum AppError {\n    Io(String),\n    #[error(\"x\")]\n    Parse { line: u32 },\n    // note\n    Other,\n}\n\npub enum Color {\n    Red,\n}\n";
    let mut enums = Vec::new();
    collect_error_variants(src, &mut enums);
    assert_eq!(
        enums,
        vec![("AppError".to_string(), vec!["Io".to_string(), "Parse".to_string(), "Other".to_string()])]
    );
}

#[test]
fn collect_error_variants_brace_on_next_line_and_unclosed() {
    let src = "pub enum ParseError\n{\n    Bad,\n    Worse\n";
    let mut enums = Vec::new();
    collect_error_variants(src, &mut enums);
    assert_eq!(enums, vec![("ParseError".to_string(), vec!["Bad".to_string(), "Worse".to_string()])]);
}

#[test]
fn collect_error_variants_empty_enum_is_skipped() {
    let src = "pub enum EmptyError {\n}\npub enum OtherError { A }\n";
    let mut enums = Vec::new();
    collect_error_variants(src, &mut enums);
    assert!(enums.is_empty());
}

#[test]
fn declaration_only_files() {
    assert!(is_declaration_only("// mod list\npub mod a;\nuse b::c;\n#[cfg(test)]\nmod tests;\n"));
    assert!(!is_declaration_only("pub mod a;\npub fn f() {}\n"));
    assert!(!is_declaration_only("  impl X {}\n"));
    assert!(is_declaration_only(""));
}

#[test]
fn rust_coverage_args_with_jobs() {
    assert_eq!(
        rust_coverage_args(3),
        vec!["llvm-cov", "--lcov", "--output-path", "target/coverage/lcov.info", "-j", "3"]
    );
    assert_eq!(rust_coverage_args(0).len(), 4);
}

#[test]
fn test_summary_default_is_zero() {
    let s = TestSummary::default();
    assert_eq!((s.total, s.passed, s.failed, s.skipped), (0, 0, 0, 0));
}

#[test]
fn parallel_jobs_cases() {
    let info = "MemTotal:       16000000 kB\nMemAvailable:    8000000 kB\n";
    assert_eq!(parallel_jobs(Some(info), Some(16)), 5);
    assert_eq!(parallel_jobs(Some(info), Some(2)), 2);
    assert_eq!(parallel_jobs(None, None), 2);
    assert_eq!(parallel_jobs(Some("MemAvailable: 100 kB"), Some(8)), 1);
    assert_eq!(parallel_jobs(Some("MemAvailable: x kB\nMemAvailable: 3145728 kB"), Some(8)), 2);
}

#[test]
fn scopes_for_cwd_cases() {
    let scopes = vec![
        Scope { name: "cli".into(), dir: "packages/cli".into() },
        Scope { name: "web".into(), dir: "packages/web".into() },
    ];
    assert_eq!(scopes_for_cwd("/r", "/r/packages/cli/src", &scopes), vec![0]);
    assert_eq!(scopes_for_cwd("/r", "/r", &scopes), vec![0, 1]);
    assert!(scopes_for_cwd("/r", "/elsewhere", &scopes).is_empty());
}

#[test]
fn coverage_failure_fallback() {
    let ok = TestSummary { total: 3, passed: 3, failed: 0, skipped: 0 };
    assert_eq!(after_coverage_failure("cov".into(), Ok(ok)).unwrap().total, 3);
    let failing = TestSummary { total: 3, passed: 2, failed: 1, skipped: 0 };
    assert_eq!(after_coverage_failure("cov".into(), Ok(failing)).unwrap_err(), "cov");
    assert_eq!(after_coverage_failure("cov".into(), Ok(TestSummary::default())).unwrap_err(), "cov");
    assert_eq!(after_coverage_failure("cov".into(), Err("run".into())).unwrap_err(), "cov");
}

#[test]
fn test_source_and_missing_tests() {
    assert!(is_test_source("src/a.rs", "mod x;\n#[cfg(test)]\nmod tests {}"));
    assert!(is_test_source("/p/tests/a.rs", ""));
    assert!(!is_test_source("src/a.rs", "fn main() {}"));
    assert_eq!(external_test_path("/s", "src/util.rs"), "/s/tests/util.rs");
    assert_eq!(external_test_path("/s", "src/.hidden"), "/s/tests/.hidden.rs");
    assert!(!missing_test_file("src/a_test.rs", None, false));
    assert!(!missing_test_file("build.rs", None, false));
    assert!(!missing_test_file("src/lib.rs", Some("pub mod a;\n"), false));
    assert!(missing_test_file("src/lib.rs", Some("pub fn f() {}\n"), false));
    assert!(!missing_test_file("src/a.rs", Some("#[cfg(test)]\nmod t {}"), false));
    assert!(!missing_test_file("src/a.rs", Some("pub fn f() {}"), true));
    assert!(missing_test_file("src/a.rs", None, false));
}

#[test]
fn try_parse_test_summary_overflow_and_sum() {
    let s = try_parse_test_summary("test result: ok. 3 passed; 1 failed; 2 ignored\nnoise\ntest result: ok. 4 passed; 0 failed; 0 ignored")
        .unwrap();
    assert_eq!((s.passed, s.failed, s.skipped, s.total), (7, 1, 2, 10));
    assert!(try_parse_test_summary("test result: ok. 4294967295 passed; 1 failed; 0 ignored").is_none());
    assert!(try_parse_test_summary("test result: ok. 4294967295 passed\ntest result: ok. 1 passed").is_none());
    assert!(try_parse_test_summary("test result: ok. 4294967294 passed; 1 failed").is_some());
}

#[test]
fn language_by_manifest_order() {
    use_lang(language_by_manifest(true, true, false, false, true), Language::Rust);
    use_lang(language_by_manifest(false, true, true, false, false), Language::Python);
    use_lang(language_by_manifest(false, false, true, true, false), Language::Go);
    use_lang(language_by_manifest(false, false, false, true, true), Language::Dart);
    use_lang(language_by_manifest(false, false, false, false, true), Language::TypeScript);
    use_lang(language_by_manifest(false, false, false, false, false), Language::Unknown(String::new()));
}

fn use_lang(a: Language, b: Language) {
    assert_eq!(a, b);
}

#[test]
fn summary_of_joined_outputs_adds_up() {
    let a = "running 6 tests\ntest result: ok. 5 passed; 0 failed; 1 ignored; 0 measured\r";
    let b = "test result: FAILED. 3 passed; 1 failed; 0 ignored";
    let sa = parse_test_summary(a);
    let sb = parse_test_summary(b);
    let joined = parse_test_summary(&format!("{}\n{}", a, b));
    assert_eq!(joined.passed, sa.passed + sb.passed);
    assert_eq!(joined.failed, sa.failed + sb.failed);
    assert_eq!(joined.skipped, sa.skipped + sb.skipped);
    assert_eq!(joined.total, sa.total + sb.total);
    assert_eq!((joined.passed, joined.failed, joined.skipped, joined.total), (8, 1, 1, 10));
}

#[test]
fn error_scan_keeps_earlier_enums() {
    let mut enums = vec![("OldError".to_string(), vec!["A".to_string()])];
    collect_error_variants("pub struct Plain;\nfn f() {}\n", &mut enums);
    assert_eq!(enums, vec![("OldError".to_string(), vec!["A".to_string()])]);
    collect_error_variants("pub enum NewError {\n    B,\n}\npub enum EmptyError {\n}\n", &mut enums);
    assert_eq!(enums.len(), 2);
    assert_eq!(enums[0].0, "OldError");
    assert_eq!(enums[1], ("NewError".to_string(), vec!["B".to_string()]));
}

#[test]
fn test_audit_dirs_cases() {
    let scopes = vec![
        Scope { name: "cli".into(), dir: "packages/cli".into() },
        Scope { name: "web".into(), dir: "packages/web".into() },
    ];
    let pair = |a: &str, b: &str| (a.to_string(), b.to_string());
    assert_eq!(
        test_audit_dirs("/r", &scopes, true, None),
        vec![pair("cli", "/r/packages/cli"), pair("web", "/r/packages/web")]
    );
    assert_eq!(test_audit_dirs("/r", &[], true, None), vec![pair("(root)", "/r")]);
    assert_eq!(test_audit_dirs("/r", &scopes, false, Some(1)), vec![pair("web", "/r/packages/web")]);
    assert_eq!(test_audit_dirs("/r", &scopes, false, None), vec![pair("(root)", "/r")]);
}
