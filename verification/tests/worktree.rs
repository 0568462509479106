use qtcloud_devops_cli::worktree::{
    commit, git_dir, git_output_result, is_clean, is_git_repo, parse_count, rev_list_args, stage_files,
    unreleased_count_command,
};

#[test]
fn test_stage_files_empty_list() {
    assert_eq!(stage_files("/d", &[]), None);
}

#[test]
fn stage_files_relative_paths() {
    let files = vec![
        ("/d/a.txt".to_string(), true),
        ("/elsewhere/b".to_string(), true),
        ("/d/sub/c".to_string(), true),
    ];
    assert_eq!(
        stage_files("/d", &files),
        Some(vec!["add".to_string(), "a.txt".to_string(), "sub/c".to_string()])
    );
    assert_eq!(stage_files("/d", &[("/x".to_string(), true)]), None);
}

#[test]
fn stage_files_skips_missing_files() {
    assert_eq!(stage_files("/d", &[("/d/missing.txt".to_string(), false)]), None);
    let files = vec![("/d/missing.txt".to_string(), false), ("/d/CHANGELOG.md".to_string(), true)];
    assert_eq!(stage_files("/d", &files), Some(vec!["add".to_string(), "CHANGELOG.md".to_string()]));
}

#[test]
fn commit_args() {
    assert_eq!(commit("initial"), vec!["commit".to_string(), "-m".to_string(), "initial".to_string()]);
}

#[test]
fn is_clean_cases() {
    assert!(is_clean(true, true));
    assert!(!is_clean(false, true));
    assert!(!is_clean(true, false));
}

#[test]
fn git_test_is_git_repo_false() {
    assert!(!is_git_repo(false, false));
}

#[test]
fn is_git_repo_dir_or_file() {
    assert!(is_git_repo(true, false));
    assert!(is_git_repo(false, true));
    assert_eq!(git_dir("/d"), "/d/.git");
}

#[test]
fn rev_list_args_cases() {
    let base = vec!["rev-list".to_string(), "--count".to_string(), "v1.0.0..HEAD".to_string()];
    assert_eq!(rev_list_args("v1.0.0", None), base);
    assert_eq!(rev_list_args("v1.0.0", Some("")), base);
    assert_eq!(rev_list_args("v1.0.0", Some(".")), base);
    let mut with = base.clone();
    with.push("--".into());
    with.push("src".into());
    assert_eq!(rev_list_args("v1.0.0", Some("src")), with);
}

#[test]
fn unreleased_count_command_cases() {
    let (cwd, args) = unreleased_count_command("/r", "cli/v1.0.0", "/r/packages/cli", false);
    assert_eq!(cwd, "/r");
    assert_eq!(args.last().unwrap(), "packages/cli");
    let (cwd, args) = unreleased_count_command("/r", "v1.0.0", "/r/sub", true);
    assert_eq!(cwd, "/r/sub");
    assert_eq!(args.len(), 3);
    let (_, args) = unreleased_count_command("/r", "v1.0.0", "/r", false);
    assert_eq!(args.len(), 3);
}

#[test]
fn parse_count_cases() {
    assert_eq!(parse_count("12\n"), Some(12));
    assert_eq!(parse_count("  0 "), Some(0));
    assert_eq!(parse_count("x"), None);
    assert_eq!(parse_count(""), None);
    assert_eq!(parse_count("+7"), Some(7));
}

#[test]
fn git_output_outcomes() {
    assert_eq!(git_output_result(true, " out \n", "warn"), Ok("out".to_string()));
    assert_eq!(git_output_result(false, "", "  "), Err("git 命令失败".to_string()));
    assert_eq!(git_output_result(false, "", "fatal: no\n"), Err("fatal: no".to_string()));
}
