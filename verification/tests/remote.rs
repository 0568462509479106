use qtcloud_devops_cli::remote::parse_github_repo;

#[test]
fn pattern_reads_https_and_ssh() {
    assert_eq!(parse_github_repo("https://github.com/owner/repo.git"), Some("owner/repo".into()));
    assert_eq!(parse_github_repo("git@github.com:owner/repo.git"), Some("owner/repo".into()));
    assert_eq!(parse_github_repo("https://gitlab.com/owner/repo.git"), None);
    assert_eq!(parse_github_repo("https://github.com/owner/repo"), Some("owner/repo".into()));
}

#[test]
fn parse_github_repo_needs_exactly_owner_and_name() {
    assert_eq!(parse_github_repo("https://github.com/a/b/c"), None);
    assert_eq!(parse_github_repo("https://github.com/owner"), None);
    assert_eq!(parse_github_repo("https://github.com/owner/"), None);
    assert_eq!(parse_github_repo("https://github.com//repo"), None);
    assert_eq!(parse_github_repo("https://github.com"), None);
}

#[test]
fn parse_github_repo_leftmost_full_match() {
    assert_eq!(parse_github_repo("https://github.com/a/b/github.com/c/d.git"), Some("c/d".into()));
    assert_eq!(parse_github_repo("ssh://git@github.com:owner/repo.git.git"), Some("owner/repo.git".into()));
    assert_eq!(parse_github_repo("https://github.com/owner/.git"), Some("owner/.git".into()));
}
