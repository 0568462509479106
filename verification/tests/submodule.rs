use qtcloud_devops_cli::submodule::{count_between, null_oid_exec, scanned_submodule, ScanReading};
use qtcloud_devops_cli::submodule::{
    describe_issue, fmt_oid, AggregateStatus, HealthIssue, RepoState, Submodule, SubmoduleState,
    SubmoduleStatus,
};

const NULL_OID: &str = "0000000000000000000000000000000000000000";

fn h(s: &str) -> String {
    format!("{:0>40}", s)
}

fn ds(state: SubmoduleState) -> SubmoduleStatus {
    RepoState::determine_submodule_status(&state)
}

fn sm(name: &str, status: SubmoduleStatus) -> Submodule {
    Submodule {
        name: name.into(),
        path: String::new(),
        url: String::new(),
        tracked_branch: "main".into(),
        parent_pointer: NULL_OID.into(),
        local_head: NULL_OID.into(),
        remote_head: NULL_OID.into(),
        status,
        ahead_count: 0,
        behind_count: 0,
        remote_unreachable: false,
    }
}

// ── SubmoduleStatus ─────────────────────────────────────────────

#[test]
fn git_test_status_priority_ordering() {
    assert!(SubmoduleStatus::Dirty.priority() < SubmoduleStatus::Clean.priority());
    assert!(SubmoduleStatus::Orphaned.priority() < SubmoduleStatus::BehindRemote.priority());
}

#[test]
fn git_test_clean_is_lowest_priority() {
    for s in &[
        SubmoduleStatus::Dirty,
        SubmoduleStatus::Orphaned,
        SubmoduleStatus::Detached,
        SubmoduleStatus::Uninitialized,
        SubmoduleStatus::BehindRemote,
        SubmoduleStatus::AheadOfParent,
    ] {
        assert!(s.priority() < SubmoduleStatus::Clean.priority());
    }
}

#[test]
fn git_test_all_priorities_are_unique() {
    let p: Vec<u8> = [
        SubmoduleStatus::Dirty,
        SubmoduleStatus::Orphaned,
        SubmoduleStatus::Detached,
        SubmoduleStatus::Uninitialized,
        SubmoduleStatus::BehindRemote,
        SubmoduleStatus::AheadOfParent,
        SubmoduleStatus::Clean,
    ]
    .iter()
    .map(|s| s.priority())
    .collect();
    let mut s = p.clone();
    s.sort();
    s.dedup();
    assert_eq!(p.len(), s.len());
}

#[test]
fn git_test_status_debug_output() {
    assert_eq!(format!("{:?}", SubmoduleStatus::Clean), "Clean");
}

#[test]
fn git_test_status_clone_eq() {
    assert_eq!(SubmoduleStatus::Dirty, SubmoduleStatus::Dirty);
}

#[test]
fn priority_values_exact() {
    assert_eq!(SubmoduleStatus::Dirty.priority(), 0);
    assert_eq!(SubmoduleStatus::Orphaned.priority(), 1);
    assert_eq!(SubmoduleStatus::Detached.priority(), 2);
    assert_eq!(SubmoduleStatus::Uninitialized.priority(), 3);
    assert_eq!(SubmoduleStatus::BehindRemote.priority(), 4);
    assert_eq!(SubmoduleStatus::AheadOfParent.priority(), 5);
    assert_eq!(SubmoduleStatus::Clean.priority(), 6);
}

// ── fmt_oid ─────────────────────────────────────────────────────

#[test]
fn git_test_fmt_oid_truncates() {
    assert_eq!(fmt_oid("abcdef1234567890abcdef1234567890abcdef12"), "abcdef1");
}

#[test]
fn git_test_fmt_oid_short() {
    assert_eq!(fmt_oid(NULL_OID).len(), 7);
}

#[test]
fn git_test_fmt_oid_null() {
    let s = fmt_oid(NULL_OID);
    assert_eq!(s.len(), 7);
    assert!(s.chars().all(|c| c == '0'));
}

// ── Submodule ───────────────────────────────────────────────────

#[test]
fn git_test_submodule_builder() {
    let sm = Submodule {
        name: "test".into(),
        path: "libs/test".into(),
        url: "https://example.com/test.git".into(),
        tracked_branch: "main".into(),
        parent_pointer: NULL_OID.into(),
        local_head: NULL_OID.into(),
        remote_head: NULL_OID.into(),
        status: SubmoduleStatus::BehindRemote,
        ahead_count: 0,
        behind_count: 3,
        remote_unreachable: false,
    };
    assert_eq!(sm.name, "test");
}

// ── AggregateStatus ─────────────────────────────────────────────

#[test]
fn git_test_aggregate_status_default() {
    assert_eq!(AggregateStatus::default().total, 0);
}

#[test]
fn git_test_aggregate_status_from_submodules() {
    let agg = AggregateStatus::from_submodules(&[
        sm("", SubmoduleStatus::Clean),
        sm("", SubmoduleStatus::Dirty),
        sm("", SubmoduleStatus::Orphaned),
    ]);
    assert_eq!(agg.total, 3);
    assert_eq!(agg.clean, 1);
    assert_eq!(agg.dirty, 1);
    assert_eq!(agg.orphaned, 1);
}

#[test]
fn git_test_aggregate_status_all_variants() {
    let agg = AggregateStatus::from_submodules(&[
        sm("", SubmoduleStatus::Clean),
        sm("", SubmoduleStatus::AheadOfParent),
        sm("", SubmoduleStatus::BehindRemote),
        sm("", SubmoduleStatus::Detached),
        sm("", SubmoduleStatus::Dirty),
        sm("", SubmoduleStatus::Orphaned),
        sm("", SubmoduleStatus::Uninitialized),
    ]);
    assert_eq!(agg.total, 7);
    assert_eq!(agg.clean, 1);
}

#[test]
fn aggregate_tallies_add_up() {
    let agg = AggregateStatus::from_submodules(&[
        sm("a", SubmoduleStatus::Dirty),
        sm("b", SubmoduleStatus::Dirty),
        sm("c", SubmoduleStatus::BehindRemote),
        sm("d", SubmoduleStatus::Clean),
        sm("e", SubmoduleStatus::Uninitialized),
    ]);
    assert_eq!(agg.dirty, 2);
    assert_eq!(agg.behind_remote, 1);
    assert_eq!(agg.uninitialized, 1);
    assert_eq!(
        agg.clean + agg.ahead_of_parent + agg.behind_remote + agg.detached + agg.dirty
            + agg.orphaned + agg.uninitialized,
        agg.total
    );
}

// ── RepoState ───────────────────────────────────────────────────

#[test]
fn git_test_repo_state_empty() {
    let s = RepoState {
        root_path: "/tmp".into(),
        submodules: vec![],
        total: 0,
        clean_count: 0,
        needs_attention: vec![],
    };
    assert_eq!(s.total, 0);
}

#[test]
fn build_repo_state_sorts_and_counts() {
    let s = RepoState::build_repo_state(
        "/repo",
        vec![
            sm("zeta", SubmoduleStatus::Clean),
            sm("alpha", SubmoduleStatus::Dirty),
            sm("mid", SubmoduleStatus::Clean),
            sm("beta", SubmoduleStatus::Detached),
        ],
    );
    assert_eq!(s.root_path, "/repo");
    let names: Vec<&str> = s.submodules.iter().map(|m| m.name.as_str()).collect();
    assert_eq!(names, vec!["alpha", "beta", "mid", "zeta"]);
    assert_eq!(s.total, 4);
    assert_eq!(s.clean_count, 2);
    assert_eq!(s.needs_attention, vec!["alpha".to_string(), "beta".to_string()]);
}

#[test]
fn build_repo_state_keeps_equal_names_in_order() {
    let mut first = sm("same", SubmoduleStatus::Dirty);
    first.url = "one".into();
    let mut second = sm("same", SubmoduleStatus::Clean);
    second.url = "two".into();
    let s = RepoState::build_repo_state("/r", vec![first, sm("a", SubmoduleStatus::Clean), second]);
    let urls: Vec<&str> = s.submodules.iter().map(|m| m.url.as_str()).collect();
    assert_eq!(urls, vec!["", "one", "two"]);
}

#[test]
fn build_repo_state_empty() {
    let s = RepoState::build_repo_state("/r", vec![]);
    assert_eq!(s.total, 0);
    assert_eq!(s.clean_count, 0);
    assert!(s.needs_attention.is_empty());
}

// ── describe_issue ──────────────────────────────────────────────

#[test]
fn git_test_describe_issue_ahead_of_parent() {
    let (d, a) = describe_issue(&SubmoduleStatus::AheadOfParent);
    assert!(d.contains("领先"));
    assert!(a.contains("sync"));
}

#[test]
fn git_test_describe_issue_behind_remote() {
    let (d, a) = describe_issue(&SubmoduleStatus::BehindRemote);
    assert!(d.contains("落后"));
    assert!(a.contains("sync"));
}

#[test]
fn git_test_describe_issue_detached() {
    let (d, a) = describe_issue(&SubmoduleStatus::Detached);
    assert!(d.contains("游离"));
    assert!(a.contains("checkout"));
}

#[test]
fn git_test_describe_issue_dirty() {
    let (d, _a) = describe_issue(&SubmoduleStatus::Dirty);
    assert!(d.contains("修改"));
}

#[test]
fn git_test_describe_issue_orphaned() {
    let (d, _a) = describe_issue(&SubmoduleStatus::Orphaned);
    assert!(d.contains("不存在"));
}

#[test]
fn git_test_describe_issue_uninitialized() {
    let (d, _a) = describe_issue(&SubmoduleStatus::Uninitialized);
    assert!(d.contains("初始化"));
}

#[test]
fn describe_issue_exact_texts() {
    assert_eq!(
        describe_issue(&SubmoduleStatus::Dirty),
        ("有未提交的修改".to_string(), "提交或 stash 当前修改".to_string())
    );
    assert_eq!(
        describe_issue(&SubmoduleStatus::Orphaned),
        ("父仓库记录的 commit 在远程已不存在".to_string(), "需手动干预".to_string())
    );
}

#[test]
fn health_issue_holds_fields() {
    let (description, suggested_action) = describe_issue(&SubmoduleStatus::Detached);
    let issue = HealthIssue {
        submodule_name: "libs/sub".into(),
        status: "Detached".into(),
        description,
        suggested_action,
    };
    assert_eq!(issue.submodule_name, "libs/sub");
    assert!(issue.description.contains("HEAD"));
}

// ── determine_submodule_status ──────────────────────────────────

#[test]
fn git_test_determine_status_uninitialized() {
    assert_eq!(
        ds(SubmoduleState { is_uninitialized: true, ..SubmoduleState::default() }),
        SubmoduleStatus::Uninitialized
    );
}

#[test]
fn git_test_determine_status_dirty() {
    assert_eq!(
        ds(SubmoduleState { is_dirty: true, ..SubmoduleState::default() }),
        SubmoduleStatus::Dirty
    );
}

#[test]
fn git_test_determine_status_detached() {
    assert_eq!(
        ds(SubmoduleState { is_detached: true, ..SubmoduleState::default() }),
        SubmoduleStatus::Detached
    );
}

#[test]
fn git_test_determine_status_orphaned() {
    assert_eq!(
        ds(SubmoduleState { is_orphaned: true, ..SubmoduleState::default() }),
        SubmoduleStatus::Orphaned
    );
}

#[test]
fn git_test_determine_status_ahead_of_parent() {
    assert_eq!(
        ds(SubmoduleState {
            remote_unreachable: true,
            local_head: h("abc"),
            ..SubmoduleState::default()
        }),
        SubmoduleStatus::AheadOfParent
    );
    assert_eq!(
        ds(SubmoduleState { ahead_count: 5, ..SubmoduleState::default() }),
        SubmoduleStatus::AheadOfParent
    );
    assert_eq!(
        ds(SubmoduleState { ahead_count: 5, behind_count: 3, ..SubmoduleState::default() }),
        SubmoduleStatus::BehindRemote
    );
}

#[test]
fn git_test_determine_status_behind_remote() {
    assert_eq!(
        ds(SubmoduleState { behind_count: 3, ..SubmoduleState::default() }),
        SubmoduleStatus::BehindRemote
    );
    assert_eq!(
        ds(SubmoduleState { behind_count: 3, remote_unreachable: true, ..SubmoduleState::default() }),
        SubmoduleStatus::Clean
    );
}

#[test]
fn git_test_determine_status_clean() {
    assert_eq!(ds(SubmoduleState::default()), SubmoduleStatus::Clean);
}

#[test]
fn determine_status_unreachable_remote_same_head_is_clean() {
    assert_eq!(
        ds(SubmoduleState {
            remote_unreachable: true,
            local_head: h("abc"),
            parent_pointer: h("abc"),
            ..SubmoduleState::default()
        }),
        SubmoduleStatus::Clean
    );
}

#[test]
fn determine_status_orphan_needs_reachable_remote() {
    assert_eq!(
        ds(SubmoduleState { is_orphaned: true, remote_unreachable: true, ..SubmoduleState::default() }),
        SubmoduleStatus::Clean
    );
}

#[test]
fn default_state_heads_are_null() {
    let s = SubmoduleState::default();
    assert_eq!(s.local_head, NULL_OID);
    assert_eq!(s.parent_pointer, NULL_OID);
}

#[test]
fn scanned_submodule_from_readings() {
    assert_eq!(null_oid_exec(), NULL_OID);
    let p = "a".repeat(40);
    let r = "b".repeat(40);
    let l = "c".repeat(40);
    let s = scanned_submodule("m".into(), "libs/m".into(), "u".into(), "main".into(), p.clone(), None);
    assert_eq!(s.status, SubmoduleStatus::Uninitialized);
    assert_eq!(s.local_head, NULL_OID);
    assert!(!s.remote_unreachable);
    let reading = |remote: Option<String>, ahead: usize, behind: usize| ScanReading {
        local_head: l.clone(),
        is_detached: false,
        is_dirty: false,
        remote_head: remote,
        ahead_count: ahead,
        behind_count: behind,
    };
    let orphan = scanned_submodule("m".into(), "p".into(), "u".into(), "main".into(), p.clone(), Some(reading(Some(r.clone()), 0, 0)));
    assert_eq!(orphan.status, SubmoduleStatus::Orphaned);
    let unreachable = scanned_submodule("m".into(), "p".into(), "u".into(), "main".into(), p.clone(), Some(reading(None, 0, 5)));
    assert!(unreachable.remote_unreachable);
    assert_eq!(unreachable.behind_count, 0);
    assert_eq!(unreachable.remote_head, NULL_OID);
    assert_eq!(unreachable.status, SubmoduleStatus::AheadOfParent);
    let behind = scanned_submodule("m".into(), "p".into(), "u".into(), "main".into(), r.clone(), Some(reading(Some(r.clone()), 0, 2)));
    assert_eq!(behind.status, SubmoduleStatus::BehindRemote);
    let null_remote = scanned_submodule("m".into(), "p".into(), "u".into(), "main".into(), p.clone(), Some(reading(Some(NULL_OID.to_string()), 0, 0)));
    assert!(null_remote.remote_unreachable);
}

#[test]
fn submodule_test_status_priority_ordering() {
    assert!(SubmoduleStatus::Dirty.priority() < SubmoduleStatus::Clean.priority());
    assert!(SubmoduleStatus::Orphaned.priority() < SubmoduleStatus::BehindRemote.priority());
}

#[test]
fn submodule_test_clean_is_lowest_priority() {
    for s in &[
        SubmoduleStatus::Dirty,
        SubmoduleStatus::Orphaned,
        SubmoduleStatus::Detached,
        SubmoduleStatus::Uninitialized,
        SubmoduleStatus::BehindRemote,
        SubmoduleStatus::AheadOfParent,
    ] {
        assert!(s.priority() < SubmoduleStatus::Clean.priority());
    }
}

#[test]
fn submodule_test_all_priorities_are_unique() {
    let p: Vec<u8> = [
        SubmoduleStatus::Dirty,
        SubmoduleStatus::Orphaned,
        SubmoduleStatus::Detached,
        SubmoduleStatus::Uninitialized,
        SubmoduleStatus::BehindRemote,
        SubmoduleStatus::AheadOfParent,
        SubmoduleStatus::Clean,
    ]
    .iter()
    .map(|s| s.priority())
    .collect();
    let mut s = p.clone();
    s.sort();
    s.dedup();
    assert_eq!(p.len(), s.len());
}

#[test]
fn submodule_test_status_debug_output() {
    assert_eq!(format!("{:?}", SubmoduleStatus::Clean), "Clean");
}

#[test]
fn submodule_test_status_clone_eq() {
    assert_eq!(SubmoduleStatus::Dirty, SubmoduleStatus::Dirty);
}

#[test]
fn submodule_test_fmt_oid_truncates() {
    assert_eq!(fmt_oid("abcdef1234567890abcdef1234567890abcdef12"), "abcdef1");
}

#[test]
fn submodule_test_fmt_oid_short() {
    assert_eq!(fmt_oid(NULL_OID).len(), 7);
}

#[test]
fn submodule_test_fmt_oid_null() {
    let s = fmt_oid(NULL_OID);
    assert_eq!(s.len(), 7);
    assert!(s.chars().all(|c| c == '0'));
}

#[test]
fn submodule_test_submodule_builder() {
    let sm = Submodule {
        name: "test".into(),
        path: "libs/test".into(),
        url: "https://example.com/test.git".into(),
        tracked_branch: "main".into(),
        parent_pointer: NULL_OID.into(),
        local_head: NULL_OID.into(),
        remote_head: NULL_OID.into(),
        status: SubmoduleStatus::BehindRemote,
        ahead_count: 0,
        behind_count: 3,
        remote_unreachable: false,
    };
    assert_eq!(sm.name, "test");
}

#[test]
fn submodule_test_aggregate_status_default() {
    assert_eq!(AggregateStatus::default().total, 0);
}

#[test]
fn submodule_test_aggregate_status_from_submodules() {
    let agg = AggregateStatus::from_submodules(&[
        sm("", SubmoduleStatus::Clean),
        sm("", SubmoduleStatus::Dirty),
        sm("", SubmoduleStatus::Orphaned),
    ]);
    assert_eq!(agg.total, 3);
    assert_eq!(agg.clean, 1);
    assert_eq!(agg.dirty, 1);
    assert_eq!(agg.orphaned, 1);
}

#[test]
fn submodule_test_aggregate_status_all_variants() {
    let agg = AggregateStatus::from_submodules(&[
        sm("", SubmoduleStatus::Clean),
        sm("", SubmoduleStatus::AheadOfParent),
        sm("", SubmoduleStatus::BehindRemote),
        sm("", SubmoduleStatus::Detached),
        sm("", SubmoduleStatus::Dirty),
        sm("", SubmoduleStatus::Orphaned),
        sm("", SubmoduleStatus::Uninitialized),
    ]);
    assert_eq!(agg.total, 7);
    assert_eq!(agg.clean, 1);
}

#[test]
fn submodule_test_repo_state_empty() {
    let s = RepoState {
        root_path: "/tmp".into(),
        submodules: vec![],
        total: 0,
        clean_count: 0,
        needs_attention: vec![],
    };
    assert_eq!(s.total, 0);
}

#[test]
fn submodule_test_describe_issue_ahead_of_parent() {
    let (d, a) = describe_issue(&SubmoduleStatus::AheadOfParent);
    assert!(d.contains("领先"));
    assert!(a.contains("sync"));
}

#[test]
fn submodule_test_describe_issue_behind_remote() {
    let (d, a) = describe_issue(&SubmoduleStatus::BehindRemote);
    assert!(d.contains("落后"));
    assert!(a.contains("sync"));
}

#[test]
fn submodule_test_describe_issue_detached() {
    let (d, a) = describe_issue(&SubmoduleStatus::Detached);
    assert!(d.contains("游离"));
    assert!(a.contains("checkout"));
}

#[test]
fn submodule_test_describe_issue_dirty() {
    let (d, _a) = describe_issue(&SubmoduleStatus::Dirty);
    assert!(d.contains("修改"));
}

#[test]
fn submodule_test_describe_issue_orphaned() {
    let (d, _a) = describe_issue(&SubmoduleStatus::Orphaned);
    assert!(d.contains("不存在"));
}

#[test]
fn submodule_test_describe_issue_uninitialized() {
    let (d, _a) = describe_issue(&SubmoduleStatus::Uninitialized);
    assert!(d.contains("初始化"));
}

#[test]
fn submodule_test_determine_status_uninitialized() {
    assert_eq!(
        ds(SubmoduleState { is_uninitialized: true, ..SubmoduleState::default() }),
        SubmoduleStatus::Uninitialized
    );
}

#[test]
fn submodule_test_determine_status_dirty() {
    assert_eq!(
        ds(SubmoduleState { is_dirty: true, ..SubmoduleState::default() }),
        SubmoduleStatus::Dirty
    );
}

#[test]
fn submodule_test_determine_status_detached() {
    assert_eq!(
        ds(SubmoduleState { is_detached: true, ..SubmoduleState::default() }),
        SubmoduleStatus::Detached
    );
}

#[test]
fn submodule_test_determine_status_orphaned() {
    assert_eq!(
        ds(SubmoduleState { is_orphaned: true, ..SubmoduleState::default() }),
        SubmoduleStatus::Orphaned
    );
}

#[test]
fn submodule_test_determine_status_ahead_of_parent() {
    assert_eq!(
        ds(SubmoduleState {
            remote_unreachable: true,
            local_head: h("abc"),
            ..SubmoduleState::default()
        }),
        SubmoduleStatus::AheadOfParent
    );
    assert_eq!(
        ds(SubmoduleState { ahead_count: 5, ..SubmoduleState::default() }),
        SubmoduleStatus::AheadOfParent
    );
    assert_eq!(
        ds(SubmoduleState { ahead_count: 5, behind_count: 3, ..SubmoduleState::default() }),
        SubmoduleStatus::BehindRemote
    );
}

#[test]
fn submodule_test_determine_status_behind_remote() {
    assert_eq!(
        ds(SubmoduleState { behind_count: 3, ..SubmoduleState::default() }),
        SubmoduleStatus::BehindRemote
    );
    assert_eq!(
        ds(SubmoduleState { behind_count: 3, remote_unreachable: true, ..SubmoduleState::default() }),
        SubmoduleStatus::Clean
    );
}

#[test]
fn submodule_test_determine_status_clean() {
    assert_eq!(ds(SubmoduleState::default()), SubmoduleStatus::Clean);
}

#[test]
fn tmp_test_block_test_determine_status_uninitialized() {
    assert_eq!(
        ds(SubmoduleState { is_uninitialized: true, ..SubmoduleState::default() }),
        SubmoduleStatus::Uninitialized
    );
}

#[test]
fn tmp_test_block_test_determine_status_dirty() {
    assert_eq!(
        ds(SubmoduleState { is_dirty: true, ..SubmoduleState::default() }),
        SubmoduleStatus::Dirty
    );
}

#[test]
fn tmp_test_block_test_determine_status_detached() {
    assert_eq!(
        ds(SubmoduleState { is_detached: true, ..SubmoduleState::default() }),
        SubmoduleStatus::Detached
    );
}

#[test]
fn tmp_test_block_test_determine_status_orphaned() {
    assert_eq!(
        ds(SubmoduleState { is_orphaned: true, ..SubmoduleState::default() }),
        SubmoduleStatus::Orphaned
    );
}

#[test]
fn tmp_test_block_test_determine_status_ahead_of_parent() {
    assert_eq!(
        ds(SubmoduleState {
            remote_unreachable: true,
            local_head: h("abc"),
            ..SubmoduleState::default()
        }),
        SubmoduleStatus::AheadOfParent
    );
    assert_eq!(
        ds(SubmoduleState { ahead_count: 5, ..SubmoduleState::default() }),
        SubmoduleStatus::AheadOfParent
    );
    assert_eq!(
        ds(SubmoduleState { ahead_count: 5, behind_count: 3, ..SubmoduleState::default() }),
        SubmoduleStatus::BehindRemote
    );
}

#[test]
fn tmp_test_block_test_determine_status_behind_remote() {
    assert_eq!(
        ds(SubmoduleState { behind_count: 3, ..SubmoduleState::default() }),
        SubmoduleStatus::BehindRemote
    );
    assert_eq!(
        ds(SubmoduleState { behind_count: 3, remote_unreachable: true, ..SubmoduleState::default() }),
        SubmoduleStatus::Clean
    );
}

#[test]
fn tmp_test_block_test_determine_status_clean() {
    assert_eq!(ds(SubmoduleState::default()), SubmoduleStatus::Clean);
}

#[test]
fn submodule_test_count_between_commits() {
    // One commit: counting from HEAD to itself.
    assert_eq!(count_between(&[h("c1")], &h("c1")), 0);
    // A second commit on top of it.
    assert_eq!(count_between(&[h("c2"), h("c1")], &h("c1")), 1);
}

#[test]
fn submodule_test_count_between_one_commit() {
    assert_eq!(count_between(&[h("c2"), h("c1")], &h("c1")), 1);
}

#[test]
fn count_between_stops_at_root_and_cap() {
    // `from` is not an ancestor: the walk ends at the root commit.
    assert_eq!(count_between(&[h("c"), h("b"), h("a")], &h("x")), 2);
    assert_eq!(count_between(&[], &h("x")), 0);
    let long: Vec<String> = (0..10050).map(|i| h(&format!("{:x}", i + 1))).collect();
    assert_eq!(count_between(&long, &h("x")), 10001);
}
