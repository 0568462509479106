//! Submodule health: how one submodule is classified, what each state means
//! to the user, and the tallies over a whole repository.

use vstd::prelude::*;
use crate::tag::str_eq;
use crate::text::{chars_of, slice_of, string_of};

verus! {

/// The health of one submodule, from worst kind of trouble to none.
#[derive(Debug, Clone, Copy, PartialEq, Eq, Structural)]
pub enum SubmoduleStatus {
    Clean,
    AheadOfParent,
    BehindRemote,
    Detached,
    Dirty,
    Orphaned,
    Uninitialized,
}

/// How urgent a status is: a smaller number needs attention first.
pub open spec fn status_priority(s: SubmoduleStatus) -> int {
    match s {
        SubmoduleStatus::Dirty => 0,
        SubmoduleStatus::Orphaned => 1,
        SubmoduleStatus::Detached => 2,
        SubmoduleStatus::Uninitialized => 3,
        SubmoduleStatus::BehindRemote => 4,
        SubmoduleStatus::AheadOfParent => 5,
        SubmoduleStatus::Clean => 6,
    }
}

impl SubmoduleStatus {
    pub fn priority(&self) -> (r: u8)
        ensures
            r == status_priority(*self),
    {
        match self {
            SubmoduleStatus::Dirty => 0,
            SubmoduleStatus::Orphaned => 1,
            SubmoduleStatus::Detached => 2,
            SubmoduleStatus::Uninitialized => 3,
            SubmoduleStatus::BehindRemote => 4,
            SubmoduleStatus::AheadOfParent => 5,
            SubmoduleStatus::Clean => 6,
        }
    }
}

/// No two statuses share a priority, so priorities order the statuses totally.
pub proof fn law_priorities_unique(a: SubmoduleStatus, b: SubmoduleStatus)
    ensures
        status_priority(a) == status_priority(b) <==> a == b,
{
}

/// Every status that needs attention comes before `Clean`.
pub proof fn law_clean_is_last(s: SubmoduleStatus)
    requires
        s != SubmoduleStatus::Clean,
    ensures
        status_priority(s) < status_priority(SubmoduleStatus::Clean),
{
}

/// What a troubled status means, and what the user should do about it.
pub open spec fn issue_text(s: SubmoduleStatus) -> (Seq<char>, Seq<char>)
    recommends
        s != SubmoduleStatus::Clean,
{
    match s {
        SubmoduleStatus::AheadOfParent => ("本地领先于父仓库记录"@, "运行 sync_to_parent 更新父仓库指针"@),
        SubmoduleStatus::BehindRemote => ("远程有更新，本地落后"@, "运行 code sync 获取最新代码"@),
        SubmoduleStatus::Detached => ("处于游离 HEAD 状态"@, "运行 checkout_branch 切换到跟踪分支"@),
        SubmoduleStatus::Dirty => ("有未提交的修改"@, "提交或 stash 当前修改"@),
        SubmoduleStatus::Orphaned => ("父仓库记录的 commit 在远程已不存在"@, "需手动干预"@),
        SubmoduleStatus::Uninitialized => ("尚未初始化"@, "运行 init 初始化子模块"@),
        SubmoduleStatus::Clean => (Seq::empty(), Seq::empty()),
    }
}

/// The description and the suggested action for a status that needs
/// attention. A clean submodule has no issue to describe.
pub fn describe_issue(status: &SubmoduleStatus) -> (r: (String, String))
    requires
        *status != SubmoduleStatus::Clean,
    ensures
        (r.0@, r.1@) == issue_text(*status),
{
    match status {
        SubmoduleStatus::AheadOfParent => (
            "本地领先于父仓库记录".to_owned(),
            "运行 sync_to_parent 更新父仓库指针".to_owned(),
        ),
        SubmoduleStatus::BehindRemote => (
            "远程有更新，本地落后".to_owned(),
            "运行 code sync 获取最新代码".to_owned(),
        ),
        SubmoduleStatus::Detached => (
            "处于游离 HEAD 状态".to_owned(),
            "运行 checkout_branch 切换到跟踪分支".to_owned(),
        ),
        SubmoduleStatus::Dirty => ("有未提交的修改".to_owned(), "提交或 stash 当前修改".to_owned()),
        SubmoduleStatus::Orphaned => (
            "父仓库记录的 commit 在远程已不存在".to_owned(),
            "需手动干预".to_owned(),
        ),
        SubmoduleStatus::Uninitialized => ("尚未初始化".to_owned(), "运行 init 初始化子模块".to_owned()),
        SubmoduleStatus::Clean => {
            proof {
                assert(false);
            }
            (String::new(), String::new())
        },
    }
}

/// An object id shortened for display: its first seven hex digits.
pub open spec fn short_oid(hex: Seq<char>) -> Seq<char> {
    hex.take(7)
}

/// Shortens an object id, given as its hex digits, to seven of them.
pub fn fmt_oid(hex: &str) -> (r: String)
    requires
        hex@.len() >= 7,
    ensures
        r@ == short_oid(hex@),
{
    let v = chars_of(hex);
    let p = slice_of(v.as_slice(), 0, 7);
    proof {
        assert(p@ =~= hex@.take(7));
    }
    string_of(p.as_slice())
}

/// The hex digits of the null object id.
pub open spec fn null_oid() -> Seq<char> {
    Seq::new(40, |i: int| '0')
}

/// The null object id, as hex digits.
pub fn null_oid_exec() -> (r: String)
    ensures
        r@ == null_oid(),
{
    let mut v: Vec<char> = Vec::new();
    let mut i: usize = 0;
    while i < 40
        invariant
            i <= 40,
            v@ == Seq::new(i as nat, |k: int| '0'),
        decreases 40 - i,
    {
        v.push('0');
        i = i + 1;
        assert(v@ =~= Seq::new(i as nat, |k: int| '0'));
    }
    string_of(v.as_slice())
}

/// The facts about one submodule from which its status is decided. Object
/// ids are held as their hex digits.
pub struct SubmoduleState {
    pub is_uninitialized: bool,
    pub is_dirty: bool,
    pub is_detached: bool,
    pub is_orphaned: bool,
    pub remote_unreachable: bool,
    pub ahead_count: usize,
    pub behind_count: usize,
    pub local_head: String,
    pub parent_pointer: String,
}

impl Default for SubmoduleState {
    /// No flag set, no counts, and both heads the null object id.
    fn default() -> (s: Self)
        ensures
            !s.is_uninitialized,
            !s.is_dirty,
            !s.is_detached,
            !s.is_orphaned,
            !s.remote_unreachable,
            s.ahead_count == 0,
            s.behind_count == 0,
            s.local_head@ == null_oid(),
            s.parent_pointer@ == null_oid(),
    {
        let local_head = null_oid_exec();
        let parent_pointer = null_oid_exec();
        SubmoduleState {
            is_uninitialized: false,
            is_dirty: false,
            is_detached: false,
            is_orphaned: false,
            remote_unreachable: false,
            ahead_count: 0,
            behind_count: 0,
            local_head,
            parent_pointer,
        }
    }
}

/// The status of a submodule, decided in order: not checked out, local
/// changes, detached head, the parent's commit gone from the remote, ahead of
/// the parent (or the remote out of reach while the head moved), behind the
/// remote, and otherwise clean.
pub open spec fn status_of(
    is_uninitialized: bool,
    is_dirty: bool,
    is_detached: bool,
    is_orphaned: bool,
    remote_unreachable: bool,
    ahead_count: int,
    behind_count: int,
    local_head: Seq<char>,
    parent_pointer: Seq<char>,
) -> SubmoduleStatus {
    if is_uninitialized {
        SubmoduleStatus::Uninitialized
    } else if is_dirty {
        SubmoduleStatus::Dirty
    } else if is_detached {
        SubmoduleStatus::Detached
    } else if is_orphaned && !remote_unreachable {
        SubmoduleStatus::Orphaned
    } else if (remote_unreachable && local_head != parent_pointer) || (ahead_count > 0
        && behind_count == 0) {
        SubmoduleStatus::AheadOfParent
    } else if behind_count > 0 && !remote_unreachable {
        SubmoduleStatus::BehindRemote
    } else {
        SubmoduleStatus::Clean
    }
}

/// Law: the order in which a submodule's facts decide its status. Not
/// checked out is Uninitialized; otherwise local changes make it Dirty
/// whatever its HEAD; otherwise a detached HEAD makes it Detached; otherwise
/// a commit the reachable remote does not have makes it Orphaned; otherwise
/// it is AheadOfParent when the remote is out of reach and its HEAD is not
/// the parent's pointer, or when it is ahead and not behind; otherwise
/// BehindRemote when behind a reachable remote; otherwise Clean.
pub proof fn law_status_priority(s: SubmoduleState)
    ensures
        s.is_uninitialized ==> state_status(s) == SubmoduleStatus::Uninitialized,
        !s.is_uninitialized && s.is_dirty ==> state_status(s) == SubmoduleStatus::Dirty,
        !s.is_uninitialized && !s.is_dirty && s.is_detached ==> state_status(s) == SubmoduleStatus::Detached,
        !s.is_uninitialized && !s.is_dirty && !s.is_detached && s.is_orphaned && !s.remote_unreachable
            ==> state_status(s) == SubmoduleStatus::Orphaned,
        !s.is_uninitialized && !s.is_dirty && !s.is_detached && !(s.is_orphaned && !s.remote_unreachable) && ((
        s.remote_unreachable && s.local_head@ != s.parent_pointer@) || (s.ahead_count > 0 && s.behind_count == 0))
            ==> state_status(s) == SubmoduleStatus::AheadOfParent,
        state_status(s) == SubmoduleStatus::Clean <==> (!s.is_uninitialized && !s.is_dirty && !s.is_detached
            && !(s.is_orphaned && !s.remote_unreachable) && !(s.remote_unreachable && s.local_head@
            != s.parent_pointer@) && !(s.ahead_count > 0 && s.behind_count == 0) && !(s.behind_count > 0
            && !s.remote_unreachable)),
        state_status(s) == SubmoduleStatus::BehindRemote ==> s.behind_count > 0 && !s.remote_unreachable,
{
}

pub open spec fn state_status(s: SubmoduleState) -> SubmoduleStatus {
    status_of(
        s.is_uninitialized,
        s.is_dirty,
        s.is_detached,
        s.is_orphaned,
        s.remote_unreachable,
        s.ahead_count as int,
        s.behind_count as int,
        s.local_head@,
        s.parent_pointer@,
    )
}

/// One submodule as a scan found it. Object ids are held as their hex digits.
pub struct Submodule {
    pub name: String,
    pub path: String,
    pub url: String,
    pub tracked_branch: String,
    pub parent_pointer: String,
    pub local_head: String,
    pub remote_head: String,
    pub status: SubmoduleStatus,
    pub ahead_count: usize,
    pub behind_count: usize,
    pub remote_unreachable: bool,
}

/// The statuses of a list of submodules, in order.
pub open spec fn statuses(s: Seq<Submodule>) -> Seq<SubmoduleStatus> {
    s.map_values(|m: Submodule| m.status)
}

/// How many entries of `s` have status `st`.
pub open spec fn count_status(s: Seq<SubmoduleStatus>, st: SubmoduleStatus) -> nat
    decreases s.len(),
{
    if s.len() == 0 {
        0
    } else {
        count_status(s.drop_last(), st) + if s.last() == st {
            1nat
        } else {
            0nat
        }
    }
}

/// The sum of the counts of all seven statuses.
pub open spec fn count_all(s: Seq<SubmoduleStatus>) -> nat {
    count_status(s, SubmoduleStatus::Clean) + count_status(s, SubmoduleStatus::AheadOfParent)
        + count_status(s, SubmoduleStatus::BehindRemote) + count_status(
        s,
        SubmoduleStatus::Detached,
    ) + count_status(s, SubmoduleStatus::Dirty) + count_status(s, SubmoduleStatus::Orphaned)
        + count_status(s, SubmoduleStatus::Uninitialized)
}

pub proof fn lemma_count_all(s: Seq<SubmoduleStatus>)
    ensures
        count_all(s) == s.len(),
    decreases s.len(),
{
    if s.len() > 0 {
        lemma_count_all(s.drop_last());
    }
}

pub proof fn lemma_count_le(s: Seq<SubmoduleStatus>, st: SubmoduleStatus)
    ensures
        count_status(s, st) <= s.len(),
    decreases s.len(),
{
    if s.len() > 0 {
        lemma_count_le(s.drop_last(), st);
    }
}

/// What a scan read from a checked-out submodule: its HEAD commit, whether
/// HEAD is detached, whether the work tree has changes, the commit of the
/// tracked branch on `origin` (none when it could not be read), and the
/// commits from the parent's pointer to HEAD and from HEAD to that remote
/// commit.
pub struct ScanReading {
    pub local_head: String,
    pub is_detached: bool,
    pub is_dirty: bool,
    pub remote_head: Option<String>,
    pub ahead_count: usize,
    pub behind_count: usize,
}

/// The remote head a scan keeps, and whether the remote counts as out of
/// reach: a missing or null remote commit is out of reach and kept as the
/// null id.
pub open spec fn remote_of(remote_head: Option<Seq<char>>) -> (Seq<char>, bool) {
    match remote_head {
        Some(h) => if h == null_oid() {
            (null_oid(), true)
        } else {
            (h, false)
        },
        None => (null_oid(), true),
    }
}

/// The facts of one submodule: one that is not checked out is
/// uninitialised with null ids; else the remote decides reachability, the
/// behind count is dropped when the remote is out of reach, and the
/// submodule is orphaned when the parent points elsewhere than the remote.
pub open spec fn reading_state(parent_pointer: Seq<char>, reading: Option<ScanReading>) -> (
    bool,
    bool,
    bool,
    bool,
    bool,
    nat,
    nat,
    Seq<char>,
    Seq<char>,
) {
    match reading {
        None => (true, false, false, false, false, 0, 0, null_oid(), null_oid()),
        Some(r) => {
            let (remote, unreachable) = remote_of(crate::tag::opt_view(r.remote_head));
            (
                false,
                r.is_dirty,
                r.is_detached,
                !unreachable && parent_pointer != remote,
                unreachable,
                r.ahead_count as nat,
                if unreachable { 0 } else { r.behind_count as nat },
                r.local_head@,
                remote,
            )
        },
    }
}

/// Puts together what a scan found of one submodule: its entry in
/// `.gitmodules`, the commit its parent points to, and what was read from
/// its checkout (none when it is not checked out).
pub fn scanned_submodule(
    name: String,
    path: String,
    url: String,
    tracked_branch: String,
    parent_pointer: String,
    reading: Option<ScanReading>,
) -> (r: Submodule)
    ensures
        ({
            let f = reading_state(parent_pointer@, reading);
            &&& r.name == name
            &&& r.path == path
            &&& r.url == url
            &&& r.tracked_branch == tracked_branch
            &&& r.parent_pointer == parent_pointer
            &&& r.local_head@ == f.7
            &&& r.remote_head@ == f.8
            &&& r.ahead_count == f.5
            &&& r.behind_count == f.6
            &&& r.remote_unreachable == f.4
            &&& r.status == status_of(f.0, f.1, f.2, f.3, f.4, f.5 as int, f.6 as int, f.7, parent_pointer@)
        }),
{
    let ghost f = reading_state(parent_pointer@, reading);
    match reading {
        None => {
            let state = SubmoduleState {
                is_uninitialized: true,
                is_dirty: false,
                is_detached: false,
                is_orphaned: false,
                remote_unreachable: false,
                ahead_count: 0,
                behind_count: 0,
                local_head: null_oid_exec(),
                parent_pointer: parent_pointer.clone(),
            };
            let status = RepoState::determine_submodule_status(&state);
            Submodule {
                name,
                path,
                url,
                tracked_branch,
                parent_pointer,
                local_head: state.local_head,
                remote_head: null_oid_exec(),
                status,
                ahead_count: 0,
                behind_count: 0,
                remote_unreachable: false,
            }
        },
        Some(r) => {
            let null = null_oid_exec();
            let (remote_head, unreachable) = match r.remote_head {
                Some(h) => {
                    if str_eq(h.as_str(), null.as_str()) {
                        (null_oid_exec(), true)
                    } else {
                        (h, false)
                    }
                },
                None => (null_oid_exec(), true),
            };
            let behind: usize = if unreachable { 0 } else { r.behind_count };
            let orphaned = !unreachable && !str_eq(parent_pointer.as_str(), remote_head.as_str());
            let state = SubmoduleState {
                is_uninitialized: false,
                is_dirty: r.is_dirty,
                is_detached: r.is_detached,
                is_orphaned: orphaned,
                remote_unreachable: unreachable,
                ahead_count: r.ahead_count,
                behind_count: behind,
                local_head: r.local_head,
                parent_pointer: parent_pointer.clone(),
            };
            let status = RepoState::determine_submodule_status(&state);
            Submodule {
                name,
                path,
                url,
                tracked_branch,
                parent_pointer,
                local_head: state.local_head,
                remote_head,
                status,
                ahead_count: r.ahead_count,
                behind_count: behind,
                remote_unreachable: unreachable,
            }
        },
    }
}

/// Tallies of submodule statuses over a repository.
pub struct AggregateStatus {
    pub total: usize,
    pub clean: usize,
    pub ahead_of_parent: usize,
    pub behind_remote: usize,
    pub detached: usize,
    pub dirty: usize,
    pub orphaned: usize,
    pub uninitialized: usize,
}

impl Default for AggregateStatus {
    fn default() -> (a: Self)
        ensures
            a.total == 0 && a.clean == 0 && a.ahead_of_parent == 0 && a.behind_remote == 0
                && a.detached == 0 && a.dirty == 0 && a.orphaned == 0 && a.uninitialized == 0,
    {
        AggregateStatus {
            total: 0,
            clean: 0,
            ahead_of_parent: 0,
            behind_remote: 0,
            detached: 0,
            dirty: 0,
            orphaned: 0,
            uninitialized: 0,
        }
    }
}

/// The tallies that describe a list of statuses exactly.
pub open spec fn tallies_of(a: AggregateStatus, s: Seq<SubmoduleStatus>) -> bool {
    &&& a.total == s.len()
    &&& a.clean == count_status(s, SubmoduleStatus::Clean)
    &&& a.ahead_of_parent == count_status(s, SubmoduleStatus::AheadOfParent)
    &&& a.behind_remote == count_status(s, SubmoduleStatus::BehindRemote)
    &&& a.detached == count_status(s, SubmoduleStatus::Detached)
    &&& a.dirty == count_status(s, SubmoduleStatus::Dirty)
    &&& a.orphaned == count_status(s, SubmoduleStatus::Orphaned)
    &&& a.uninitialized == count_status(s, SubmoduleStatus::Uninitialized)
}

impl AggregateStatus {
    /// Counts the submodules of each status.
    pub fn from_submodules(submodules: &[Submodule]) -> (a: Self)
        ensures
            tallies_of(a, statuses(submodules@)),
    {
        let ghost all = statuses(submodules@);
        let mut clean: usize = 0;
        let mut ahead: usize = 0;
        let mut behind: usize = 0;
        let mut detached: usize = 0;
        let mut dirty: usize = 0;
        let mut orphaned: usize = 0;
        let mut uninit: usize = 0;
        let mut i: usize = 0;
        while i < submodules.len()
            invariant
                i <= submodules.len(),
                all == statuses(submodules@),
                clean == count_status(all.take(i as int), SubmoduleStatus::Clean),
                ahead == count_status(all.take(i as int), SubmoduleStatus::AheadOfParent),
                behind == count_status(all.take(i as int), SubmoduleStatus::BehindRemote),
                detached == count_status(all.take(i as int), SubmoduleStatus::Detached),
                dirty == count_status(all.take(i as int), SubmoduleStatus::Dirty),
                orphaned == count_status(all.take(i as int), SubmoduleStatus::Orphaned),
                uninit == count_status(all.take(i as int), SubmoduleStatus::Uninitialized),
            decreases submodules.len() - i,
        {
            let ghost before = all.take(i as int);
            let ghost after = all.take(i + 1);
            proof {
                assert(after.drop_last() =~= before);
                assert(after.last() == submodules@[i as int].status);
                lemma_count_all(before);
            }
            match submodules[i].status {
                SubmoduleStatus::Clean => clean = clean + 1,
                SubmoduleStatus::AheadOfParent => ahead = ahead + 1,
                SubmoduleStatus::BehindRemote => behind = behind + 1,
                SubmoduleStatus::Detached => detached = detached + 1,
                SubmoduleStatus::Dirty => dirty = dirty + 1,
                SubmoduleStatus::Orphaned => orphaned = orphaned + 1,
                SubmoduleStatus::Uninitialized => uninit = uninit + 1,
            }
            i = i + 1;
        }
        proof {
            assert(all.take(submodules.len() as int) =~= all);
        }
        AggregateStatus {
            total: submodules.len(),
            clean,
            ahead_of_parent: ahead,
            behind_remote: behind,
            detached,
            dirty,
            orphaned,
            uninitialized: uninit,
        }
    }
}

/// Every submodule is counted under exactly one status: the tallies add up
/// to the total.
pub proof fn law_tallies_add_up(a: AggregateStatus, s: Seq<SubmoduleStatus>)
    requires
        tallies_of(a, s),
    ensures
        a.clean + a.ahead_of_parent + a.behind_remote + a.detached + a.dirty + a.orphaned
            + a.uninitialized == a.total,
{
    lemma_count_all(s);
}

/// A problem found in one submodule, ready to show.
pub struct HealthIssue {
    pub submodule_name: String,
    pub status: String,
    pub description: String,
    pub suggested_action: String,
}

/// Strict lexicographic order on names, character by character (for text
/// in UTF-8 the same order as byte by byte).
pub open spec fn name_lt(a: Seq<char>, b: Seq<char>) -> bool
    decreases a.len(),
{
    if a.len() == 0 {
        b.len() > 0
    } else if b.len() == 0 {
        false
    } else if a[0] != b[0] {
        (a[0] as u32) < (b[0] as u32)
    } else {
        name_lt(a.drop_first(), b.drop_first())
    }
}

pub proof fn lemma_name_lt_irreflexive(a: Seq<char>, b: Seq<char>)
    ensures
        !(name_lt(a, b) && name_lt(b, a)),
    decreases a.len(),
{
    if a.len() > 0 && b.len() > 0 && a[0] == b[0] {
        lemma_name_lt_irreflexive(a.drop_first(), b.drop_first());
    }
}

pub proof fn lemma_name_lt_transitive(a: Seq<char>, b: Seq<char>, c: Seq<char>)
    requires
        name_lt(a, b),
        name_lt(b, c),
    ensures
        name_lt(a, c),
    decreases a.len(),
{
    if a.len() > 0 && b.len() > 0 && c.len() > 0 && a[0] == b[0] && b[0] == c[0] {
        lemma_name_lt_transitive(a.drop_first(), b.drop_first(), c.drop_first());
    }
}

/// Compares two names in the order of `name_lt`.
pub fn name_less(a: &str, b: &str) -> (r: bool)
    ensures
        r == name_lt(a@, b@),
{
    let x = chars_of(a);
    let y = chars_of(b);
    let mut i: usize = 0;
    assert(x@.skip(0) =~= x@);
    assert(y@.skip(0) =~= y@);
    while i < x.len() && i < y.len() && x[i] == y[i]
        invariant
            i <= x.len(),
            i <= y.len(),
            x@.take(i as int) =~= y@.take(i as int),
            name_lt(x@, y@) == name_lt(x@.skip(i as int), y@.skip(i as int)),
        decreases x.len() - i,
    {
        proof {
            let xs = x@.skip(i as int);
            let ys = y@.skip(i as int);
            assert(xs.drop_first() =~= x@.skip(i + 1));
            assert(ys.drop_first() =~= y@.skip(i + 1));
        }
        i = i + 1;
        assert(x@.take(i as int) =~= y@.take(i as int));
    }
    if i == x.len() {
        i < y.len()
    } else if i == y.len() {
        false
    } else {
        (x[i] as u32) < (y[i] as u32)
    }
}

/// Names sorted into ascending order, equal names allowed side by side.
pub open spec fn sorted_by_name(s: Seq<Submodule>) -> bool {
    forall|i: int, j: int| 0 <= i < j < s.len() ==> !name_lt(#[trigger] s[j].name@, #[trigger] s[i].name@)
}

/// Whether a submodule bears the name `n`.
pub open spec fn has_name(n: Seq<char>) -> spec_fn(Submodule) -> bool {
    |x: Submodule| x.name@ == n
}

/// The submodules named `n`, in their order.
pub open spec fn named(s: Seq<Submodule>, n: Seq<char>) -> Seq<Submodule> {
    s.filter(has_name(n))
}

/// The state of a repository's submodules.
pub struct RepoState {
    pub root_path: String,
    pub submodules: Vec<Submodule>,
    pub total: usize,
    pub clean_count: usize,
    pub needs_attention: Vec<String>,
}

/// The names of the submodules that are not clean, in order.
pub open spec fn attention_names(s: Seq<Submodule>) -> Seq<Seq<char>>
    decreases s.len(),
{
    if s.len() == 0 {
        Seq::empty()
    } else {
        attention_names(s.drop_last()) + if s.last().status != SubmoduleStatus::Clean {
            seq![s.last().name@]
        } else {
            Seq::empty()
        }
    }
}

/// Inserting `x` after every submodule whose name is not greater keeps,
/// for each name, the submodules of that name in their order.
proof fn lemma_insert_keeps_named(
    before: Seq<Submodule>,
    j: int,
    x: Submodule,
    rest0: Seq<Submodule>,
    rest: Seq<Submodule>,
    initial: Seq<Submodule>,
)
    requires
        0 <= j <= before.len(),
        sorted_by_name(before),
        j < before.len() ==> name_lt(x.name@, before[j].name@),
        rest0 == seq![x] + rest,
        forall|n: Seq<char>| #[trigger] named(initial, n) == named(before, n) + named(rest0, n),
    ensures
        forall|n: Seq<char>| #[trigger] named(initial, n) == named(before.insert(j, x), n) + named(rest, n),
{
    assert forall|n: Seq<char>| #[trigger] named(initial, n) == named(before.insert(j, x), n) + named(rest, n) by {
        let p = has_name(n);
        let a = before.take(j);
        let b = before.skip(j);
        assert(before =~= a + b);
        assert(before.insert(j, x) =~= a + seq![x] + b);
        Seq::filter_distributes_over_add(a, b, p);
        Seq::filter_distributes_over_add(a + seq![x], b, p);
        Seq::filter_distributes_over_add(a, seq![x], p);
        rest.lemma_filter_prepend(x, p);
        Seq::<Submodule>::empty().lemma_filter_prepend(x, p);
        Seq::<Submodule>::empty().lemma_filter_len(p);
        assert(seq![x] + Seq::<Submodule>::empty() =~= seq![x]);
        assert(Seq::<Submodule>::empty().filter(p) =~= Seq::<Submodule>::empty());
        if x.name@ == n {
            assert forall|k: int| 0 <= k < b.len() implies !p(#[trigger] b[k]) by {
                assert(b[k] == before[j + k]);
                if b[k].name@ == n {
                    if k > 0 {
                        assert(!name_lt(before[j + k].name@, before[j].name@));
                    } else {
                        lemma_name_lt_irreflexive(x.name@, before[j].name@);
                    }
                }
            }
            assert(b.all(|y: Submodule| !p(y)));
            b.lemma_all_neg_filter_empty(p);
            assert(b.filter(p) =~= Seq::<Submodule>::empty());
            assert(named(before.insert(j, x), n) + named(rest, n) =~= named(before, n) + named(rest0, n));
        } else {
            assert(named(before.insert(j, x), n) + named(rest, n) =~= named(before, n) + named(rest0, n));
        }
    }
}

impl RepoState {
    /// Decides the status of a submodule from the facts a scan collected.
    pub fn determine_submodule_status(state: &SubmoduleState) -> (r: SubmoduleStatus)
        ensures
            r == state_status(*state),
    {
        if state.is_uninitialized {
            return SubmoduleStatus::Uninitialized;
        }
        if state.is_dirty {
            return SubmoduleStatus::Dirty;
        }
        if state.is_detached {
            return SubmoduleStatus::Detached;
        }
        if state.is_orphaned && !state.remote_unreachable {
            return SubmoduleStatus::Orphaned;
        }
        if (state.remote_unreachable && !str_eq(
            state.local_head.as_str(),
            state.parent_pointer.as_str(),
        )) || (state.ahead_count > 0 && state.behind_count == 0) {
            return SubmoduleStatus::AheadOfParent;
        }
        if state.behind_count > 0 && !state.remote_unreachable {
            return SubmoduleStatus::BehindRemote;
        }
        SubmoduleStatus::Clean
    }

    /// The repository state for `root`: the submodules sorted by name (a
    /// stable sort: submodules of one name keep their order), how many there
    /// are, how many are clean, and the names of the others.
    pub fn build_repo_state(root: &str, submodules: Vec<Submodule>) -> (r: RepoState)
        ensures
            r.root_path@ == root@,
            r.submodules@.to_multiset() == submodules@.to_multiset(),
            sorted_by_name(r.submodules@),
            forall|n: Seq<char>| #[trigger] named(r.submodules@, n) == named(submodules@, n),
            r.total == submodules@.len(),
            r.clean_count == count_status(statuses(r.submodules@), SubmoduleStatus::Clean),
            views_of(r.needs_attention@) == attention_names(r.submodules@),
            r.clean_count + r.needs_attention@.len() == r.total,
    {
        let mut rest = submodules;
        let mut sorted: Vec<Submodule> = Vec::new();
        let ghost initial = rest@;
        proof {
            broadcast use vstd::seq_lib::group_to_multiset_ensures;
            broadcast use vstd::multiset::group_multiset_axioms;
            assert(sorted@.to_multiset().add(rest@.to_multiset()) =~= initial.to_multiset());
            assert forall|n: Seq<char>| #[trigger] named(initial, n) == named(sorted@, n) + named(rest@, n) by {
                Seq::<Submodule>::empty().lemma_filter_len(has_name(n));
                assert(named(sorted@, n) =~= Seq::<Submodule>::empty());
                assert(named(sorted@, n) + named(rest@, n) =~= named(rest@, n));
            }
        }
        while rest.len() > 0
            invariant
                sorted@.to_multiset().add(rest@.to_multiset()) == initial.to_multiset(),
                sorted_by_name(sorted@),
                sorted@.len() + rest@.len() == initial.len(),
                forall|n: Seq<char>| #[trigger] named(initial, n) == named(sorted@, n) + named(rest@, n),
            decreases rest.len(),
        {
            let ghost rest0 = rest@;
            let x = rest.remove(0);
            proof {
                assert(rest0.remove(0) =~= rest@);
                vstd::seq_lib::to_multiset_remove(rest0, 0);
                vstd::seq_lib::to_multiset_contains(rest0, x);
                assert(rest0.contains(x)) by {
                    assert(rest0[0] == x);
                }
                assert(rest0 =~= seq![x] + rest@);
            }
            let mut j: usize = 0;
            while j < sorted.len() && !name_less(x.name.as_str(), sorted[j].name.as_str())
                invariant
                    j <= sorted.len(),
                    forall|k: int| 0 <= k < j ==> !name_lt(x.name@, #[trigger] sorted@[k].name@),
                decreases sorted.len() - j,
            {
                j = j + 1;
            }
            let ghost before = sorted@;
            proof {
                assert forall|k: int| j <= k < before.len() implies !name_lt(
                    #[trigger] before[k].name@,
                    x.name@,
                ) by {
                    if name_lt(before[k].name@, x.name@) {
                        lemma_name_lt_transitive(before[k].name@, x.name@, before[j as int].name@);
                        if k > j {
                            assert(!name_lt(before[k].name@, before[j as int].name@));
                        } else {
                            lemma_name_lt_irreflexive(before[k].name@, x.name@);
                        }
                    }
                }
            }
            sorted.insert(j, x);
            proof {
                lemma_insert_keeps_named(before, j as int, x, rest0, rest@, initial);
                vstd::seq_lib::to_multiset_insert(before, j as int, x);
                assert(sorted@.to_multiset().add(rest@.to_multiset()) =~= initial.to_multiset()) by {
                    broadcast use vstd::multiset::group_multiset_axioms;
                }
                assert forall|a: int, b: int| 0 <= a < b < sorted@.len() implies !name_lt(
                    #[trigger] sorted@[b].name@,
                    #[trigger] sorted@[a].name@,
                ) by {
                    if a < j && b < j {
                        assert(sorted@[a] == before[a]);
                        assert(sorted@[b] == before[b]);
                    } else if a < j && b == j {
                        assert(sorted@[a] == before[a]);
                    } else if a < j && b > j {
                        assert(sorted@[a] == before[a]);
                        assert(sorted@[b] == before[b - 1]);
                    } else if a == j {
                        assert(sorted@[b] == before[b - 1]);
                    } else {
                        assert(sorted@[a] == before[a - 1]);
                        assert(sorted@[b] == before[b - 1]);
                    }
                }
            }
        }
        proof {
            broadcast use vstd::seq_lib::group_to_multiset_ensures;
            broadcast use vstd::multiset::group_multiset_axioms;
            assert(rest@.len() == 0);
            assert(rest@.to_multiset().len() == 0);
            assert(sorted@.to_multiset() =~= initial.to_multiset());
        }
        let total = sorted.len();
        let mut clean_count: usize = 0;
        let mut needs_attention: Vec<String> = Vec::new();
        let mut i: usize = 0;
        while i < sorted.len()
            invariant
                i <= sorted.len(),
                clean_count == count_status(statuses(sorted@.take(i as int)), SubmoduleStatus::Clean),
                views_of(needs_attention@) == attention_names(sorted@.take(i as int)),
            decreases sorted.len() - i,
        {
            proof {
                let t = sorted@.take(i + 1);
                assert(t.drop_last() =~= sorted@.take(i as int));
                assert(statuses(t).drop_last() =~= statuses(sorted@.take(i as int)));
                lemma_count_le(statuses(sorted@.take(i as int)), SubmoduleStatus::Clean);
            }
            if sorted[i].status == SubmoduleStatus::Clean {
                clean_count = clean_count + 1;
            } else {
                let n = sorted[i].name.clone();
                let ghost old_names = needs_attention@;
                needs_attention.push(n);
                proof {
                    assert(views_of(needs_attention@) =~= views_of(old_names) + seq![n@]);
                }
            }
            i = i + 1;
        }
        proof {
            assert(sorted@.take(sorted@.len() as int) =~= sorted@);
            law_clean_and_attention_cover_all(sorted@);
            assert(needs_attention@.len() == views_of(needs_attention@).len());
            assert(sorted@.len() == submodules@.len()) by {
                broadcast use vstd::seq_lib::group_to_multiset_ensures;
            }
        }
        RepoState {
            root_path: root.to_owned(),
            submodules: sorted,
            total,
            clean_count,
            needs_attention,
        }
    }
}

/// Law: in a repository state, every submodule is either clean or named
/// among those that need attention.
pub proof fn law_clean_and_attention_cover_all(s: Seq<Submodule>)
    ensures
        count_status(statuses(s), SubmoduleStatus::Clean) + attention_names(s).len() == s.len(),
    decreases s.len(),
{
    if s.len() > 0 {
        law_clean_and_attention_cover_all(s.drop_last());
        assert(statuses(s).drop_last() =~= statuses(s.drop_last()));
        assert(statuses(s).last() == s.last().status);
    }
}

pub open spec fn views_of(v: Seq<String>) -> Seq<Seq<char>> {
    v.map_values(|s: String| s@)
}

// ───────────────────────────── counting commits ─────────────────────────────

/// Where a walk along first parents stops, counted in steps from the start
/// of `chain` and looking at step `k`: at `from`, at the last commit that
/// could be read, or once more than 10000 steps were taken.
pub open spec fn walk_stop(chain: Seq<Seq<char>>, from: Seq<char>, k: int) -> int
    decreases chain.len() - k,
{
    if k < 0 || k >= chain.len() - 1 || chain[k] == from || k > 10000 {
        k
    } else {
        walk_stop(chain, from, k + 1)
    }
}

pub open spec fn chain_views(v: Seq<String>) -> Seq<Seq<char>> {
    v.map_values(|s: String| s@)
}

/// The commits between `from` and a commit, counted by walking first
/// parents: `chain` is that commit followed by its first parents, as far as
/// they could be read. The count stops at `from`, at the end of the chain,
/// or after 10001 steps.
pub fn count_between(chain: &[String], from: &str) -> (r: usize)
    ensures
        r == walk_stop(chain_views(chain@), from@, 0),
{
    let ghost cv = chain_views(chain@);
    let mut k: usize = 0;
    while chain.len() > 0 && k < chain.len() - 1 && !str_eq(chain[k].as_str(), from) && k <= 10000
        invariant
            cv == chain_views(chain@),
            chain.len() == 0 ==> k == 0,
            chain.len() > 0 ==> k < chain.len(),
            walk_stop(cv, from@, k as int) == walk_stop(cv, from@, 0),
        decreases chain.len() - k,
    {
        assert(cv[k as int] == chain@[k as int]@);
        k = k + 1;
    }
    proof {
        if chain.len() > 0 {
            assert(cv[k as int] == chain@[k as int]@);
        }
    }
    k
}

} // verus!
