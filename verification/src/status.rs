//! Release status: where each scope stands in its release cycle, and the
//! report that lists them.

use vstd::prelude::*;
use crate::release::{distinct_names, pair_views, string_views};
use crate::tag::{opt_view, str_eq};
use crate::text::{append, append_str, chars_of, contains, contains_exec, decimal, decimal_exec, string_of};

verus! {

/// The stage of a scope's release cycle.
#[derive(Debug, Clone, Copy, PartialEq, Eq, Structural)]
pub enum ReleaseStatus {
    /// No tag has been made for the scope.
    Unreleased,
    /// Released, with no commits since.
    Latest,
    /// Commits have landed since the last release.
    Pending,
    /// The tag and the changelog disagree.
    Inconsistent,
    /// The state could not be determined.
    Unknown,
}

/// The label the report shows for a status.
pub open spec fn status_label(s: ReleaseStatus) -> Seq<char> {
    match s {
        ReleaseStatus::Unreleased => "未发布"@,
        ReleaseStatus::Latest => "已是最新"@,
        ReleaseStatus::Pending => "待发布"@,
        ReleaseStatus::Inconsistent => "版本冲突"@,
        ReleaseStatus::Unknown => "状态未知"@,
    }
}

impl ReleaseStatus {
    pub fn label(&self) -> (r: String)
        ensures
            r@ == status_label(*self),
    {
        match self {
            ReleaseStatus::Unreleased => "未发布".to_owned(),
            ReleaseStatus::Latest => "已是最新".to_owned(),
            ReleaseStatus::Pending => "待发布".to_owned(),
            ReleaseStatus::Inconsistent => "版本冲突".to_owned(),
            ReleaseStatus::Unknown => "状态未知".to_owned(),
        }
    }
}

/// A snapshot of one scope's release state.
#[derive(Debug)]
pub struct ReleaseState {
    pub status: ReleaseStatus,
    pub scope: String,
    pub scope_path: String,
    pub current_version: Option<String>,
    pub pending_commits: usize,
    pub changelog: String,
    pub version_consistent: Option<bool>,
}

pub type StateView = (ReleaseStatus, Seq<char>, Seq<char>, Option<Seq<char>>, nat, Seq<char>, Option<bool>);

impl View for ReleaseState {
    type V = StateView;

    open spec fn view(&self) -> StateView {
        (
            self.status,
            self.scope@,
            self.scope_path@,
            opt_view(self.current_version),
            self.pending_commits as nat,
            self.changelog@,
            self.version_consistent,
        )
    }
}

pub open spec fn state_views(s: Seq<ReleaseState>) -> Seq<StateView> {
    s.map_values(|x: ReleaseState| x@)
}

/// The status of a tagged scope from the number of commits since its tag
/// (none when that could not be counted) and whether its changelog records
/// the tag; with the number of pending commits to show.
pub open spec fn classify_spec(count: Option<usize>, version_consistent: Option<bool>) -> (ReleaseStatus, nat) {
    match count {
        None => (ReleaseStatus::Unknown, 0),
        Some(n) => if version_consistent == Some(false) {
            (ReleaseStatus::Inconsistent, n as nat)
        } else if n > 0 {
            (ReleaseStatus::Pending, n as nat)
        } else {
            (ReleaseStatus::Latest, n as nat)
        },
    }
}

/// Law: how a tagged scope's status follows from the commits since its tag
/// and its changelog. An unknown count makes it Unknown with nothing
/// pending. With a known count, a changelog that does not record the tag
/// makes it Inconsistent whatever the count, `0` included; otherwise
/// commits since the tag make it Pending and none make it Latest. The count
/// shown is the count found.
pub proof fn law_status_from_count(count: Option<usize>, version_consistent: Option<bool>)
    ensures
        count is None ==> classify_spec(count, version_consistent) == (ReleaseStatus::Unknown, 0nat),
        count is Some ==> classify_spec(count, version_consistent).1 == count.unwrap() as nat,
        count is Some && version_consistent == Some(false) ==> classify_spec(count, version_consistent).0
            == ReleaseStatus::Inconsistent,
        count is Some && version_consistent != Some(false) && count.unwrap() > 0 ==> classify_spec(
            count,
            version_consistent,
        ).0 == ReleaseStatus::Pending,
        count == Some(0usize) && version_consistent != Some(false) ==> classify_spec(count, version_consistent).0
            == ReleaseStatus::Latest,
        classify_spec(count, version_consistent).0 != ReleaseStatus::Unreleased,
{
}

pub fn classify(count: Option<usize>, version_consistent: Option<bool>) -> (r: (ReleaseStatus, usize))
    ensures
        (r.0, r.1 as nat) == classify_spec(count, version_consistent),
{
    match count {
        None => (ReleaseStatus::Unknown, 0),
        Some(n) => {
            if version_consistent == Some(false) {
                (ReleaseStatus::Inconsistent, n)
            } else if n > 0 {
                (ReleaseStatus::Pending, n)
            } else {
                (ReleaseStatus::Latest, n)
            }
        },
    }
}

/// Whether a scope's changelog records a tag: not when the file is missing,
/// unknown when it could not be read, else whether its text holds the tag.
pub open spec fn check_changelog_spec(exists: bool, content: Option<Seq<char>>, version: Seq<char>) -> Option<bool> {
    if !exists {
        Some(false)
    } else {
        match content {
            None => None,
            Some(c) => Some(contains(c, version)),
        }
    }
}

/// Law: a scope's changelog agrees with its tag exactly when the file
/// exists, could be read, and mentions the tag somewhere; a missing file
/// disagrees, an unreadable one leaves the question open.
pub proof fn law_changelog_agrees(exists: bool, content: Option<Seq<char>>, version: Seq<char>)
    ensures
        !exists ==> check_changelog_spec(exists, content, version) == Some(false),
        exists && content is None ==> check_changelog_spec(exists, content, version) is None,
        exists && content is Some ==> (check_changelog_spec(exists, content, version) == Some(true) <==> exists|i: int|
            0 <= i && i + version.len() <= content.unwrap().len() && #[trigger] content.unwrap().subrange(
                i,
                i + version.len(),
            ) == version),
{
    if exists && content is Some {
        let c = content.unwrap();
        if contains(c, version) {
            let i = choose|i: int| crate::text::matches_at(c, version, i);
            assert(c.subrange(i, i + version.len()) == version);
        }
        if exists|i: int|
            0 <= i && i + version.len() <= c.len() && #[trigger] c.subrange(i, i + version.len()) == version {
            let i = choose|i: int|
                0 <= i && i + version.len() <= c.len() && #[trigger] c.subrange(i, i + version.len()) == version;
            assert(crate::text::matches_at(c, version, i));
        }
    }
}

pub fn check_changelog(exists: bool, content: Option<&str>, version: &str) -> (r: Option<bool>)
    ensures
        r == check_changelog_spec(
            exists,
            match content {
                Some(c) => Some(c@),
                None => None,
            },
            version@,
        ),
{
    if !exists {
        return Some(false);
    }
    match content {
        None => None,
        Some(c) => {
            let cv = chars_of(c);
            let vv = chars_of(version);
            Some(contains_exec(cv.as_slice(), vv.as_slice()))
        },
    }
}

/// What was found out about a scope that has a tag: its newest tag, its
/// directory relative to the repository, whether its changelog records the
/// tag, and how many commits touched it since (none when git failed).
pub struct TagProbe {
    pub scope: String,
    pub tag: String,
    pub scope_path: String,
    pub version_consistent: Option<bool>,
    pub pending: Option<usize>,
}

pub type ProbeView = (Seq<char>, Seq<char>, Seq<char>, Option<bool>, Option<usize>);

pub open spec fn probe_views(s: Seq<TagProbe>) -> Seq<ProbeView> {
    s.map_values(|p: TagProbe| (p.scope@, p.tag@, p.scope_path@, p.version_consistent, p.pending))
}

/// The state of a tagged scope.
pub open spec fn tagged_state(p: ProbeView) -> StateView {
    let c = classify_spec(p.4, p.3);
    (c.0, p.0, p.2, Some(p.1), c.1, "CHANGELOG.md"@, p.3)
}

/// Whether some probe is for the scope `name`.
pub open spec fn is_tagged(probes: Seq<ProbeView>, name: Seq<char>) -> bool {
    exists|i: int| 0 <= i < probes.len() && #[trigger] probes[i].0 == name
}

/// The states of the scopes of the contract that have no tag, in the
/// contract's order; the root scope is shown with an empty path.
pub open spec fn untagged_states(scopes: Seq<(Seq<char>, Seq<char>)>, probes: Seq<ProbeView>) -> Seq<StateView>
    decreases scopes.len(),
{
    if scopes.len() == 0 {
        Seq::empty()
    } else {
        let rest = untagged_states(scopes.drop_last(), probes);
        let (name, dir) = scopes.last();
        if is_tagged(probes, name) {
            rest
        } else {
            rest.push(
                (
                    ReleaseStatus::Unreleased,
                    name,
                    if name == "(root)"@ {
                        Seq::empty()
                    } else {
                        dir
                    },
                    None,
                    0nat,
                    "CHANGELOG.md"@,
                    None,
                ),
            )
        }
    }
}

/// Every scope's release state: first the tagged scopes in the order of
/// their probes, then the untagged scopes of the contract.
pub open spec fn collect_spec(scopes: Seq<(Seq<char>, Seq<char>)>, probes: Seq<ProbeView>) -> Seq<StateView> {
    probes.map_values(|p: ProbeView| tagged_state(p)) + untagged_states(scopes, probes)
}

proof fn lemma_untagged_unreleased(scopes: Seq<(Seq<char>, Seq<char>)>, probes: Seq<ProbeView>)
    ensures
        forall|i: int| 0 <= i < untagged_states(scopes, probes).len() ==> {
            let st = #[trigger] untagged_states(scopes, probes)[i];
            &&& st.0 == ReleaseStatus::Unreleased
            &&& st.3 is None
            &&& !is_tagged(probes, st.1)
        },
    decreases scopes.len(),
{
    if scopes.len() > 0 {
        lemma_untagged_unreleased(scopes.drop_last(), probes);
    }
}

/// Law: the scopes found tagged come first and are never reported
/// unreleased, each with its tag as current version; every other state is
/// an unreleased scope of the contract that no probe covers.
pub proof fn law_tagged_then_unreleased(scopes: Seq<(Seq<char>, Seq<char>)>, probes: Seq<ProbeView>)
    ensures
        forall|i: int| 0 <= i < probes.len() ==> {
            let st = #[trigger] collect_spec(scopes, probes)[i];
            &&& st.0 != ReleaseStatus::Unreleased
            &&& st.1 == probes[i].0
            &&& st.3 == Some(probes[i].1)
        },
        forall|i: int| probes.len() <= i < collect_spec(scopes, probes).len() ==> {
            let st = #[trigger] collect_spec(scopes, probes)[i];
            &&& st.0 == ReleaseStatus::Unreleased
            &&& st.3 is None
            &&& !is_tagged(probes, st.1)
        },
{
    lemma_untagged_unreleased(scopes, probes);
    let tagged = probes.map_values(|p: ProbeView| tagged_state(p));
    let untagged = untagged_states(scopes, probes);
    assert forall|i: int| probes.len() <= i < collect_spec(scopes, probes).len() implies {
        let st = #[trigger] collect_spec(scopes, probes)[i];
        &&& st.0 == ReleaseStatus::Unreleased
        &&& st.3 is None
        &&& !is_tagged(probes, st.1)
    } by {
        assert(collect_spec(scopes, probes)[i] == untagged[i - probes.len()]);
    }
}

/// The scope names of the probes are distinct.
pub open spec fn probes_distinct(probes: Seq<ProbeView>) -> bool {
    forall|i: int, j: int| 0 <= i < j < probes.len() ==> #[trigger] probes[i].0 != #[trigger] probes[j].0
}

/// Some scope of the contract has that name.
pub open spec fn in_contract(scopes: Seq<(Seq<char>, Seq<char>)>, name: Seq<char>) -> bool {
    exists|i: int| 0 <= i < scopes.len() && #[trigger] scopes[i].0 == name
}

/// The contract's scopes that no probe covers.
pub open spec fn untagged_count(scopes: Seq<(Seq<char>, Seq<char>)>, probes: Seq<ProbeView>) -> nat
    decreases scopes.len(),
{
    if scopes.len() == 0 {
        0
    } else {
        untagged_count(scopes.drop_last(), probes) + if is_tagged(probes, scopes.last().0) {
            0nat
        } else {
            1nat
        }
    }
}

proof fn lemma_untagged_names(scopes: Seq<(Seq<char>, Seq<char>)>, probes: Seq<ProbeView>)
    requires
        distinct_names(scopes),
    ensures
        untagged_states(scopes, probes).len() == untagged_count(scopes, probes),
        forall|i: int, j: int|
            0 <= i < j < untagged_states(scopes, probes).len() ==> #[trigger] untagged_states(scopes, probes)[i].1
                != #[trigger] untagged_states(scopes, probes)[j].1,
        forall|j: int|
            0 <= j < untagged_states(scopes, probes).len() ==> in_contract(
                scopes,
                #[trigger] untagged_states(scopes, probes)[j].1,
            ),
        forall|i: int|
            0 <= i < scopes.len() && !is_tagged(probes, #[trigger] scopes[i].0) ==> exists|j: int|
                0 <= j < untagged_states(scopes, probes).len() && untagged_states(scopes, probes)[j].1 == scopes[i].0,
    decreases scopes.len(),
{
    if scopes.len() > 0 {
        let init = scopes.drop_last();
        assert(distinct_names(init)) by {
            assert forall|i: int, j: int| 0 <= i < j < init.len() implies #[trigger] init[i].0 != #[trigger] init[j].0 by {
                assert(init[i] == scopes[i] && init[j] == scopes[j]);
            }
        }
        lemma_untagged_names(init, probes);
        let rest = untagged_states(init, probes);
        let now = untagged_states(scopes, probes);
        let last = scopes.last();
        assert forall|j: int| 0 <= j < rest.len() implies #[trigger] rest[j].1 != last.0 by {
            assert(in_contract(init, rest[j].1));
            let i = choose|i: int| 0 <= i < init.len() && #[trigger] init[i].0 == rest[j].1;
            assert(scopes[i] == init[i]);
        }
        assert forall|j: int| 0 <= j < now.len() implies in_contract(scopes, #[trigger] now[j].1) by {
            if j < rest.len() {
                assert(now[j] == rest[j]);
                let i = choose|i: int| 0 <= i < init.len() && #[trigger] init[i].0 == rest[j].1;
                assert(scopes[i] == init[i]);
            } else {
                assert(now[j].1 == last.0);
                assert(scopes[scopes.len() - 1].0 == last.0);
            }
        }
        assert forall|i: int| 0 <= i < scopes.len() && !is_tagged(probes, #[trigger] scopes[i].0) implies exists|j: int|
            0 <= j < now.len() && now[j].1 == scopes[i].0 by {
            if i < scopes.len() - 1 {
                assert(init[i] == scopes[i]);
                let j = choose|j: int| 0 <= j < rest.len() && rest[j].1 == init[i].0;
                assert(now[j] == rest[j]);
            } else {
                assert(now[now.len() - 1].1 == last.0);
            }
        }
    }
}

/// Law: with distinct scope names among the probes and among the contract's
/// scopes (as the scope map gives them), every scope is reported exactly
/// once: one state per probe and one per contract scope without a probe,
/// each scope of either among the states, and no name twice.
pub proof fn law_each_scope_once(scopes: Seq<(Seq<char>, Seq<char>)>, probes: Seq<ProbeView>)
    requires
        distinct_names(scopes),
        probes_distinct(probes),
    ensures
        collect_spec(scopes, probes).len() == probes.len() + untagged_count(scopes, probes),
        forall|i: int, j: int|
            0 <= i < j < collect_spec(scopes, probes).len() ==> #[trigger] collect_spec(scopes, probes)[i].1
                != #[trigger] collect_spec(scopes, probes)[j].1,
        forall|i: int| 0 <= i < probes.len() ==> #[trigger] collect_spec(scopes, probes)[i].1 == probes[i].0,
        forall|i: int|
            0 <= i < scopes.len() ==> exists|j: int|
                0 <= j < collect_spec(scopes, probes).len() && collect_spec(scopes, probes)[j].1
                    == #[trigger] scopes[i].0,
        forall|j: int|
            0 <= j < collect_spec(scopes, probes).len() ==> is_tagged(probes, #[trigger] collect_spec(scopes, probes)[j].1)
                || in_contract(scopes, collect_spec(scopes, probes)[j].1),
{
    lemma_untagged_names(scopes, probes);
    lemma_untagged_unreleased(scopes, probes);
    let r = collect_spec(scopes, probes);
    let n = probes.len();
    let u = untagged_states(scopes, probes);
    assert forall|i: int| 0 <= i < n implies #[trigger] r[i].1 == probes[i].0 by {}
    assert forall|j: int| n <= j < r.len() implies #[trigger] r[j] == u[j - n] by {}
    assert forall|i: int, j: int| 0 <= i < j < r.len() implies #[trigger] r[i].1 != #[trigger] r[j].1 by {
        if j < n {
        } else if i < n {
            assert(r[j] == u[j - n]);
            assert(!is_tagged(probes, u[j - n].1));
            assert(probes[i].0 == r[i].1);
        } else {
            assert(r[i] == u[i - n]);
            assert(r[j] == u[j - n]);
        }
    }
    assert forall|i: int| 0 <= i < scopes.len() implies exists|j: int|
        0 <= j < r.len() && r[j].1 == #[trigger] scopes[i].0 by {
        if is_tagged(probes, scopes[i].0) {
            let k = choose|k: int| 0 <= k < probes.len() && #[trigger] probes[k].0 == scopes[i].0;
            assert(r[k].1 == probes[k].0);
        } else {
            let j = choose|j: int| 0 <= j < u.len() && u[j].1 == scopes[i].0;
            assert(r[j + n] == u[j]);
        }
    }
    assert forall|j: int| 0 <= j < r.len() implies is_tagged(probes, #[trigger] r[j].1) || in_contract(scopes, r[j].1) by {
        if j < n {
            assert(probes[j].0 == r[j].1);
        } else {
            assert(r[j] == u[j - n]);
        }
    }
}

fn probe_has_scope(probes: &[TagProbe], name: &str) -> (r: bool)
    ensures
        r == is_tagged(probe_views(probes@), name@),
{
    let ghost pv = probe_views(probes@);
    let mut i: usize = 0;
    while i < probes.len()
        invariant
            i <= probes.len(),
            pv == probe_views(probes@),
            forall|k: int| 0 <= k < i ==> #[trigger] pv[k].0 != name@,
        decreases probes.len() - i,
    {
        if str_eq(probes[i].scope.as_str(), name) {
            assert(pv[i as int].0 == name@);
            return true;
        }
        i = i + 1;
    }
    false
}

impl ReleaseState {
    /// Gathers the release state of every scope from the contract's scope map
    /// and what was found out about the tagged scopes.
    pub fn collect_all(scopes_map: &[(String, String)], probes: &[TagProbe]) -> (r: Vec<ReleaseState>)
        ensures
            state_views(r@) == collect_spec(pair_views(scopes_map@), probe_views(probes@)),
    {
        let ghost pv = probe_views(probes@);
        let ghost sv = pair_views(scopes_map@);
        let mut states: Vec<ReleaseState> = Vec::new();
        let mut i: usize = 0;
        while i < probes.len()
            invariant
                i <= probes.len(),
                pv == probe_views(probes@),
                state_views(states@) == pv.take(i as int).map_values(|p: ProbeView| tagged_state(p)),
            decreases probes.len() - i,
        {
            let p = &probes[i];
            let (status, pending_commits) = classify(p.pending, p.version_consistent);
            let st = ReleaseState {
                status,
                scope: p.scope.clone(),
                scope_path: p.scope_path.clone(),
                current_version: Some(p.tag.clone()),
                pending_commits,
                changelog: "CHANGELOG.md".to_owned(),
                version_consistent: p.version_consistent,
            };
            let ghost before = states@;
            states.push(st);
            proof {
                assert(pv[i as int] == (p.scope@, p.tag@, p.scope_path@, p.version_consistent, p.pending));
                assert(state_views(states@) =~= state_views(before).push(st@));
                assert(pv.take(i + 1) =~= pv.take(i as int).push(pv[i as int]));
                assert(pv.take(i + 1).map_values(|p: ProbeView| tagged_state(p)) =~= pv.take(
                    i as int,
                ).map_values(|p: ProbeView| tagged_state(p)).push(tagged_state(pv[i as int])));
            }
            i = i + 1;
        }
        assert(pv.take(probes.len() as int) =~= pv);
        let ghost tagged = state_views(states@);
        let mut k: usize = 0;
        proof {
            reveal_strlit("(root)");
            assert(untagged_states(sv.take(0), pv) =~= Seq::<StateView>::empty());
            assert(tagged + Seq::<StateView>::empty() =~= tagged);
        }
        while k < scopes_map.len()
            invariant
                k <= scopes_map.len(),
                pv == probe_views(probes@),
                sv == pair_views(scopes_map@),
                state_views(states@) == tagged + untagged_states(sv.take(k as int), pv),
            decreases scopes_map.len() - k,
        {
            let (name, dir) = (&scopes_map[k].0, &scopes_map[k].1);
            proof {
                assert(sv.take(k + 1).drop_last() =~= sv.take(k as int));
                assert(sv.take(k + 1).last() == (name@, dir@));
            }
            if !probe_has_scope(probes, name.as_str()) {
                let scope_path = if str_eq(name.as_str(), "(root)") {
                    String::new()
                } else {
                    dir.clone()
                };
                let st = ReleaseState {
                    status: ReleaseStatus::Unreleased,
                    scope: name.clone(),
                    scope_path,
                    current_version: None,
                    pending_commits: 0,
                    changelog: "CHANGELOG.md".to_owned(),
                    version_consistent: None,
                };
                let ghost before = states@;
                states.push(st);
                proof {
                    assert(state_views(states@) =~= state_views(before).push(st@));
                }
            }
            k = k + 1;
        }
        assert(sv.take(scopes_map.len() as int) =~= sv);
        states
    }
}

// ───────────────────────────── the report ─────────────────────────────

/// A line of 40 box-drawing dashes.
pub open spec fn rule_line() -> Seq<char> {
    Seq::new(40, |i: int| '─')
}

/// The English name of a status, as the block's first line shows it.
pub open spec fn status_name(s: ReleaseStatus) -> Seq<char> {
    match s {
        ReleaseStatus::Unreleased => "Unreleased"@,
        ReleaseStatus::Latest => "Latest"@,
        ReleaseStatus::Pending => "Pending"@,
        ReleaseStatus::Inconsistent => "Inconsistent"@,
        ReleaseStatus::Unknown => "Unknown"@,
    }
}

impl ReleaseStatus {
    pub fn name(&self) -> (r: &'static str)
        ensures
            r@ == status_name(*self),
    {
        match self {
            ReleaseStatus::Unreleased => "Unreleased",
            ReleaseStatus::Latest => "Latest",
            ReleaseStatus::Pending => "Pending",
            ReleaseStatus::Inconsistent => "Inconsistent",
            ReleaseStatus::Unknown => "Unknown",
        }
    }
}

/// `t` filled with spaces on the right to `width` characters.
pub open spec fn pad_right(t: Seq<char>, width: nat) -> Seq<char> {
    if t.len() >= width {
        t
    } else {
        t + Seq::new((width - t.len()) as nat, |i: int| ' ')
    }
}

/// The first line of a scope's block: its bracketed name in a column of 24
/// characters, then the status's name.
pub open spec fn head_line(s: StateView) -> Seq<char> {
    "  "@ + pad_right("["@ + s.1 + "]"@, 24) + status_name(s.0) + "\n"@
}

/// The path shown for a scope: `.` for the repository's root.
pub open spec fn shown_path(p: Seq<char>) -> Seq<char> {
    if p.len() == 0 {
        "."@
    } else {
        p
    }
}

pub open spec fn path_line(s: StateView) -> Seq<char> {
    "    路径:         "@ + shown_path(s.2) + "\n"@
}

pub open spec fn status_line(s: StateView) -> Seq<char> {
    "    状态:         "@ + status_label(s.0) + "\n"@
}

pub open spec fn tag_line(s: StateView) -> Seq<char> {
    match s.3 {
        Some(v) => "    最新标签:     "@ + v + "\n"@,
        None => "    最新标签:     (无)\n"@,
    }
}

pub open spec fn pending_line(s: StateView) -> Seq<char> {
    "    未发布提交:   "@ + decimal(s.4) + "\n"@
}

pub open spec fn changelog_line(s: StateView) -> Seq<char> {
    "    变更日志:     "@ + s.5 + "\n"@
}

pub open spec fn consistency_line(s: StateView) -> Seq<char> {
    match s.6 {
        Some(true) => "    版本一致:     是\n"@,
        Some(false) => "    版本一致:     否\n"@,
        None => Seq::empty(),
    }
}

/// The lines of the report for one scope.
pub open spec fn state_block(s: StateView) -> Seq<char> {
    head_line(s) + path_line(s) + tag_line(s) + pending_line(s) + status_line(s) + changelog_line(s)
        + consistency_line(s)
}

pub open spec fn blocks(s: Seq<StateView>) -> Seq<char>
    decreases s.len(),
{
    if s.len() == 0 {
        Seq::empty()
    } else {
        blocks(s.drop_last()) + state_block(s.last())
    }
}

/// The release status report for a list of scope states.
pub open spec fn report_spec(s: Seq<StateView>) -> Seq<char> {
    "发布状态\n"@ + rule_line() + "\n"@ + if s.len() == 0 {
        "  最新标签:     (无)\n"@
    } else {
        blocks(s)
    }
}

fn push_head(out: &mut Vec<char>, s: &ReleaseState)
    ensures
        final(out)@ == old(out)@ + head_line(s@),
{
    append_str(out, "  ");
    let ghost start = out@;
    let mut cell: Vec<char> = Vec::new();
    append_str(&mut cell, "[");
    append_str(&mut cell, s.scope.as_str());
    append_str(&mut cell, "]");
    let ghost text = cell@;
    assert(text =~= "["@ + s.scope@ + "]"@);
    assert(cell@ =~= text + Seq::new(0nat, |i: int| ' '));
    while cell.len() < 24
        invariant
            cell@.len() >= text.len(),
            cell@ == text + Seq::new((cell@.len() - text.len()) as nat, |i: int| ' '),
            cell@.len() > 24 ==> cell@.len() == text.len(),
        decreases 24 - cell.len(),
    {
        let ghost before = cell@;
        cell.push(' ');
        assert(cell@ =~= text + Seq::new((cell@.len() - text.len()) as nat, |i: int| ' '));
    }
    proof {
        if text.len() >= 24 {
            assert(cell@ =~= text);
        } else {
            assert(cell@.len() == 24);
        }
        assert(cell@ =~= pad_right(text, 24));
    }
    append(out, cell.as_slice());
    append_str(out, s.status.name());
    append_str(out, "\n");
    assert(final(out)@ =~= old(out)@ + head_line(s@));
}

fn push_path_and_tag(out: &mut Vec<char>, s: &ReleaseState)
    ensures
        final(out)@ == old(out)@ + path_line(s@) + tag_line(s@),
{
    append_str(out, "    路径:         ");
    if chars_of(s.scope_path.as_str()).len() == 0 {
        append_str(out, ".");
    } else {
        append_str(out, s.scope_path.as_str());
    }
    append_str(out, "\n");
    let ghost mid = out@;
    assert(mid =~= old(out)@ + path_line(s@));
    match &s.current_version {
        Some(v) => {
            append_str(out, "    最新标签:     ");
            append_str(out, v.as_str());
            append_str(out, "\n");
        },
        None => {
            append_str(out, "    最新标签:     (无)\n");
        },
    }
    assert(final(out)@ =~= mid + tag_line(s@));
}

fn push_tail(out: &mut Vec<char>, s: &ReleaseState)
    ensures
        final(out)@ == old(out)@ + pending_line(s@) + status_line(s@) + changelog_line(s@) + consistency_line(s@),
{
    append_str(out, "    未发布提交:   ");
    let n = decimal_exec(s.pending_commits as u64);
    append(out, n.as_slice());
    append_str(out, "\n");
    let ghost p = out@;
    assert(p =~= old(out)@ + pending_line(s@));
    append_str(out, "    状态:         ");
    let label = s.status.label();
    append_str(out, label.as_str());
    append_str(out, "\n");
    let ghost a = out@;
    assert(a =~= p + status_line(s@));
    append_str(out, "    变更日志:     ");
    append_str(out, s.changelog.as_str());
    append_str(out, "\n");
    let ghost b = out@;
    assert(b =~= a + changelog_line(s@));
    match s.version_consistent {
        Some(true) => append_str(out, "    版本一致:     是\n"),
        Some(false) => append_str(out, "    版本一致:     否\n"),
        None => {},
    }
    assert(final(out)@ =~= b + consistency_line(s@));
}

fn push_block(out: &mut Vec<char>, s: &ReleaseState)
    ensures
        final(out)@ == old(out)@ + state_block(s@),
{
    push_head(out, s);
    push_path_and_tag(out, s);
    push_tail(out, s);
    assert(final(out)@ =~= old(out)@ + state_block(s@));
}

/// Renders the release status report for the given scope states: a title
/// and a rule, then for each scope its name and status, its path (`.` for
/// the root), newest tag, pending commits, status label, changelog and, when
/// checked, whether the changelog records the tag.
pub fn status_to(states: &[ReleaseState]) -> (r: String)
    ensures
        r@ == report_spec(state_views(states@)),
{
    let mut out: Vec<char> = Vec::new();
    append_str(&mut out, "发布状态\n");
    let mut k: usize = 0;
    while k < 40
        invariant
            k <= 40,
            out@ == "发布状态\n"@ + Seq::new(k as nat, |i: int| '─'),
        decreases 40 - k,
    {
        out.push('─');
        k = k + 1;
        assert(out@ =~= "发布状态\n"@ + Seq::new(k as nat, |i: int| '─'));
    }
    append_str(&mut out, "\n");
    let ghost head = out@;
    assert(head == "发布状态\n"@ + rule_line() + "\n"@);
    if states.len() == 0 {
        append_str(&mut out, "  最新标签:     (无)\n");
        return string_of(out.as_slice());
    }
    let ghost sv = state_views(states@);
    let mut i: usize = 0;
    while i < states.len()
        invariant
            i <= states.len(),
            sv == state_views(states@),
            out@ == head + blocks(sv.take(i as int)),
        decreases states.len() - i,
    {
        proof {
            assert(sv.take(i + 1).drop_last() =~= sv.take(i as int));
            assert(sv.take(i + 1).last() == states@[i as int]@);
        }
        push_block(&mut out, &states[i]);
        assert(out@ =~= head + blocks(sv.take(i + 1)));
        i = i + 1;
    }
    assert(sv.take(states.len() as int) =~= sv);
    string_of(out.as_slice())
}

} // verus!
