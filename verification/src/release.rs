//! Release rules: version strings, scope directories, changelog prechecks
//! and the GitHub repository behind a remote URL.

use vstd::prelude::*;
use crate::scope::{Scope, scope_views};
use crate::tag::{
    apply_scope_prefix_spec, build_version_fits, build_version_spec, core_text, is_named_scope,
    lemma_split_nonempty, next_version_tuple, parse_version, parse_version_spec, pre_text, str_eq,
    version_body, VersionTuple,
};
use crate::text::{
    append, append_str, chars_of, contains, contains_exec, ends_with, ends_with_exec, find, matches_at, matches_at_exec,
    find_char_exec, find_exec, has_char, has_char_exec, lemma_find, slice_of, split, split_exec,
    split_once, string_of, lines, lines_exec, starts_with, starts_with_exec, trim, trim_exec,
    lemma_views_push, views, decimal, is_digit, lemma_decimal, lemma_has_char_concat,
    lemma_has_char_single, lemma_parse_decimal, lemma_single_char_match, lemma_split_absent,
    lemma_split_concat, lemma_split_once_absent, lemma_split_once_concat, lemma_line_contains,
    lemma_trim_starts_contains, lemma_contains_sub, lemma_lines_concat, strip_cr,
};

verus! {

/// Where a release is published besides GitHub.
#[derive(Debug, Clone, Copy, PartialEq, Eq, Structural)]
pub enum PublishTarget {
    PyPI,
    PubDev,
    Crates,
}

// ───────────────────────────── version strings ─────────────────────────────

/// The text after the last `/`: the version of a possibly scoped version
/// string such as `cli/v1.2.0`.
pub open spec fn last_segment(s: Seq<char>) -> Seq<char> {
    split(s, '/').last()
}

pub fn last_segment_exec(v: &[char]) -> (r: Vec<char>)
    ensures
        r@ == last_segment(v@),
{
    let parts = split_exec(v, '/');
    proof {
        lemma_split_nonempty(v@, '/');
    }
    let n = parts.len();
    assert(parts@[n - 1]@ == split(v@, '/')[n - 1]);
    slice_of(parts[n - 1].as_slice(), 0, parts[n - 1].len())
}

/// A version string is valid when the part after its scope reads as
/// `[v]X.Y.Z[-stage[.N]]`.
pub open spec fn valid_version(s: Seq<char>) -> bool {
    parse_version_spec(last_segment(s)) is Ok
}

/// The bare version number: the scope and one leading `v` dropped.
pub open spec fn normalized_version(s: Seq<char>) -> Seq<char> {
    version_body(last_segment(s))
}

pub fn validate_version(version: &str) -> (r: bool)
    ensures
        r == valid_version(version@),
{
    let v = chars_of(version);
    let last = last_segment_exec(v.as_slice());
    let s = string_of(last.as_slice());
    parse_version(s.as_str()).is_ok()
}

pub fn normalize_version(version: &str) -> (r: String)
    ensures
        r@ == normalized_version(version@),
{
    let v = chars_of(version);
    let last = last_segment_exec(v.as_slice());
    if last.len() > 0 && last[0] == 'v' {
        let b = slice_of(last.as_slice(), 1, last.len());
        assert(b@ =~= last@.drop_first());
        string_of(b.as_slice())
    } else {
        string_of(last.as_slice())
    }
}

/// A prerelease carries a `-` in the part after its scope (`-rc.1`,
/// `-alpha.2`, ...).
pub open spec fn is_prerelease_spec(s: Seq<char>) -> bool {
    has_char(last_segment(s), '-')
}

pub fn is_prerelease(version: &str) -> (r: bool)
    ensures
        r == is_prerelease_spec(version@),
{
    let v = chars_of(version);
    let last = last_segment_exec(v.as_slice());
    has_char_exec(last.as_slice(), '-')
}

/// The last `/`-separated part of `a/b` is `b` when `b` holds no `/`.
pub proof fn lemma_split_last(a: Seq<char>, b: Seq<char>)
    requires
        !has_char(b, '/'),
    ensures
        last_segment(a + seq!['/'] + b) == b,
    decreases a.len(),
{
    if !has_char(a, '/') {
        lemma_split_concat(a, '/', b);
        lemma_split_absent(b, '/');
        assert(split(a + seq!['/'] + b, '/') =~= seq![a, b]);
    } else {
        let i = choose|i: int| 0 <= i < a.len() && a[i] == '/';
        lemma_find(a, seq!['/']);
        let k = find(a, seq!['/']).unwrap();
        lemma_single_char_match(a, '/', i);
        lemma_single_char_match(a, '/', k);
        let a1 = a.take(k);
        let a2 = a.skip(k + 1);
        assert(!has_char(a1, '/')) by {
            assert forall|j: int| 0 <= j < a1.len() implies a1[j] != '/' by {
                lemma_single_char_match(a, '/', j);
            }
        }
        assert(a =~= a1 + seq!['/'] + a2);
        let rest = a2 + seq!['/'] + b;
        assert(a + seq!['/'] + b =~= a1 + seq!['/'] + rest);
        lemma_split_concat(a1, '/', rest);
        lemma_split_last(a2, b);
        lemma_split_nonempty(rest, '/');
        let sp = split(rest, '/');
        assert((seq![a1] + sp).last() == sp.last());
    }
}

/// A text made of digits and dots holds neither `-` nor `/`.
proof fn lemma_core_chars(major: nat, minor: nat, patch: nat)
    ensures
        !has_char(decimal(major) + seq!['.'] + decimal(minor) + seq!['.'] + decimal(patch), '-'),
        !has_char(decimal(major) + seq!['.'] + decimal(minor) + seq!['.'] + decimal(patch), '/'),
        split(decimal(major) + seq!['.'] + decimal(minor) + seq!['.'] + decimal(patch), '.') == seq![
            decimal(major),
            decimal(minor),
            decimal(patch),
        ],
{
    let d0 = decimal(major);
    let d1 = decimal(minor);
    let d2 = decimal(patch);
    lemma_decimal(major);
    lemma_decimal(minor);
    lemma_decimal(patch);
    assert(!is_digit('-'));
    assert(!is_digit('/'));
    assert(!is_digit('.'));
    lemma_has_char_single('.', '-');
    lemma_has_char_single('.', '/');
    let b = d0 + seq!['.'] + d1 + seq!['.'] + d2;
    lemma_has_char_concat(d0, seq!['.'], '-');
    lemma_has_char_concat(d0 + seq!['.'], d1, '-');
    lemma_has_char_concat(d0 + seq!['.'] + d1, seq!['.'], '-');
    lemma_has_char_concat(d0 + seq!['.'] + d1 + seq!['.'], d2, '-');
    lemma_has_char_concat(d0, seq!['.'], '/');
    lemma_has_char_concat(d0 + seq!['.'], d1, '/');
    lemma_has_char_concat(d0 + seq!['.'] + d1, seq!['.'], '/');
    lemma_has_char_concat(d0 + seq!['.'] + d1 + seq!['.'], d2, '/');
    lemma_split_absent(d2, '.');
    lemma_split_concat(d1, '.', d2);
    assert(b =~= d0 + seq!['.'] + (d1 + seq!['.'] + d2));
    lemma_split_concat(d0, '.', d1 + seq!['.'] + d2);
    assert(split(b, '.') =~= seq![d0, d1, d2]);
}

/// Whether a built version carries a prerelease stage.
pub open spec fn built_with_prerelease(p: VersionTuple, increment: Seq<char>, prerelease: Option<Seq<char>>) -> bool {
    p.3 is Some || (increment == "minor"@ && prerelease is Some)
}

/// The prerelease stage a built version carries holds no `/`.
pub open spec fn stage_without_slash(p: VersionTuple, increment: Seq<char>, prerelease: Option<Seq<char>>) -> bool {
    &&& p.3 matches Some(stage) ==> !has_char(stage, '/')
    &&& (p.3 is None && increment == "minor"@ && prerelease is Some) ==> !has_char(prerelease.unwrap(), '/')
}

/// Law: every version the detector proposes, the next version of a parsed
/// one put under its scope, passes `validate_version`; `normalize_version`
/// gives back the built number without its `v`; and it counts as a
/// prerelease exactly when it was built with a prerelease stage. (A stage
/// holding `/` would be cut at that `/`: such stages are left out.)
#[verifier::spinoff_prover]
#[verifier::rlimit(60)]
pub proof fn law_proposed_version(
    p: VersionTuple,
    increment: Seq<char>,
    prerelease: Option<Seq<char>>,
    scope: Option<Seq<char>>,
)
    requires
        build_version_fits(p, increment),
        stage_without_slash(p, increment, prerelease),
    ensures
        valid_version(apply_scope_prefix_spec(scope, build_version_spec(p, increment, prerelease))),
        normalized_version(apply_scope_prefix_spec(scope, build_version_spec(p, increment, prerelease)))
            == build_version_spec(p, increment, prerelease).drop_first(),
        is_prerelease_spec(apply_scope_prefix_spec(scope, build_version_spec(p, increment, prerelease)))
            == built_with_prerelease(p, increment, prerelease),
{
    let v = build_version_spec(p, increment, prerelease);
    let t = next_version_tuple(p, increment, prerelease);
    let (ma, mi, pa) = (t.0 as nat, t.1 as nat, t.2 as nat);
    let b = decimal(ma) + seq!['.'] + decimal(mi) + seq!['.'] + decimal(pa);
    lemma_core_chars(ma, mi, pa);
    lemma_parse_decimal(ma);
    lemma_parse_decimal(mi);
    lemma_parse_decimal(pa);
    assert(core_text(ma, mi, pa) =~= seq!['v'] + b);
    lemma_has_char_single('v', '/');
    lemma_has_char_single('v', '-');
    lemma_has_char_concat(seq!['v'], b, '/');
    lemma_has_char_concat(seq!['v'], b, '-');
    if built_with_prerelease(p, increment, prerelease) {
        let stage = if p.3 is Some { p.3.unwrap() } else { prerelease.unwrap() };
        let n: nat = t.4.unwrap() as nat;
        let tail = stage + seq!['.'] + decimal(n);
        assert(v == pre_text(ma, mi, pa, stage, n));
        assert(v =~= seq!['v'] + (b + seq!['-'] + tail));
        lemma_decimal(n);
        assert(!is_digit('/'));
        lemma_has_char_single('.', '/');
        lemma_has_char_single('-', '/');
        lemma_has_char_concat(stage, seq!['.'], '/');
        lemma_has_char_concat(stage + seq!['.'], decimal(n), '/');
        lemma_has_char_concat(b, seq!['-'], '/');
        lemma_has_char_concat(b + seq!['-'], tail, '/');
        lemma_has_char_concat(seq!['v'], b + seq!['-'] + tail, '/');
        lemma_has_char_single('-', '-');
        lemma_has_char_concat(b, seq!['-'], '-');
        lemma_has_char_concat(b + seq!['-'], tail, '-');
        lemma_has_char_concat(seq!['v'], b + seq!['-'] + tail, '-');
        assert(version_body(v) =~= b + seq!['-'] + tail);
        lemma_split_once_concat(b, '-', tail);
    } else {
        assert(v == core_text(ma, mi, pa));
        assert(version_body(v) =~= b);
        lemma_split_once_absent(b, '-');
    }
    assert(!has_char(v, '/'));
    lemma_split_absent(v, '/');
    assert(last_segment(v) == v);
    match scope {
        Some(sc) => {
            if is_named_scope(sc) {
                lemma_split_last(sc, v);
            }
        },
        None => {},
    }
    assert(last_segment(apply_scope_prefix_spec(scope, v)) == v);
    assert(v[0] == 'v');
}

// ───────────────────────────── GitHub remotes ─────────────────────────────

/// The repository a remote URL points to on GitHub: the text after the
/// first `github.com` (up to a second one), past one `/` or `:`, without a
/// trailing `.git`; none when that is empty, or holds a `/` and ends in one.
pub open spec fn github_repo(url: Seq<char>) -> Option<Seq<char>> {
    let h = "github.com"@;
    match find(url, h) {
        None => None,
        Some(i) => {
            let rest = url.skip(i + h.len());
            let after = match find(rest, h) {
                Some(j) => rest.take(j),
                None => rest,
            };
            if after.len() == 0 || !(after[0] == '/' || after[0] == ':') {
                None
            } else {
                let path = after.drop_first();
                let repo = if ends_with(path, ".git"@) {
                    path.take(path.len() - 4)
                } else {
                    path
                };
                if repo.len() == 0 || repo.last() == '/' {
                    None
                } else {
                    Some(repo)
                }
            }
        },
    }
}

/// Reads the repository out of a GitHub remote URL, over HTTPS or SSH, by
/// splitting it at `github.com`.
pub fn parse_github_repo(url: &str) -> (r: Option<String>)
    ensures
        match r {
            Some(s) => github_repo(url@) == Some(s@),
            None => github_repo(url@) is None,
        },
{
    let v = chars_of(url);
    let h = chars_of("github.com");
    proof {
        reveal_strlit("github.com");
        reveal_strlit(".git");
    }
    let found = find_exec(v.as_slice(), h.as_slice());
    if found.is_none() {
        return None;
    }
    let i = found.unwrap();
    proof {
        lemma_find(v@, h@);
        assert(matches_at(v@, h@, i as int));
        assert(i + h@.len() <= v@.len());
        assert(h@.len() == h.len());
    }
    let hl = h.len();
    assert(i + hl <= v.len());
    let start: usize = i + hl;
    let rest = slice_of(v.as_slice(), start, v.len());
    assert(rest@ =~= v@.skip(i + h@.len()));
    let after = match find_exec(rest.as_slice(), h.as_slice()) {
        Some(j) => {
            proof {
                lemma_find(rest@, h@);
            }
            let a = slice_of(rest.as_slice(), 0, j);
            assert(a@ =~= rest@.take(j as int));
            a
        },
        None => rest,
    };
    if after.len() == 0 || !(after[0] == '/' || after[0] == ':') {
        return None;
    }
    let path = slice_of(after.as_slice(), 1, after.len());
    assert(path@ =~= after@.drop_first());
    let git = chars_of(".git");
    let repo = if ends_with_exec(path.as_slice(), git.as_slice()) {
        slice_of(path.as_slice(), 0, path.len() - 4)
    } else {
        path
    };
    proof {
        if ends_with(path@, ".git"@) {
            assert(repo@ =~= path@.take(path@.len() - 4));
        }
    }
    if repo.len() == 0 || repo[repo.len() - 1] == '/' {
        return None;
    }
    Some(string_of(repo.as_slice()))
}

// ───────────────────────────── scopes ─────────────────────────────

/// The map from scope names to directories that a list of pairs declares:
/// a later pair for the same name replaces an earlier one.
pub open spec fn declared_map(s: Seq<(Seq<char>, Seq<char>)>) -> Map<Seq<char>, Seq<char>>
    decreases s.len(),
{
    if s.len() == 0 {
        Map::empty()
    } else {
        declared_map(s.drop_last()).insert(s.last().0, s.last().1)
    }
}

/// The scopes of a contract as a map, with the root scope `(root)` always
/// present (its directory empty unless the contract names one).
pub open spec fn scopes_map_spec(s: Seq<(Seq<char>, Seq<char>)>) -> Map<Seq<char>, Seq<char>> {
    let m = declared_map(s);
    if m.contains_key("(root)"@) {
        m
    } else {
        m.insert("(root)"@, Seq::empty())
    }
}

pub open spec fn pair_views(v: Seq<(String, String)>) -> Seq<(Seq<char>, Seq<char>)> {
    v.map_values(|p: (String, String)| (p.0@, p.1@))
}

/// No name occurs twice.
pub open spec fn distinct_names(s: Seq<(Seq<char>, Seq<char>)>) -> bool {
    forall|i: int, j: int| 0 <= i < j < s.len() ==> #[trigger] s[i].0 != #[trigger] s[j].0
}

/// With distinct names, the map holds exactly the pairs.
pub proof fn lemma_declared_map_distinct(s: Seq<(Seq<char>, Seq<char>)>)
    requires
        distinct_names(s),
    ensures
        forall|i: int| 0 <= i < s.len() ==> #[trigger] declared_map(s).contains_key(s[i].0)
            && declared_map(s)[s[i].0] == s[i].1,
        forall|k: Seq<char>| #[trigger] declared_map(s).contains_key(k) ==> exists|i: int|
            0 <= i < s.len() && s[i].0 == k,
    decreases s.len(),
{
    if s.len() > 0 {
        let t = s.drop_last();
        assert(distinct_names(t));
        lemma_declared_map_distinct(t);
        assert forall|i: int| 0 <= i < s.len() implies #[trigger] declared_map(s).contains_key(s[i].0)
            && declared_map(s)[s[i].0] == s[i].1 by {
            if i < s.len() - 1 {
                assert(t[i] == s[i]);
                assert(s[i].0 != s[s.len() - 1].0);
                assert(declared_map(t).contains_key(t[i].0));
                assert(declared_map(t)[t[i].0] == t[i].1);
            } else {
                assert(s[i] == s.last());
            }
        }
        assert forall|k: Seq<char>| #[trigger] declared_map(s).contains_key(k) implies exists|i: int|
            0 <= i < s.len() && s[i].0 == k by {
            if k != s.last().0 {
                assert(declared_map(t).contains_key(k));
                let i = choose|i: int| 0 <= i < t.len() && t[i].0 == k;
                assert(s[i] == t[i]);
            } else {
                assert(s[s.len() - 1].0 == k);
            }
        }
    }
}

/// Replacing the directory of a name already present replaces it in the map.
pub proof fn lemma_declared_map_update(s: Seq<(Seq<char>, Seq<char>)>, j: int, d: Seq<char>)
    requires
        distinct_names(s),
        0 <= j < s.len(),
    ensures
        distinct_names(s.update(j, (s[j].0, d))),
        declared_map(s.update(j, (s[j].0, d))) == declared_map(s).insert(s[j].0, d),
{
    let t = s.update(j, (s[j].0, d));
    assert(distinct_names(t)) by {
        assert forall|a: int, b: int| 0 <= a < b < t.len() implies #[trigger] t[a].0 != #[trigger] t[b].0 by {
            assert(t[a].0 == s[a].0);
            assert(t[b].0 == s[b].0);
        }
    }
    lemma_declared_map_distinct(s);
    lemma_declared_map_distinct(t);
    let m = declared_map(s).insert(s[j].0, d);
    assert forall|k: Seq<char>| #[trigger] declared_map(t).contains_key(k) <==> m.contains_key(k) by {
        if declared_map(t).contains_key(k) {
            let i = choose|i: int| 0 <= i < t.len() && t[i].0 == k;
            assert(s[i].0 == k);
            assert(declared_map(s).contains_key(s[i].0));
        }
        if declared_map(s).contains_key(k) {
            let i = choose|i: int| 0 <= i < s.len() && s[i].0 == k;
            assert(t[i].0 == k);
            assert(declared_map(t).contains_key(t[i].0));
        }
        if k == s[j].0 {
            assert(declared_map(t).contains_key(t[j].0));
        }
    }
    assert forall|k: Seq<char>| #[trigger] declared_map(t).contains_key(k) implies declared_map(t)[k]
        == m[k] by {
        let i = choose|i: int| 0 <= i < t.len() && t[i].0 == k;
        if i == j {
        } else {
            assert(s[i].0 == k);
            assert(t[i] == s[i]);
            assert(s[i].0 != s[j].0);
        }
    }
    assert(declared_map(t) =~= m);
}

/// Finds the position of `name` among the names of `v`.
fn position_of(v: &Vec<(String, String)>, name: &str) -> (r: Option<usize>)
    ensures
        match r {
            Some(j) => j < v.len() && v@[j as int].0@ == name@,
            None => forall|j: int| 0 <= j < v.len() ==> #[trigger] v@[j].0@ != name@,
        },
{
    let mut j: usize = 0;
    while j < v.len()
        invariant
            j <= v.len(),
            forall|k: int| 0 <= k < j ==> #[trigger] v@[k].0@ != name@,
        decreases v.len() - j,
    {
        if str_eq(v[j].0.as_str(), name) {
            return Some(j);
        }
        j = j + 1;
    }
    None
}

/// The contract's scopes as `(name, directory)` pairs, each name once, with
/// the root scope `(root)` always present.
pub fn load_scopes_map(scopes: &[Scope]) -> (r: Vec<(String, String)>)
    ensures
        distinct_names(pair_views(r@)),
        declared_map(pair_views(r@)) == scopes_map_spec(scope_views(scopes@)),
{
    let ghost input = scope_views(scopes@);
    let mut r: Vec<(String, String)> = Vec::new();
    let mut k: usize = 0;
    assert(pair_views(r@) =~= Seq::<(Seq<char>, Seq<char>)>::empty());
    while k < scopes.len()
        invariant
            k <= scopes.len(),
            input == scope_views(scopes@),
            distinct_names(pair_views(r@)),
            declared_map(pair_views(r@)) == declared_map(input.take(k as int)),
        decreases scopes.len() - k,
    {
        let name = scopes[k].name.clone();
        let dir = scopes[k].dir.clone();
        let ghost before = pair_views(r@);
        proof {
            assert(input.take(k + 1).drop_last() =~= input.take(k as int));
            assert(input.take(k + 1).last() == (name@, dir@));
        }
        match position_of(&r, name.as_str()) {
            Some(j) => {
                proof {
                    lemma_declared_map_update(before, j as int, dir@);
                }
                r.set(j, (name, dir));
                assert(pair_views(r@) =~= before.update(j as int, (before[j as int].0, dir@)));
            },
            None => {
                r.push((name, dir));
                assert(pair_views(r@) =~= before.push((name@, dir@)));
                assert(pair_views(r@).drop_last() =~= before);
            },
        }
        k = k + 1;
    }
    assert(input.take(scopes.len() as int) =~= input);
    let root = "(root)";
    let ghost before = pair_views(r@);
    proof {
        reveal_strlit("(root)");
        lemma_declared_map_distinct(before);
    }
    match position_of(&r, root) {
        Some(j) => {
            assert(before[j as int].0 == "(root)"@);
        },
        None => {
            r.push((root.to_owned(), String::new()));
            assert(pair_views(r@) =~= before.push(("(root)"@, Seq::empty())));
            assert(pair_views(r@).drop_last() =~= before);
            assert(!declared_map(before).contains_key("(root)"@));
        },
    }
    r
}

/// The scope named by a version string: the text before its first `/`;
/// none for an unscoped version, an empty name or the root scope.
pub open spec fn version_scope(version: Seq<char>) -> Option<Seq<char>> {
    match split_once(version, '/') {
        Some(p) => if p.0 == "(root)"@ || p.0.len() == 0 {
            None
        } else {
            Some(p.0)
        },
        None => None,
    }
}

/// The directory that the first scope of that name declares.
pub open spec fn declared_dir(scopes: Seq<(Seq<char>, Seq<char>)>, name: Seq<char>) -> Option<Seq<char>>
    decreases scopes.len(),
{
    if scopes.len() == 0 {
        None
    } else if scopes[0].0 == name {
        Some(scopes[0].1)
    } else {
        declared_dir(scopes.drop_first(), name)
    }
}

/// `Path::join` for the paths of this tool: an absolute `b` replaces `a`,
/// otherwise `b` goes under `a` behind one `/`.
pub open spec fn join_path(a: Seq<char>, b: Seq<char>) -> Seq<char> {
    if b.len() > 0 && b[0] == '/' {
        b
    } else if a.len() == 0 {
        b
    } else if a.last() == '/' {
        a + b
    } else {
        a + seq!['/'] + b
    }
}

pub fn join_path_exec(a: &str, b: &str) -> (r: String)
    ensures
        r@ == join_path(a@, b@),
{
    let x = chars_of(a);
    let y = chars_of(b);
    let mut v: Vec<char> = Vec::new();
    if y.len() > 0 && y[0] == '/' {
        append(&mut v, y.as_slice());
    } else if x.len() == 0 {
        append(&mut v, y.as_slice());
    } else if x[x.len() - 1] == '/' {
        append(&mut v, x.as_slice());
        append(&mut v, y.as_slice());
    } else {
        append(&mut v, x.as_slice());
        v.push('/');
        append(&mut v, y.as_slice());
    }
    assert(v@ =~= join_path(a@, b@));
    string_of(v.as_slice())
}

/// `Path::strip_prefix` for the paths of this tool: `path` relative to
/// `base`, when `base` is `path` itself or one of its leading directories.
pub open spec fn strip_path_prefix(path: Seq<char>, base: Seq<char>) -> Option<Seq<char>> {
    if base.len() == 0 {
        Some(path)
    } else if path == base {
        Some(Seq::empty())
    } else if base.last() == '/' && starts_with(path, base) {
        Some(path.skip(base.len() as int))
    } else if starts_with(path, base + seq!['/']) {
        Some(path.skip(base.len() + 1int))
    } else {
        None
    }
}

pub fn strip_path_prefix_exec(path: &str, base: &str) -> (r: Option<String>)
    ensures
        match r {
            Some(p) => strip_path_prefix(path@, base@) == Some(p@),
            None => strip_path_prefix(path@, base@) is None,
        },
{
    let p = chars_of(path);
    let b = chars_of(base);
    if b.len() == 0 {
        return Some(path.to_owned());
    }
    if str_eq(path, base) {
        return Some(String::new());
    }
    if b[b.len() - 1] == '/' && starts_with_exec(p.as_slice(), b.as_slice()) {
        let rest = slice_of(p.as_slice(), b.len(), p.len());
        assert(rest@ =~= p@.skip(b@.len() as int));
        return Some(string_of(rest.as_slice()));
    }
    let mut bs = slice_of(b.as_slice(), 0, b.len());
    bs.push('/');
    assert(bs@ =~= b@ + seq!['/']);
    if starts_with_exec(p.as_slice(), bs.as_slice()) {
        let rest = slice_of(p.as_slice(), bs.len(), p.len());
        assert(rest@ =~= p@.skip(b@.len() + 1int));
        return Some(string_of(rest.as_slice()));
    }
    None
}

fn version_scope_exec(version: &str) -> (r: Option<String>)
    ensures
        match r {
            Some(n) => version_scope(version@) == Some(n@),
            None => version_scope(version@) is None,
        },
{
    let v = chars_of(version);
    proof {
        reveal_strlit("(root)");
    }
    match find_char_exec(v.as_slice(), '/') {
        Some(i) => {
            let name = slice_of(v.as_slice(), 0, i);
            assert(name@ =~= v@.take(i as int));
            let n = string_of(name.as_slice());
            if name.len() == 0 || str_eq(n.as_str(), "(root)") {
                None
            } else {
                Some(n)
            }
        },
        None => None,
    }
}

fn declared_dir_exec(scopes: &[Scope], name: &str) -> (r: Option<String>)
    ensures
        match r {
            Some(d) => declared_dir(scope_views(scopes@), name@) == Some(d@),
            None => declared_dir(scope_views(scopes@), name@) is None,
        },
{
    let ghost all = scope_views(scopes@);
    let mut k: usize = 0;
    assert(all.skip(0) =~= all);
    while k < scopes.len()
        invariant
            k <= scopes.len(),
            all == scope_views(scopes@),
            declared_dir(all, name@) == declared_dir(all.skip(k as int), name@),
        decreases scopes.len() - k,
    {
        assert(all.skip(k as int)[0] == (scopes@[k as int].name@, scopes@[k as int].dir@));
        assert(all.skip(k as int).drop_first() =~= all.skip(k + 1));
        if str_eq(scopes[k].name.as_str(), name) {
            return Some(scopes[k].dir.clone());
        }
        k = k + 1;
    }
    None
}

/// The two directories that decide where a scoped version lives: the one
/// its contract declares (if any) and the one named after the scope. None
/// for a version of the root scope.
pub open spec fn scope_dir_candidates_spec(
    version: Seq<char>,
    repo: Seq<char>,
    scopes: Seq<(Seq<char>, Seq<char>)>,
) -> Option<(Option<Seq<char>>, Seq<char>)> {
    match version_scope(version) {
        None => None,
        Some(n) => Some(
            (
                match declared_dir(scopes, n) {
                    Some(d) => Some(join_path(repo, d)),
                    None => None,
                },
                join_path(repo, n),
            ),
        ),
    }
}

pub fn scope_dir_candidates(version: &str, repo_path: &str, scopes: &[Scope]) -> (r: Option<
    (Option<String>, String),
>)
    ensures
        match r {
            Some(c) => scope_dir_candidates_spec(version@, repo_path@, scope_views(scopes@))
                == Some(
                (
                    match c.0 {
                        Some(d) => Some(d@),
                        None => None,
                    },
                    c.1@,
                ),
            ),
            None => scope_dir_candidates_spec(version@, repo_path@, scope_views(scopes@)) is None,
        },
{
    match version_scope_exec(version) {
        None => None,
        Some(n) => {
            let declared = match declared_dir_exec(scopes, n.as_str()) {
                Some(d) => Some(join_path_exec(repo_path, d.as_str())),
                None => None,
            };
            Some((declared, join_path_exec(repo_path, n.as_str())))
        },
    }
}

/// Where a version's scope lives: the repository root for the root scope;
/// else the declared directory if it exists, else the directory named after
/// the scope if it is a directory, else the repository root.
pub open spec fn scope_dir_spec(
    version: Seq<char>,
    repo: Seq<char>,
    scopes: Seq<(Seq<char>, Seq<char>)>,
    declared_exists: bool,
    named_is_dir: bool,
) -> Seq<char> {
    match version_scope(version) {
        None => repo,
        Some(n) => match declared_dir(scopes, n) {
            Some(d) => if declared_exists {
                join_path(repo, d)
            } else if named_is_dir {
                join_path(repo, n)
            } else {
                repo
            },
            None => if named_is_dir {
                join_path(repo, n)
            } else {
                repo
            },
        },
    }
}

/// Resolves the directory of a version's scope, given whether the candidate
/// directories of `scope_dir_candidates` exist.
pub fn resolve_scope_dir(
    version: &str,
    repo_path: &str,
    scopes: &[Scope],
    declared_exists: bool,
    named_is_dir: bool,
) -> (r: String)
    ensures
        r@ == scope_dir_spec(version@, repo_path@, scope_views(scopes@), declared_exists, named_is_dir),
{
    match version_scope_exec(version) {
        None => repo_path.to_owned(),
        Some(n) => {
            match declared_dir_exec(scopes, n.as_str()) {
                Some(d) => {
                    if declared_exists {
                        return join_path_exec(repo_path, d.as_str());
                    }
                },
                None => {},
            }
            if named_is_dir {
                join_path_exec(repo_path, n.as_str())
            } else {
                repo_path.to_owned()
            }
        },
    }
}

// ───────────────────────────── changelog precheck ─────────────────────────────

/// A changelog records a version when it holds the heading `## [X.Y.Z]` or
/// `## [vX.Y.Z]`.
pub open spec fn records_version(content: Seq<char>, ver: Seq<char>) -> bool {
    contains(content, "## ["@ + ver + "]"@) || contains(content, "## [v"@ + ver + "]"@)
}

pub fn records_version_exec(content: &str, ver: &str) -> (r: bool)
    ensures
        r == records_version(content@, ver@),
        r == (contains(content@, "## ["@ + ver@ + "]"@) || contains(content@, "## [v"@ + ver@ + "]"@)),
{
    let c = chars_of(content);
    let mut m: Vec<char> = Vec::new();
    append_str(&mut m, "## [");
    append_str(&mut m, ver);
    append_str(&mut m, "]");
    let mut mv: Vec<char> = Vec::new();
    append_str(&mut mv, "## [v");
    append_str(&mut mv, ver);
    append_str(&mut mv, "]");
    contains_exec(c.as_slice(), m.as_slice()) || contains_exec(c.as_slice(), mv.as_slice())
}

/// The problems that block releasing `version` with the changelog at
/// `path`, whose text is `content` (none when the file does not exist).
pub open spec fn precheck_errors(version: Seq<char>, path: Seq<char>, content: Option<Seq<char>>) -> Seq<Seq<char>> {
    let ver = normalized_version(version);
    (if valid_version(version) {
        Seq::empty()
    } else {
        seq!["版本号格式错误: "@ + version]
    }) + match content {
        Some(c) => if records_version(c, ver) {
            Seq::empty()
        } else {
            seq!["CHANGELOG.md 未找到 "@ + ver + " 版本记录"@]
        },
        None => seq!["CHANGELOG.md 不存在: "@ + path],
    }
}

/// Law: the changelog precheck finds a version recorded only by a complete
/// heading `## [X.Y.Z]` or `## [vX.Y.Z]` (a heading such as
/// `## [X.Y.Z-rc.1]` does not count). Without one it reports the version
/// missing, after any format error; with one it reports at most the format
/// error.
pub proof fn law_precheck_needs_complete_heading(version: Seq<char>, path: Seq<char>, content: Seq<char>)
    ensures
        ({
            let ver = normalized_version(version);
            let errs = precheck_errors(version, path, Some(content));
            let format_errs = if valid_version(version) {
                Seq::<Seq<char>>::empty()
            } else {
                seq!["版本号格式错误: "@ + version]
            };
            &&& (!contains(content, "## ["@ + ver + "]"@) && !contains(content, "## [v"@ + ver + "]"@)) ==> errs
                == format_errs.push("CHANGELOG.md 未找到 "@ + ver + " 版本记录"@)
            &&& (contains(content, "## ["@ + ver + "]"@) || contains(content, "## [v"@ + ver + "]"@)) ==> errs
                == format_errs
        }),
{
    let ver = normalized_version(version);
    let format_errs = if valid_version(version) {
        Seq::<Seq<char>>::empty()
    } else {
        seq!["版本号格式错误: "@ + version]
    };
    assert(format_errs + seq!["CHANGELOG.md 未找到 "@ + ver + " 版本记录"@] =~= format_errs.push(
        "CHANGELOG.md 未找到 "@ + ver + " 版本记录"@,
    ));
    assert(format_errs + Seq::<Seq<char>>::empty() =~= format_errs);
}

pub open spec fn string_views(v: Seq<String>) -> Seq<Seq<char>> {
    v.map_values(|s: String| s@)
}

fn concat3(a: &str, b: &str, c: &str) -> (r: String)
    ensures
        r@ == a@ + b@ + c@,
{
    let mut v: Vec<char> = Vec::new();
    append_str(&mut v, a);
    append_str(&mut v, b);
    append_str(&mut v, c);
    string_of(v.as_slice())
}

/// Checks a version and its changelog entry before a release.
pub fn precheck_version_changelog(version: &str, changelog_path: &str, content: Option<&str>) -> (r: Vec<String>)
    ensures
        string_views(r@) == precheck_errors(version@, changelog_path@, match content {
            Some(c) => Some(c@),
            None => None,
        }),
{
    let mut errors: Vec<String> = Vec::new();
    if !validate_version(version) {
        errors.push(concat3("版本号格式错误: ", version, ""));
    }
    let ghost first = string_views(errors@);
    let ver = normalize_version(version);
    match content {
        Some(c) => {
            if !records_version_exec(c, ver.as_str()) {
                errors.push(concat3("CHANGELOG.md 未找到 ", ver.as_str(), " 版本记录"));
            }
        },
        None => {
            errors.push(concat3("CHANGELOG.md 不存在: ", changelog_path, ""));
        },
    }
    proof {
        reveal_strlit("");
    }
    assert(string_views(errors@) =~= precheck_errors(version@, changelog_path@, match content {
        Some(c) => Some(c@),
        None => None,
    }));
    errors
}

/// What the checks before a release found.
pub struct PrecheckResult {
    pub version: String,
    pub normalized: String,
    pub scope_dir: String,
    pub changelog_path: String,
    pub changelog_errors: Vec<String>,
}

impl PrecheckResult {
    pub fn changelog_ok(&self) -> (r: bool)
        ensures
            r == (self.changelog_errors@.len() == 0),
    {
        self.changelog_errors.len() == 0
    }
}

/// Runs the checks before a release of `version` from `scope_dir`, whose
/// changelog reads `changelog` (none when it does not exist).
pub fn run_precheck(version: &str, scope_dir: &str, changelog: Option<&str>) -> (r: PrecheckResult)
    ensures
        r.version@ == version@,
        r.normalized@ == normalized_version(version@),
        r.scope_dir@ == scope_dir@,
        r.changelog_path@ == join_path(scope_dir@, "CHANGELOG.md"@),
        string_views(r.changelog_errors@) == precheck_errors(
            version@,
            join_path(scope_dir@, "CHANGELOG.md"@),
            match changelog {
                Some(c) => Some(c@),
                None => None,
            },
        ),
{
    let normalized = normalize_version(version);
    let changelog_path = join_path_exec(scope_dir, "CHANGELOG.md");
    let changelog_errors = precheck_version_changelog(version, changelog_path.as_str(), changelog);
    PrecheckResult {
        version: version.to_owned(),
        normalized,
        scope_dir: scope_dir.to_owned(),
        changelog_path,
        changelog_errors,
    }
}

// ───────────────────────────── release notes ─────────────────────────────

/// The lines of a changelog entry: after the heading of version `ver`, up to
/// the next heading of another version. A heading of the same version is
/// skipped, and a repeated heading of `ver` starts the capture again.
pub open spec fn notes_scan(ls: Seq<Seq<char>>, capture: bool, ver: Seq<char>) -> Seq<Seq<char>>
    decreases ls.len(),
{
    if ls.len() == 0 {
        Seq::empty()
    } else {
        let l = ls[0];
        let rest = ls.drop_first();
        if starts_with(trim(l), "## ["@ + ver + "]"@) || starts_with(trim(l), "## [v"@ + ver + "]"@) {
            notes_scan(rest, true, ver)
        } else if capture {
            if starts_with(l, "## ["@) {
                if contains(l, ver) || contains(l, seq!['v'] + ver) {
                    notes_scan(rest, capture, ver)
                } else {
                    Seq::empty()
                }
            } else {
                seq![l] + notes_scan(rest, capture, ver)
            }
        } else {
            notes_scan(rest, capture, ver)
        }
    }
}

/// The lines that are not version headings.
pub open spec fn drop_headings(s: Seq<Seq<char>>) -> Seq<Seq<char>>
    decreases s.len(),
{
    if s.len() == 0 {
        Seq::empty()
    } else if starts_with(trim(s.last()), "## ["@) {
        drop_headings(s.drop_last())
    } else {
        drop_headings(s.drop_last()).push(s.last())
    }
}

/// Lines joined with `\n` between them.
pub open spec fn join_lines(s: Seq<Seq<char>>) -> Seq<char>
    decreases s.len(),
{
    if s.len() == 0 {
        Seq::empty()
    } else if s.len() == 1 {
        s[0]
    } else {
        join_lines(s.drop_last()) + seq!['\n'] + s.last()
    }
}

/// Joins texts with `\n` between them.
pub fn join_lines_exec(v: &Vec<String>) -> (r: String)
    ensures
        r@ == join_lines(string_views(v@)),
{
    let ghost sv = string_views(v@);
    let mut out: Vec<char> = Vec::new();
    let mut i: usize = 0;
    while i < v.len()
        invariant
            i <= v.len(),
            sv == string_views(v@),
            out@ == join_lines(sv.take(i as int)),
        decreases v.len() - i,
    {
        proof {
            assert(sv.take(i + 1).drop_last() =~= sv.take(i as int));
            assert(sv.take(i + 1).last() == v@[i as int]@);
        }
        if i > 0 {
            out.push('\n');
        }
        append_str(&mut out, v[i].as_str());
        proof {
            if i == 0 {
                assert(out@ =~= sv.take(1)[0]);
            } else {
                assert(out@ =~= join_lines(sv.take(i as int)) + seq!['\n'] + sv.take(i + 1).last());
            }
        }
        i = i + 1;
    }
    assert(sv.take(v.len() as int) =~= sv);
    string_of(out.as_slice())
}

/// The release notes of `version` in a changelog: its entry without
/// headings, trimmed; none when that is empty.
pub open spec fn notes_spec(version: Seq<char>, content: Seq<char>) -> Option<Seq<char>> {
    let ver = normalized_version(version);
    let text = trim(join_lines(drop_headings(notes_scan(lines(content), false, ver))));
    if text.len() == 0 {
        None
    } else {
        Some(text)
    }
}

/// Lines of text before the heading of a version, none of which holds that
/// heading, do not start the notes.
pub proof fn lemma_notes_skip_prefix(p: Seq<char>, r: Seq<char>, ver: Seq<char>)
    requires
        !contains(p, "## ["@ + ver + "]"@),
        !contains(p, "## [v"@ + ver + "]"@),
    ensures
        notes_scan(lines(p + seq!['\n'] + r), false, ver) == notes_scan(lines(r), false, ver),
    decreases p.len(),
{
    let m1 = "## ["@ + ver + "]"@;
    let m2 = "## [v"@ + ver + "]"@;
    lemma_find(p, seq!['\n']);
    let (a, rest, has_rest) = match find(p, seq!['\n']) {
        Some(k) => {
            if 0 <= k < p.len() {
                (p.take(k), p.skip(k + 1), true)
            } else {
                (p, Seq::<char>::empty(), false)
            }
        },
        None => (p, Seq::<char>::empty(), false),
    };
    if has_rest {
        let k = find(p, seq!['\n']).unwrap();
        assert forall|j: int| 0 <= j < a.len() implies a[j] != '\n' by {
            lemma_single_char_match(p, '\n', j);
        }
        assert(p =~= a + seq!['\n'] + rest) by {
            lemma_single_char_match(p, '\n', k);
        }
        assert(p + seq!['\n'] + r =~= a + seq!['\n'] + (rest + seq!['\n'] + r));
        lemma_lines_concat(a, rest + seq!['\n'] + r);
        if contains(rest, m1) {
            assert(rest =~= p.subrange(k + 1, p.len() as int));
            lemma_contains_sub(p, k + 1, p.len() as int, m1);
        }
        if contains(rest, m2) {
            assert(rest =~= p.subrange(k + 1, p.len() as int));
            lemma_contains_sub(p, k + 1, p.len() as int, m2);
        }
        lemma_notes_skip_prefix(rest, r, ver);
    } else {
        assert forall|j: int| 0 <= j < p.len() implies p[j] != '\n' by {
            lemma_single_char_match(p, '\n', j);
        }
        lemma_lines_concat(p, r);
    }
    let l0 = strip_cr(a);
    assert(l0 =~= p.subrange(0, l0.len() as int));
    if starts_with(trim(l0), m1) {
        lemma_trim_starts_contains(l0, m1);
        lemma_contains_sub(p, 0, l0.len() as int, m1);
    }
    if starts_with(trim(l0), m2) {
        lemma_trim_starts_contains(l0, m2);
        lemma_contains_sub(p, 0, l0.len() as int, m2);
    }
    let tail = if has_rest { lines(rest + seq!['\n'] + r) } else { lines(r) };
    let all = seq![l0] + tail;
    assert(all[0] == l0);
    assert(all.drop_first() =~= tail);
}

/// Lines that neither end the notes nor are headings are taken as they
/// are.
pub proof fn lemma_notes_capture(cs: Seq<Seq<char>>, rest: Seq<Seq<char>>, ver: Seq<char>)
    requires
        forall|i: int|
            0 <= i < cs.len() ==> {
                &&& !starts_with(#[trigger] cs[i], "## ["@)
                &&& !starts_with(trim(cs[i]), "## ["@ + ver + "]"@)
                &&& !starts_with(trim(cs[i]), "## [v"@ + ver + "]"@)
            },
    ensures
        notes_scan(cs + rest, true, ver) == cs + notes_scan(rest, true, ver),
    decreases cs.len(),
{
    if cs.len() > 0 {
        let all = cs + rest;
        assert(all[0] == cs[0]);
        assert(all.drop_first() =~= cs.drop_first() + rest);
        assert forall|i: int| 0 <= i < cs.drop_first().len() implies {
            &&& !starts_with(#[trigger] cs.drop_first()[i], "## ["@)
            &&& !starts_with(trim(cs.drop_first()[i]), "## ["@ + ver + "]"@)
            &&& !starts_with(trim(cs.drop_first()[i]), "## [v"@ + ver + "]"@)
        } by {
            assert(cs.drop_first()[i] == cs[i + 1]);
        }
        lemma_notes_capture(cs.drop_first(), rest, ver);
        assert(cs + notes_scan(rest, true, ver) =~= seq![cs[0]] + (cs.drop_first() + notes_scan(rest, true, ver)));
    } else {
        assert(cs + rest =~= rest);
        assert(cs + notes_scan(rest, true, ver) =~= notes_scan(rest, true, ver));
    }
}

/// Lines none of which is a heading survive `drop_headings`.
pub proof fn lemma_drop_headings_id(s: Seq<Seq<char>>)
    requires
        forall|i: int| 0 <= i < s.len() ==> !starts_with(trim(#[trigger] s[i]), "## ["@),
    ensures
        drop_headings(s) == s,
    decreases s.len(),
{
    if s.len() > 0 {
        assert forall|i: int| 0 <= i < s.drop_last().len() implies !starts_with(
            trim(#[trigger] s.drop_last()[i]),
            "## ["@,
        ) by {
            assert(s.drop_last()[i] == s[i]);
        }
        lemma_drop_headings_id(s.drop_last());
        assert(s.drop_last().push(s.last()) =~= s);
    }
}

/// `join_lines` read from the front.
pub proof fn lemma_join_front(a: Seq<char>, s: Seq<Seq<char>>)
    requires
        s.len() > 0,
    ensures
        join_lines(seq![a] + s) == a + seq!['\n'] + join_lines(s),
    decreases s.len(),
{
    let x = seq![a] + s;
    if s.len() == 1 {
        assert(x.drop_last() =~= seq![a]);
        assert(x.last() == s[0]);
        assert(join_lines(seq![a]) == a);
        assert(join_lines(s) == s[0]);
        assert(join_lines(x) =~= a + seq!['\n'] + join_lines(s));
    } else {
        lemma_join_front(a, s.drop_last());
        assert(x.drop_last() =~= seq![a] + s.drop_last());
        assert(x.last() == s.last());
        assert(join_lines(x) =~= a + seq!['\n'] + join_lines(s));
    }
}

/// Joining the pieces of a text between its line breaks gives the text.
pub proof fn lemma_join_split(c: Seq<char>)
    ensures
        join_lines(split(c, '\n')) == c,
    decreases c.len(),
{
    lemma_find(c, seq!['\n']);
    match find(c, seq!['\n']) {
        Some(k) => {
            if 0 <= k < c.len() {
                let rest = c.skip(k + 1);
                lemma_join_split(rest);
                lemma_split_nonempty(rest, '\n');
                assert(split(c, '\n') == seq![c.take(k)] + split(rest, '\n'));
                lemma_join_front(c.take(k), split(rest, '\n'));
                assert(c =~= c.take(k) + seq!['\n'] + rest) by {
                    lemma_single_char_match(c, '\n', k);
                }
            } else {
                assert(matches_at(c, seq!['\n'], k));
            }
        },
        None => {
            assert(split(c, '\n') == seq![c]);
        },
    }
}

/// Notes start only after a heading of the version.
proof fn lemma_notes_need_heading(ls: Seq<Seq<char>>, ver: Seq<char>) -> (k: int)
    requires
        notes_scan(ls, false, ver).len() > 0,
    ensures
        0 <= k < ls.len(),
        starts_with(trim(ls[k]), "## ["@ + ver + "]"@) || starts_with(trim(ls[k]), "## [v"@ + ver + "]"@),
    decreases ls.len(),
{
    let l = ls[0];
    if starts_with(trim(l), "## ["@ + ver + "]"@) || starts_with(trim(l), "## [v"@ + ver + "]"@) {
        0
    } else {
        let j = lemma_notes_need_heading(ls.drop_first(), ver);
        assert(ls.drop_first()[j] == ls[j + 1]);
        j + 1
    }
}

/// Law: when release notes can be extracted for a version, its changelog
/// records that version, so the changelog precheck finds the entry.
pub proof fn law_notes_imply_recorded(version: Seq<char>, content: Seq<char>, path: Seq<char>)
    requires
        notes_spec(version, content) is Some,
    ensures
        records_version(content, normalized_version(version)),
        precheck_errors(version, path, Some(content)) == (if valid_version(version) {
            Seq::<Seq<char>>::empty()
        } else {
            seq!["版本号格式错误: "@ + version]
        }),
{
    let ver = normalized_version(version);
    let ls = lines(content);
    let scanned = notes_scan(ls, false, ver);
    if scanned.len() == 0 {
        assert(drop_headings(scanned) =~= Seq::<Seq<char>>::empty());
        assert(join_lines(drop_headings(scanned)) =~= Seq::<char>::empty());
        assert(trim(Seq::<char>::empty()) =~= Seq::<char>::empty());
    }
    let k = lemma_notes_need_heading(ls, ver);
    let m1 = "## ["@ + ver + "]"@;
    let m2 = "## [v"@ + ver + "]"@;
    if starts_with(trim(ls[k]), m1) {
        lemma_trim_starts_contains(ls[k], m1);
        lemma_line_contains(content, k, m1);
    } else {
        lemma_trim_starts_contains(ls[k], m2);
        lemma_line_contains(content, k, m2);
    }
    let errs = precheck_errors(version, path, Some(content));
    assert(errs =~= (if valid_version(version) {
        Seq::<Seq<char>>::empty()
    } else {
        seq!["版本号格式错误: "@ + version]
    }) + Seq::<Seq<char>>::empty());
}

/// Extracts the release notes of `version` from the text of a changelog.
pub fn extract_notes(version: &str, content: &str) -> (r: Option<String>)
    ensures
        match r {
            Some(t) => notes_spec(version@, content@) == Some(t@),
            None => notes_spec(version@, content@) is None,
        },
{
    let ver = normalize_version(version);
    let verc = chars_of(ver.as_str());
    let mut start: Vec<char> = Vec::new();
    append_str(&mut start, "## [");
    append(&mut start, verc.as_slice());
    append_str(&mut start, "]");
    let mut start_v: Vec<char> = Vec::new();
    append_str(&mut start_v, "## [v");
    append(&mut start_v, verc.as_slice());
    append_str(&mut start_v, "]");
    let mut vver: Vec<char> = Vec::new();
    vver.push('v');
    append(&mut vver, verc.as_slice());
    let head = chars_of("## [");
    let c = chars_of(content);
    let ls = lines_exec(c.as_slice());
    let ghost all = views(ls@);
    let mut capture = false;
    let mut notes: Vec<Vec<char>> = Vec::new();
    let mut i: usize = 0;
    assert(all.skip(0) =~= all);
    while i < ls.len()
        invariant_except_break
            i <= ls.len(),
            all == views(ls@),
            start@ == "## ["@ + ver@ + "]"@,
            start_v@ == "## [v"@ + ver@ + "]"@,
            vver@ == seq!['v'] + ver@,
            verc@ == ver@,
            head@ == "## ["@,
            views(notes@) + notes_scan(all.skip(i as int), capture, ver@) == notes_scan(all, false, ver@),
        ensures
            views(notes@) == notes_scan(all, false, ver@),
        decreases ls.len() - i,
    {
        let line = &ls[i];
        let ghost rest = all.skip(i as int);
        proof {
            assert(rest[0] == line@);
            assert(rest.drop_first() =~= all.skip(i + 1));
        }
        let t = trim_exec(line.as_slice());
        if starts_with_exec(t.as_slice(), start.as_slice()) || starts_with_exec(t.as_slice(), start_v.as_slice()) {
            capture = true;
            i = i + 1;
            continue;
        }
        if capture {
            if starts_with_exec(line.as_slice(), head.as_slice()) {
                if contains_exec(line.as_slice(), verc.as_slice()) || contains_exec(line.as_slice(), vver.as_slice()) {
                    i = i + 1;
                    continue;
                }
                assert(notes_scan(rest, capture, ver@) =~= Seq::<Seq<char>>::empty());
                assert(views(notes@) + Seq::<Seq<char>>::empty() =~= views(notes@));
                break;
            }
            let copy = slice_of(line.as_slice(), 0, line.len());
            assert(copy@ =~= line@);
            let ghost old_notes = views(notes@);
            let ghost old_vec = notes@;
            notes.push(copy);
            proof {
                lemma_views_push(old_vec, copy);
                assert(views(notes@) =~= old_notes.push(line@));
                assert(old_notes + (seq![line@] + notes_scan(all.skip(i + 1), capture, ver@))
                    =~= old_notes.push(line@) + notes_scan(all.skip(i + 1), capture, ver@));
            }
        }
        i = i + 1;
    }
    proof {
        if i == ls.len() {
            assert(all.skip(i as int) =~= Seq::<Seq<char>>::empty());
        }
    }
    let ghost captured = views(notes@);
    let mut text: Vec<char> = Vec::new();
    let mut kept: usize = 0;
    let mut k: usize = 0;
    while k < notes.len()
        invariant
            k <= notes.len(),
            captured == views(notes@),
            head@ == "## ["@,
            kept <= k,
            kept == drop_headings(captured.take(k as int)).len(),
            text@ == join_lines(drop_headings(captured.take(k as int))),
        decreases notes.len() - k,
    {
        proof {
            assert(captured.take(k + 1).drop_last() =~= captured.take(k as int));
            assert(captured.take(k + 1).last() == notes@[k as int]@);
        }
        let t = trim_exec(notes[k].as_slice());
        if !starts_with_exec(t.as_slice(), head.as_slice()) {
            let ghost before = drop_headings(captured.take(k as int));
            if kept > 0 {
                text.push('\n');
            }
            append(&mut text, notes[k].as_slice());
            proof {
                let after = before.push(notes@[k as int]@);
                assert(after.drop_last() =~= before);
                if before.len() == 0 {
                    assert(text@ =~= after[0]);
                } else {
                    assert(text@ =~= join_lines(before) + seq!['\n'] + after.last());
                }
            }
            kept = kept + 1;
        }
        k = k + 1;
    }
    assert(captured.take(notes.len() as int) =~= captured);
    let trimmed = trim_exec(text.as_slice());
    if trimmed.len() == 0 {
        None
    } else {
        Some(string_of(trimmed.as_slice()))
    }
}

} // verus!
