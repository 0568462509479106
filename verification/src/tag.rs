//! Tag and version-number arithmetic: `scope/vX.Y.Z[-stage.N]`.

use vstd::prelude::*;
use vstd::string::StrSliceExecFns;
use crate::text::{
    append, append_str, chars_of, decimal, decimal_exec, find, find_char_exec, matches_at_exec,
    parse_u32, parse_u32_exec, slice_of, split, split_exec, split_once, string_of, has_char, is_digit,
    lemma_has_char_concat, lemma_has_char_single, lemma_decimal, lemma_parse_decimal,
    lemma_split_concat, lemma_split_absent, lemma_split_once_concat, lemma_split_once_absent,
};

verus! {

/// The numeric parts of a version, as read from a tag.
pub struct VersionParts {
    pub major: u32,
    pub minor: u32,
    pub patch: u32,
    pub pre_stage: Option<String>,
    pub pre_num: Option<u32>,
}

/// The plain value of a parsed version: major, minor, patch, prerelease stage
/// and prerelease number.
pub type VersionTuple = (u32, u32, u32, Option<Seq<char>>, Option<u32>);

pub open spec fn opt_view(o: Option<String>) -> Option<Seq<char>> {
    match o {
        Some(s) => Some(s@),
        None => None,
    }
}

impl VersionParts {
    pub open spec fn tuple(&self) -> VersionTuple {
        (self.major, self.minor, self.patch, opt_view(self.pre_stage), self.pre_num)
    }
}

// ───────────────────────────── parse_tag ─────────────────────────────

/// A tag splits at its first `/` into scope and version; a tag without `/`
/// has no scope.
pub open spec fn parse_tag_spec(t: Seq<char>) -> (Option<Seq<char>>, Seq<char>) {
    match split_once(t, '/') {
        Some(p) => (Some(p.0), p.1),
        None => (None, t),
    }
}

/// Splits `scope/version` into its scope and version.
pub fn parse_tag(tag: &str) -> (r: (Option<String>, &str))
    ensures
        (opt_view(r.0), r.1@) == parse_tag_spec(tag@),
{
    let v = chars_of(tag);
    match find_char_exec(&v, '/') {
        Some(i) => {
            let scope = string_of(&slice_of(&v, 0, i));
            let rest = tag.substring_char(i + 1, v.len());
            assert(v@.subrange(0, i as int) =~= v@.take(i as int));
            assert(v@.subrange(i + 1, v@.len() as int) =~= v@.skip(i + 1));
            (Some(scope), rest)
        },
        None => {
            let rest = tag.substring_char(0, v.len());
            assert(v@.subrange(0, v@.len() as int) =~= v@);
            (None, rest)
        },
    }
}

// ───────────────────────────── parse_version ─────────────────────────────

/// The version text without one leading `v`.
pub open spec fn version_body(s: Seq<char>) -> Seq<char> {
    if s.len() > 0 && s[0] == 'v' {
        s.drop_first()
    } else {
        s
    }
}

/// The core `X.Y.Z` and the prerelease text after the first `-`.
pub open spec fn version_halves(b: Seq<char>) -> (Seq<char>, Seq<char>) {
    match split_once(b, '-') {
        Some(p) => p,
        None => (b, seq![]),
    }
}

pub open spec fn pre_stage_spec(pp: Seq<char>) -> Option<Seq<char>> {
    if pp.len() == 0 {
        None
    } else {
        Some(split(pp, '.')[0])
    }
}

pub open spec fn pre_num_spec(pp: Seq<char>) -> Option<u32> {
    if pp.len() == 0 {
        None
    } else if split(pp, '.').len() > 1 {
        parse_u32(split(pp, '.')[1])
    } else {
        None
    }
}

pub open spec fn format_error_text(b: Seq<char>) -> Seq<char> {
    "版本号格式错误: "@ + b + "，需要 X.Y.Z"@
}

/// What `parse_version` returns for the text `s`.
pub open spec fn parse_version_spec(s: Seq<char>) -> Result<VersionTuple, Seq<char>> {
    let b = version_body(s);
    let vp = version_halves(b).0;
    let pp = version_halves(b).1;
    let parts = split(vp, '.');
    if parts.len() != 3 {
        Err(format_error_text(b))
    } else if parse_u32(parts[0]) is None {
        Err("major 不是数字"@)
    } else if parse_u32(parts[1]) is None {
        Err("minor 不是数字"@)
    } else if parse_u32(parts[2]) is None {
        Err("patch 不是数字"@)
    } else {
        Ok(
            (
                parse_u32(parts[0]).unwrap(),
                parse_u32(parts[1]).unwrap(),
                parse_u32(parts[2]).unwrap(),
                pre_stage_spec(pp),
                pre_num_spec(pp),
            ),
        )
    }
}

pub open spec fn parsed_view(r: Result<(u32, u32, u32, Option<String>, Option<u32>), String>) -> Result<
    VersionTuple,
    Seq<char>,
> {
    match r {
        Ok(t) => Ok((t.0, t.1, t.2, opt_view(t.3), t.4)),
        Err(e) => Err(e@),
    }
}

pub proof fn lemma_split_nonempty(s: Seq<char>, c: char)
    ensures
        split(s, c).len() >= 1,
    decreases s.len(),
{
    match find(s, seq![c]) {
        Some(i) => {
            if 0 <= i < s.len() {
                lemma_split_nonempty(s.skip(i + 1), c);
            }
        },
        None => {},
    }
}

/// Parses `[v]X.Y.Z[-stage[.N]]`.
pub fn parse_version(s: &str) -> (r: Result<(u32, u32, u32, Option<String>, Option<u32>), String>)
    ensures
        parsed_view(r) == parse_version_spec(s@),
{
    let all = chars_of(s);
    let body = if all.len() > 0 && all[0] == 'v' {
        slice_of(&all, 1, all.len())
    } else {
        slice_of(&all, 0, all.len())
    };
    assert(body@ =~= version_body(s@));
    let (vp, pp) = match find_char_exec(&body, '-') {
        Some(i) => (slice_of(&body, 0, i), slice_of(&body, i + 1, body.len())),
        None => (slice_of(&body, 0, body.len()), Vec::new()),
    };
    assert(vp@ =~= version_halves(body@).0);
    assert(pp@ =~= version_halves(body@).1);
    let parts = split_exec(&vp, '.');
    assert(parts@.len() == split(vp@, '.').len());
    if parts.len() != 3 {
        let mut e: Vec<char> = Vec::new();
        append_str(&mut e, "版本号格式错误: ");
        append(&mut e, &body);
        append_str(&mut e, "，需要 X.Y.Z");
        return Err(string_of(&e));
    }
    assert(parts@[0]@ == split(vp@, '.')[0]);
    assert(parts@[1]@ == split(vp@, '.')[1]);
    assert(parts@[2]@ == split(vp@, '.')[2]);
    let major = match parse_u32_exec(&parts[0]) {
        Some(n) => n,
        None => {
            return Err("major 不是数字".to_owned());
        },
    };
    let minor = match parse_u32_exec(&parts[1]) {
        Some(n) => n,
        None => {
            return Err("minor 不是数字".to_owned());
        },
    };
    let patch = match parse_u32_exec(&parts[2]) {
        Some(n) => n,
        None => {
            return Err("patch 不是数字".to_owned());
        },
    };
    if pp.len() == 0 {
        return Ok((major, minor, patch, None, None));
    }
    let sp = split_exec(&pp, '.');
    proof {
        lemma_split_nonempty(pp@, '.');
    }
    assert(sp@[0]@ == split(pp@, '.')[0]);
    let stage = string_of(&sp[0]);
    let num = if sp.len() > 1 {
        assert(sp@[1]@ == split(pp@, '.')[1]);
        parse_u32_exec(&sp[1])
    } else {
        None
    };
    Ok((major, minor, patch, Some(stage), num))
}

// ───────────────────────────── build_version ─────────────────────────────

/// `vM.m.p`.
pub open spec fn core_text(major: nat, minor: nat, patch: nat) -> Seq<char> {
    seq!['v'] + decimal(major) + seq!['.'] + decimal(minor) + seq!['.'] + decimal(patch)
}

/// `vM.m.p-stage.n`.
pub open spec fn pre_text(major: nat, minor: nat, patch: nat, stage: Seq<char>, n: nat) -> Seq<char> {
    core_text(major, minor, patch) + seq!['-'] + stage + seq!['.'] + decimal(n)
}

/// The next version after `p` for the given increment and prerelease stage:
/// a version already in a prerelease series bumps its prerelease number;
/// otherwise `minor` bumps the minor number (opening a `.1` prerelease when a
/// stage is given) and anything else bumps the patch number.
pub open spec fn build_version_spec(p: VersionTuple, increment: Seq<char>, prerelease: Option<Seq<char>>) -> Seq<char> {
    match p.3 {
        Some(stage) => {
            let n: nat = match p.4 {
                Some(k) => k as nat,
                None => 0,
            };
            pre_text(p.0 as nat, p.1 as nat, p.2 as nat, stage, n + 1)
        },
        None => {
            if increment == "minor"@ {
                match prerelease {
                    Some(pr) => pre_text(p.0 as nat, p.1 as nat + 1, 0, pr, 1),
                    None => core_text(p.0 as nat, p.1 as nat + 1, 0),
                }
            } else {
                core_text(p.0 as nat, p.1 as nat, p.2 as nat + 1)
            }
        },
    }
}

/// The arithmetic of `build_version` stays within `u32`.
pub open spec fn build_version_fits(p: VersionTuple, increment: Seq<char>) -> bool {
    match p.3 {
        Some(_) => match p.4 {
            Some(k) => k < u32::MAX,
            None => true,
        },
        None => if increment == "minor"@ {
            p.1 < u32::MAX
        } else {
            p.2 < u32::MAX
        },
    }
}

fn push_core(v: &mut Vec<char>, major: u32, minor: u32, patch: u32)
    ensures
        final(v)@ == old(v)@ + core_text(major as nat, minor as nat, patch as nat),
{
    let ghost v0 = v@;
    v.push('v');
    append(v, &decimal_exec(major as u64));
    v.push('.');
    append(v, &decimal_exec(minor as u64));
    v.push('.');
    append(v, &decimal_exec(patch as u64));
    assert(v@ =~= v0 + core_text(major as nat, minor as nat, patch as nat));
}

fn push_pre(v: &mut Vec<char>, stage: &str, n: u32)
    ensures
        final(v)@ == old(v)@ + seq!['-'] + stage@ + seq!['.'] + decimal(n as nat),
{
    let ghost v0 = v@;
    v.push('-');
    append_str(v, stage);
    v.push('.');
    append(v, &decimal_exec(n as u64));
    assert(v@ =~= v0 + seq!['-'] + stage@ + seq!['.'] + decimal(n as nat));
}

/// Builds the next version number (see `build_version_spec`).
pub fn build_version(parts: &VersionParts, increment: &str, prerelease: Option<&str>) -> (r: String)
    requires
        build_version_fits(parts.tuple(), increment@),
    ensures
        r@ == build_version_spec(
            parts.tuple(),
            increment@,
            match prerelease {
                Some(p) => Some(p@),
                None => None,
            },
        ),
{
    let mut v: Vec<char> = Vec::new();
    if let Some(stage) = &parts.pre_stage {
        let next = match parts.pre_num {
            Some(k) => k + 1,
            None => 1,
        };
        push_core(&mut v, parts.major, parts.minor, parts.patch);
        push_pre(&mut v, stage.as_str(), next);
        return string_of(&v);
    }
    let is_minor = str_eq(increment, "minor");
    if is_minor {
        match prerelease {
            Some(pr) => {
                push_core(&mut v, parts.major, parts.minor + 1, 0);
                push_pre(&mut v, pr, 1);
            },
            None => {
                push_core(&mut v, parts.major, parts.minor + 1, 0);
            },
        }
    } else {
        push_core(&mut v, parts.major, parts.minor, parts.patch + 1);
    }
    string_of(&v)
}

/// String equality.
pub fn str_eq(a: &str, b: &str) -> (r: bool)
    ensures
        r == (a@ == b@),
{
    let x = chars_of(a);
    let y = chars_of(b);
    if x.len() != y.len() {
        return false;
    }
    let r = matches_at_exec(&x, &y, 0);
    assert(r ==> x@.subrange(0, y@.len() as int) =~= x@);
    proof {
        if x@ == y@ {
            assert(x@.subrange(0, y@.len() as int) =~= x@);
        }
    }
    r
}

/// The version that `build_version_spec` produces, as `parse_version` reads it.
pub open spec fn next_version_tuple(p: VersionTuple, increment: Seq<char>, prerelease: Option<Seq<char>>) -> VersionTuple {
    match p.3 {
        Some(stage) => {
            let n: nat = match p.4 {
                Some(k) => k as nat,
                None => 0,
            };
            (p.0, p.1, p.2, Some(stage), Some((n + 1) as u32))
        },
        None => {
            if increment == "minor"@ {
                match prerelease {
                    Some(pr) => (p.0, (p.1 + 1) as u32, 0, Some(pr), Some(1)),
                    None => (p.0, (p.1 + 1) as u32, 0, None, None),
                }
            } else {
                (p.0, p.1, (p.2 + 1) as u32, None, None)
            }
        },
    }
}

proof fn lemma_core_digits(major: nat, minor: nat, patch: nat)
    ensures
        ({
            let b = decimal(major) + seq!['.'] + decimal(minor) + seq!['.'] + decimal(patch);
            &&& !has_char(b, '-')
            &&& split(b, '.') == seq![decimal(major), decimal(minor), decimal(patch)]
            &&& version_body(core_text(major, minor, patch)) == b
        }),
{
    let d0 = decimal(major);
    let d1 = decimal(minor);
    let d2 = decimal(patch);
    lemma_decimal(major);
    lemma_decimal(minor);
    lemma_decimal(patch);
    let b = d0 + seq!['.'] + d1 + seq!['.'] + d2;
    lemma_has_char_single('.', '-');
    lemma_has_char_concat(d0, seq!['.'], '-');
    lemma_has_char_concat(d0 + seq!['.'], d1, '-');
    lemma_has_char_concat(d0 + seq!['.'] + d1, seq!['.'], '-');
    lemma_has_char_concat(d0 + seq!['.'] + d1 + seq!['.'], d2, '-');
    assert(!is_digit('-'));
    assert(!is_digit('.'));
    lemma_split_absent(d2, '.');
    lemma_split_concat(d1, '.', d2);
    assert(b =~= d0 + seq!['.'] + (d1 + seq!['.'] + d2));
    lemma_split_concat(d0, '.', d1 + seq!['.'] + d2);
    assert(split(b, '.') =~= seq![d0, d1, d2]);
    assert(core_text(major, minor, patch) =~= seq!['v'] + b);
    assert((seq!['v'] + b).drop_first() =~= b);
}

/// Law: a version built by `build_version` reads back through
/// `parse_version` as the bumped version, provided the prerelease stage holds
/// no `.`.
pub proof fn law_build_then_parse(p: VersionTuple, increment: Seq<char>, prerelease: Option<Seq<char>>)
    requires
        build_version_fits(p, increment),
        p.3 matches Some(stage) ==> !has_char(stage, '.'),
        p.3 is None && increment == "minor"@ && prerelease is Some ==> !has_char(prerelease.unwrap(), '.'),
    ensures
        parse_version_spec(build_version_spec(p, increment, prerelease)) == Ok::<VersionTuple, Seq<char>>(
            next_version_tuple(p, increment, prerelease),
        ),
{
    let t = next_version_tuple(p, increment, prerelease);
    let (ma, mi, pa) = (t.0 as nat, t.1 as nat, t.2 as nat);
    lemma_core_digits(ma, mi, pa);
    lemma_parse_decimal(ma);
    lemma_parse_decimal(mi);
    lemma_parse_decimal(pa);
    let b = decimal(ma) + seq!['.'] + decimal(mi) + seq!['.'] + decimal(pa);
    let s = build_version_spec(p, increment, prerelease);
    if t.3 is Some {
        let stage = t.3.unwrap();
        let n = t.4.unwrap() as nat;
        lemma_parse_decimal(n);
        lemma_decimal(n);
        assert(s == pre_text(ma, mi, pa, stage, n));
        assert(version_body(s) =~= b + seq!['-'] + (stage + seq!['.'] + decimal(n)));
        lemma_split_once_concat(b, '-', stage + seq!['.'] + decimal(n));
        lemma_split_concat(stage, '.', decimal(n));
        lemma_split_absent(decimal(n), '.');
        assert(!is_digit('.'));
        assert(split(stage + seq!['.'] + decimal(n), '.') =~= seq![stage, decimal(n)]);
    } else {
        assert(s == core_text(ma, mi, pa));
        lemma_split_once_absent(b, '-');
    }
}

// ───────────────────────────── scope prefix ─────────────────────────────

/// Whether a scope name stands for a real scope (not empty and not `(root)`).
pub open spec fn is_named_scope(s: Seq<char>) -> bool {
    s.len() > 0 && s != "(root)"@
}

pub open spec fn apply_scope_prefix_spec(scope: Option<Seq<char>>, version: Seq<char>) -> Seq<char> {
    match scope {
        Some(s) => if is_named_scope(s) {
            s + seq!['/'] + version
        } else {
            version
        },
        None => version,
    }
}

/// Prefixes `version` with `scope/` for a named scope.
pub fn apply_scope_prefix(scope: Option<&str>, version: &str) -> (r: String)
    ensures
        r@ == apply_scope_prefix_spec(
            match scope {
                Some(s) => Some(s@),
                None => None,
            },
            version@,
        ),
{
    match scope {
        Some(s) => {
            if s.unicode_len() > 0 && !str_eq(s, "(root)") {
                let mut v = chars_of(s);
                v.push('/');
                append_str(&mut v, version);
                string_of(&v)
            } else {
                string_of(&chars_of(version))
            }
        },
        None => string_of(&chars_of(version)),
    }
}

/// Law: a tag built from a named scope without `/` splits back into that
/// scope and the version.
pub proof fn law_scope_prefix_roundtrip(scope: Seq<char>, version: Seq<char>)
    requires
        is_named_scope(scope),
        !has_char(scope, '/'),
    ensures
        parse_tag_spec(apply_scope_prefix_spec(Some(scope), version)) == (Some(scope), version),
{
    lemma_split_once_concat(scope, '/', version);
}

/// Law: without a named scope, a version without `/` is its own tag and
/// carries no scope.
pub proof fn law_unscoped_tag(scope: Option<Seq<char>>, version: Seq<char>)
    requires
        !(scope matches Some(s) && is_named_scope(s)),
        !has_char(version, '/'),
    ensures
        parse_tag_spec(apply_scope_prefix_spec(scope, version)) == (None::<Seq<char>>, version),
{
    lemma_split_once_absent(version, '/');
}

/// The refspec that pushes one tag: `refs/tags/<version>`.
pub fn tag_push_refspec(version: &str) -> (r: String)
    ensures
        r@ == "refs/tags/"@ + version@,
{
    let mut v = chars_of("refs/tags/");
    append_str(&mut v, version);
    string_of(&v)
}

} // verus!
