//! The newest tag of each scope, ordered by semantic version.

use vstd::prelude::*;
use crate::audit::{semver_parse, semver_triple};
use crate::release::{normalize_version, normalized_version, string_views};
use crate::tag::str_eq;
use crate::text::{
    append_str, chars_of, find_char_exec, has_char, has_char_exec, slice_of, split_once,
    starts_with, starts_with_exec, string_of,
};

verus! {

/// How `semver` orders the versions it reads from two texts that it
/// accepts: `-1`, `0` or `1` as the first is lower, equal or higher.
pub uninterp spec fn semver_order(a: Seq<char>, b: Seq<char>) -> i8;

/// Lexicographic order of major, minor and patch numbers.
pub open spec fn triple_less(x: (u64, u64, u64), y: (u64, u64, u64)) -> bool {
    x.0 < y.0 || (x.0 == y.0 && (x.1 < y.1 || (x.1 == y.1 && x.2 < y.2)))
}

/// Parses two accepted texts with `semver::Version::parse` and compares the
/// versions with their derived `Ord`, which orders by major, minor and patch
/// number and then by pre-release and build. The contract names the outcome
/// and states what that total order shows: the range; that swapping the
/// texts negates the outcome; that when the second version is at least as
/// new as the first, it is at least as new as every version the first is at
/// least as new as; and that versions with different major, minor or patch
/// numbers are ordered by those numbers. How versions with equal numbers
/// are ordered (by pre-release, then build) is left to the name.
#[verifier::external_body]
pub(crate) fn semver_compare(a: &str, b: &str) -> (r: i8)
    requires
        semver_triple(a@) is Some,
        semver_triple(b@) is Some,
    ensures
        r == semver_order(a@, b@),
        -1 <= r <= 1,
        r == -semver_order(b@, a@),
        forall|c: Seq<char>|
            r <= 0 && semver_triple(c) is Some && #[trigger] semver_order(a@, c) >= 0 ==> semver_order(b@, c) >= 0,
        triple_less(semver_triple(a@)->0, semver_triple(b@)->0) ==> r == -1,
        triple_less(semver_triple(b@)->0, semver_triple(a@)->0) ==> r == 1,
{
    let va = semver::Version::parse(a).unwrap();
    let vb = semver::Version::parse(b).unwrap();
    match va.cmp(&vb) {
        std::cmp::Ordering::Less => -1,
        std::cmp::Ordering::Equal => 0,
        std::cmp::Ordering::Greater => 1,
    }
}

/// The text a tag is ordered by: its version text (the part after its last
/// `/`, without a leading `v`) when `semver` reads it, else `0.0.0`.
pub open spec fn order_key(tag: Seq<char>) -> Seq<char> {
    if semver_triple(normalized_version(tag)) is Some {
        normalized_version(tag)
    } else {
        "0.0.0"@
    }
}

pub(crate) fn order_key_exec(tag: &str) -> (r: String)
    ensures
        r@ == order_key(tag@),
        semver_triple(r@) is Some,
{
    let v = normalize_version(tag);
    match semver_parse(v.as_str()) {
        Some(_) => v,
        None => {
            zero_version_parses();
            "0.0.0".to_owned()
        },
    }
}

/// No tag of the scope among `tags` is newer than `t`: each has the same
/// order text as `t` or is ordered at most as high.
pub open spec fn none_newer(tags: Seq<Seq<char>>, t: Seq<char>, scope: Seq<char>) -> bool {
    forall|j: int|
        0 <= j < tags.len() && in_scope(#[trigger] tags[j], scope) ==> order_key(tags[j]) == order_key(t)
            || semver_order(order_key(t), order_key(tags[j])) >= 0
}

/// The scope a tag belongs to: the text before its first `/`, or `(root)`.
pub open spec fn tag_scope(tag: Seq<char>) -> Seq<char> {
    match split_once(tag, '/') {
        Some(p) => p.0,
        None => "(root)"@,
    }
}

/// Whether a tag is one of the scope's: root tags hold no `/`, the others
/// start with `scope/`.
pub open spec fn in_scope(tag: Seq<char>, scope: Seq<char>) -> bool {
    if scope == "(root)"@ {
        !has_char(tag, '/')
    } else {
        starts_with(tag, scope + "/"@)
    }
}

/// The newest of the scope's tags among `tags`, by `semver_order` of their
/// order texts; of equally new tags the later one.
pub open spec fn latest_of(tags: Seq<Seq<char>>, scope: Seq<char>) -> Option<Seq<char>>
    decreases tags.len(),
{
    if tags.len() == 0 {
        None
    } else {
        let prev = latest_of(tags.drop_last(), scope);
        let t = tags.last();
        if !in_scope(t, scope) {
            prev
        } else {
            match prev {
                None => Some(t),
                Some(c) => if semver_order(order_key(c), order_key(t)) == 1 {
                    Some(c)
                } else {
                    Some(t)
                },
            }
        }
    }
}

/// Whether a scope occurs among the first `k` tags.
pub open spec fn scope_seen(all: Seq<Seq<char>>, k: int, scope: Seq<char>) -> bool {
    exists|j: int| 0 <= j < k && #[trigger] tag_scope(all[j]) == scope
}

/// The newest tag of each scope among the first `k` tags, scopes in the order
/// in which they first occur.
pub open spec fn latest_by_scope(all: Seq<Seq<char>>, k: int) -> Seq<(Seq<char>, Seq<char>)>
    decreases k,
{
    if k <= 0 {
        Seq::empty()
    } else {
        let prev = latest_by_scope(all, k - 1);
        let scope = tag_scope(all[k - 1]);
        if scope_seen(all, k - 1, scope) {
            prev
        } else {
            match latest_of(all, scope) {
                Some(t) => prev.push((scope, t)),
                None => prev,
            }
        }
    }
}

fn tag_scope_exec(tag: &str) -> (r: String)
    ensures
        r@ == tag_scope(tag@),
{
    let v = chars_of(tag);
    match find_char_exec(v.as_slice(), '/') {
        Some(i) => {
            let s = slice_of(v.as_slice(), 0, i);
            assert(s@ =~= v@.take(i as int));
            string_of(s.as_slice())
        },
        None => "(root)".to_owned(),
    }
}

fn in_scope_exec(tag: &str, scope: &str) -> (r: bool)
    ensures
        r == in_scope(tag@, scope@),
{
    let v = chars_of(tag);
    if str_eq(scope, "(root)") {
        !has_char_exec(v.as_slice(), '/')
    } else {
        let mut p = chars_of(scope);
        append_str(&mut p, "/");
        starts_with_exec(v.as_slice(), p.as_slice())
    }
}

fn latest_of_exec(all: &[String], scope: &str) -> (r: Option<String>)
    ensures
        match r {
            Some(t) => latest_of(string_views(all@), scope@) == Some(t@) && none_newer(
                string_views(all@),
                t@,
                scope@,
            ),
            None => latest_of(string_views(all@), scope@) is None,
        },
{
    let ghost sv = string_views(all@);
    zero_version_parses();
    let mut cur: Option<String> = None;
    let mut i: usize = 0;
    while i < all.len()
        invariant
            i <= all.len(),
            sv == string_views(all@),
            semver_triple("0.0.0"@) is Some,
            match cur {
                Some(t) => latest_of(sv.take(i as int), scope@) == Some(t@) && none_newer(
                    sv.take(i as int),
                    t@,
                    scope@,
                ),
                None => latest_of(sv.take(i as int), scope@) is None,
            },
        decreases all.len() - i,
    {
        let ghost before = sv.take(i as int);
        let ghost after = sv.take(i + 1);
        proof {
            assert(after.drop_last() =~= before);
            assert(after.last() == all@[i as int]@);
            assert forall|j: int| 0 <= j < i implies after[j] == before[j] by {}
            if cur is None {
                assert forall|j: int| 0 <= j < i implies !in_scope(#[trigger] before[j], scope@) by {
                    lemma_latest_of_none(before, scope@, j);
                }
            }
        }
        if in_scope_exec(all[i].as_str(), scope) {
            let next = match cur {
                None => all[i].clone(),
                Some(c) => {
                    let a = order_key_exec(c.as_str());
                    let b = order_key_exec(all[i].as_str());
                    let o = semver_compare(a.as_str(), b.as_str());
                    if o == 1 {
                        c
                    } else {
                        proof {
                            assert forall|j: int|
                                0 <= j < i + 1 && in_scope(#[trigger] after[j], scope@) implies order_key(after[j])
                                == order_key(all@[i as int]@) || semver_order(
                                order_key(all@[i as int]@),
                                order_key(after[j]),
                            ) >= 0 by {
                                if j < i {
                                    assert(before[j] == after[j]);
                                    if order_key(after[j]) == order_key(c@) {
                                    } else {
                                        assert(semver_triple(order_key(after[j])) is Some) by {
                                            lemma_order_key_parses(after[j]);
                                        }
                                    }
                                }
                            }
                        }
                        all[i].clone()
                    }
                },
            };
            cur = Some(next);
        }
        i = i + 1;
    }
    assert(sv.take(all.len() as int) =~= sv);
    cur
}

/// A scope with no newest tag among `tags` has no tag there.
proof fn lemma_latest_of_none(tags: Seq<Seq<char>>, scope: Seq<char>, j: int)
    requires
        latest_of(tags, scope) is None,
        0 <= j < tags.len(),
    ensures
        !in_scope(tags[j], scope),
    decreases tags.len(),
{
    if j < tags.len() - 1 {
        assert(tags.drop_last()[j] == tags[j]);
        lemma_latest_of_none(tags.drop_last(), scope, j);
    }
}

/// `semver` reads every order text, since it reads the `0.0.0` that stands
/// in for a version text it refuses.
pub proof fn lemma_order_key_parses(tag: Seq<char>)
    requires
        semver_triple("0.0.0"@) is Some,
    ensures
        semver_triple(order_key(tag)) is Some,
{
}

/// Reads `0.0.0` with `semver`, which brings in that it is accepted.
pub(crate) fn zero_version_parses()
    ensures
        semver_triple("0.0.0"@) is Some,
{
    let _ = semver_parse("0.0.0");
}

pub open spec fn pair_views(v: Seq<(String, String)>) -> Seq<(Seq<char>, Seq<char>)> {
    v.map_values(|p: (String, String)| (p.0@, p.1@))
}

/// The newest tag of each scope, by semantic version, scopes in the order in
/// which they first occur among `all`. No tag of a scope is newer than the
/// one given for it.
pub fn get_latest_tags_by_scope(all: &[String]) -> (r: Vec<(String, String)>)
    ensures
        pair_views(r@) == latest_by_scope(string_views(all@), all@.len() as int),
        forall|q: int|
            0 <= q < r@.len() ==> none_newer(string_views(all@), (#[trigger] r@[q]).1@, r@[q].0@),
        forall|p: int, q: int| 0 <= p < q < r@.len() ==> (#[trigger] r@[p]).0@ != (#[trigger] r@[q]).0@,
{
    let ghost sv = string_views(all@);
    let mut result: Vec<(String, String)> = Vec::new();
    let mut seen: Vec<String> = Vec::new();
    let mut k: usize = 0;
    while k < all.len()
        invariant
            k <= all.len(),
            sv == string_views(all@),
            pair_views(result@) == latest_by_scope(sv, k as int),
            forall|q: int| 0 <= q < result@.len() ==> none_newer(sv, (#[trigger] result@[q]).1@, result@[q].0@),
            forall|q: int| 0 <= q < result@.len() ==> string_views(seen@).contains((#[trigger] result@[q]).0@),
            forall|p: int, q: int|
                0 <= p < q < result@.len() ==> (#[trigger] result@[p]).0@ != (#[trigger] result@[q]).0@,
            forall|s: Seq<char>| scope_seen(sv, k as int, s) <==> string_views(seen@).contains(s),
        decreases all.len() - k,
    {
        let scope = tag_scope_exec(all[k].as_str());
        assert(sv[k as int] == all@[k as int]@);
        let mut j: usize = 0;
        let mut found = false;
        while j < seen.len()
            invariant
                j <= seen.len(),
                found ==> string_views(seen@).contains(scope@),
                !found ==> forall|q: int| 0 <= q < j ==> #[trigger] seen@[q]@ != scope@,
            decreases seen.len() - j,
        {
            if str_eq(seen[j].as_str(), scope.as_str()) {
                assert(string_views(seen@)[j as int] == scope@);
                found = true;
            }
            j = j + 1;
        }
        proof {
            if !found {
                assert forall|q: int| 0 <= q < string_views(seen@).len() implies string_views(seen@)[q]
                    != scope@ by {
                    assert(string_views(seen@)[q] == seen@[q]@);
                }
            }
        }
        let ghost before_seen = string_views(seen@);
        if !found {
            let ghost before = result@;
            match latest_of_exec(all, scope.as_str()) {
                Some(t) => {
                    let entry = (scope.clone(), t);
                    result.push(entry);
                    assert(pair_views(result@) =~= pair_views(before).push((scope@, entry.1@)));
                    assert(result@[result@.len() - 1] == entry);
                },
                None => {},
            }
            seen.push(scope);
            assert(string_views(seen@) =~= before_seen.push(scope@));
        }
        proof {
            let now = string_views(seen@);
            assert(tag_scope(sv[k as int]) == scope@);
            assert(now.contains(scope@)) by {
                if found {
                    assert(now == before_seen);
                } else {
                    assert(now[now.len() - 1] == scope@);
                }
            }
            assert forall|s: Seq<char>| #[trigger] before_seen.contains(s) implies now.contains(s) by {
                let q = choose|q: int| 0 <= q < before_seen.len() && before_seen[q] == s;
                assert(now[q] == s);
            }
            assert forall|s: Seq<char>| scope_seen(sv, k + 1, s) implies now.contains(s) by {
                let j0 = choose|j0: int| 0 <= j0 < k + 1 && #[trigger] tag_scope(sv[j0]) == s;
                if j0 < k {
                    assert(scope_seen(sv, k as int, s));
                    assert(before_seen.contains(s));
                }
            }
            assert forall|s: Seq<char>| now.contains(s) implies scope_seen(sv, k + 1, s) by {
                if s == scope@ {
                    assert(tag_scope(sv[k as int]) == s);
                } else {
                    let q = choose|q: int| 0 <= q < now.len() && now[q] == s;
                    if !found {
                        assert(q < before_seen.len());
                    }
                    assert(before_seen[q] == s);
                    assert(before_seen.contains(s));
                    assert(scope_seen(sv, k as int, s));
                    let j0 = choose|j0: int| 0 <= j0 < k && #[trigger] tag_scope(sv[j0]) == s;
                    assert(tag_scope(sv[j0]) == s);
                }
            }
        }
        k = k + 1;
    }
    result
}

} // verus!
