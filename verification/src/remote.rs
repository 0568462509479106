//! The GitHub repository behind a remote URL, read by a pattern that must
//! run to the end of the URL: exactly `owner/name`, with an optional `.git`.

use vstd::prelude::*;
use crate::text::{
    append, chars_of, ends_with, ends_with_exec, find_char_exec, has_char, has_char_exec, matches_at,
    matches_at_exec, slice_of, split_once, string_of,
};

verus! {

/// A repository's name as a remote URL gives it: a trailing `.git` is
/// dropped unless nothing would be left.
pub open spec fn repo_name(t: Seq<char>) -> Seq<char> {
    if t.len() > 4 && ends_with(t, ".git"@) {
        t.take(t.len() - 4)
    } else {
        t
    }
}

/// `owner/name` from what follows `github.com` and its `/` or `:`: exactly
/// one `/`, with a non-empty owner before it and a non-empty name after it.
pub open spec fn owner_repo(r: Seq<char>) -> Option<Seq<char>> {
    match split_once(r, '/') {
        Some(p) => if p.0.len() > 0 && p.1.len() > 0 && !has_char(p.1, '/') {
            Some(p.0 + "/"@ + repo_name(p.1))
        } else {
            None
        },
        None => None,
    }
}

/// What the pattern `github.com[/:]owner/name[.git]`, held to the end of the
/// URL, reads when it starts at index `i`.
pub open spec fn github_match_at(url: Seq<char>, i: int) -> Option<Seq<char>> {
    if matches_at(url, "github.com"@, i) && i + 10 < url.len() && (url[i + 10] == '/' || url[i + 10] == ':') {
        owner_repo(url.skip(i + 11))
    } else {
        None
    }
}

/// The first match of the pattern at index `i` or later.
pub open spec fn github_repo_from(url: Seq<char>, i: int) -> Option<Seq<char>>
    decreases url.len() - i,
{
    if i < 0 || i >= url.len() {
        None
    } else {
        match github_match_at(url, i) {
            Some(r) => Some(r),
            None => github_repo_from(url, i + 1),
        }
    }
}

/// The `owner/repo` a remote URL points to on GitHub: the leftmost place
/// where `github.com`, a `/` or `:`, and `owner/name` with an optional
/// `.git` run to the end of the URL.
pub open spec fn github_pattern_repo(url: Seq<char>) -> Option<Seq<char>> {
    github_repo_from(url, 0)
}

fn owner_repo_exec(r: &[char]) -> (o: Option<Vec<char>>)
    ensures
        match o {
            Some(x) => owner_repo(r@) == Some(x@),
            None => owner_repo(r@) is None,
        },
{
    match find_char_exec(r, '/') {
        None => None,
        Some(p) => {
            let owner = slice_of(r, 0, p);
            let name = slice_of(r, p + 1, r.len());
            assert(owner@ =~= r@.take(p as int));
            assert(name@ =~= r@.skip(p + 1));
            if owner.len() == 0 || name.len() == 0 || has_char_exec(name.as_slice(), '/') {
                return None;
            }
            let git = chars_of(".git");
            proof {
                reveal_strlit(".git");
            }
            let nm = if name.len() > 4 && ends_with_exec(name.as_slice(), git.as_slice()) {
                let k = slice_of(name.as_slice(), 0, name.len() - 4);
                assert(k@ =~= name@.take(name@.len() - 4));
                k
            } else {
                name
            };
            let mut out = owner;
            out.push('/');
            append(&mut out, nm.as_slice());
            assert(out@ =~= r@.take(p as int) + "/"@ + repo_name(r@.skip(p + 1))) by {
                reveal_strlit("/");
            }
            Some(out)
        },
    }
}

/// Reads `owner/repo` out of a GitHub remote URL, over HTTPS or SSH, by
/// the pattern `github\.com[/:]([^/]+/[^/]+?)(?:\.git)?$`.
pub fn parse_github_repo(url: &str) -> (r: Option<String>)
    ensures
        match r {
            Some(s) => github_pattern_repo(url@) == Some(s@),
            None => github_pattern_repo(url@) is None,
        },
{
    let v = chars_of(url);
    let h = chars_of("github.com");
    proof {
        reveal_strlit("github.com");
    }
    let mut found: Option<Vec<char>> = None;
    let mut i: usize = v.len();
    while i > 0
        invariant
            i <= v.len(),
            h@ == "github.com"@,
            match found {
                Some(x) => github_repo_from(v@, i as int) == Some(x@),
                None => github_repo_from(v@, i as int) is None,
            },
        decreases i,
    {
        i = i - 1;
        if 10 < v.len() - i && (v[i + 10] == '/' || v[i + 10] == ':') && matches_at_exec(
            v.as_slice(),
            h.as_slice(),
            i,
        ) {
            let rest = slice_of(v.as_slice(), i + 11, v.len());
            assert(rest@ =~= v@.skip(i + 11));
            match owner_repo_exec(rest.as_slice()) {
                Some(x) => {
                    found = Some(x);
                },
                None => {},
            }
        }
    }
    match found {
        Some(x) => Some(string_of(x.as_slice())),
        None => None,
    }
}

} // verus!
