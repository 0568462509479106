//! Git invocations of a release: which files to stage, how to commit, how
//! to count the commits since a tag, and how to read the answers.

use vstd::prelude::*;
use crate::release::{join_path, join_path_exec, string_views, strip_path_prefix, strip_path_prefix_exec};
use crate::tag::str_eq;
use crate::text::{
    append_str, chars_of, parse_usize, parse_usize_exec, string_of, trim, trim_exec,
    trim_leading, trim_leading_exec,
};

verus! {

/// The files to stage, relative to the repository: those that exist, and
/// of them those inside the repository. Each file comes with whether it
/// exists.
pub open spec fn rel_paths(repo: Seq<char>, files: Seq<(Seq<char>, bool)>) -> Seq<Seq<char>>
    decreases files.len(),
{
    if files.len() == 0 {
        Seq::empty()
    } else {
        let rest = rel_paths(repo, files.drop_last());
        let f = files.last();
        if !f.1 {
            rest
        } else {
            match strip_path_prefix(f.0, repo) {
                Some(r) => rest.push(r),
                None => rest,
            }
        }
    }
}

pub open spec fn file_views(v: Seq<(String, bool)>) -> Seq<(Seq<char>, bool)> {
    v.map_values(|f: (String, bool)| (f.0@, f.1))
}

/// The arguments of the `git add` that stages `files`, each given with
/// whether it exists: files that do not exist are skipped, as are files
/// outside the repository. None when nothing is left to stage, which counts
/// as done.
pub fn stage_files(repo_path: &str, files: &[(String, bool)]) -> (r: Option<Vec<String>>)
    ensures
        match r {
            None => rel_paths(repo_path@, file_views(files@)).len() == 0,
            Some(args) => rel_paths(repo_path@, file_views(files@)).len() > 0 && string_views(
                args@,
            ) == seq!["add"@] + rel_paths(repo_path@, file_views(files@)),
        },
{
    let ghost fv = file_views(files@);
    let mut rels: Vec<String> = Vec::new();
    let mut i: usize = 0;
    while i < files.len()
        invariant
            i <= files.len(),
            fv == file_views(files@),
            string_views(rels@) == rel_paths(repo_path@, fv.take(i as int)),
        decreases files.len() - i,
    {
        proof {
            assert(fv.take(i + 1).drop_last() =~= fv.take(i as int));
            assert(fv.take(i + 1).last() == (files@[i as int].0@, files@[i as int].1));
        }
        if files[i].1 {
            match strip_path_prefix_exec(files[i].0.as_str(), repo_path) {
                Some(r) => {
                    let ghost before = rels@;
                    rels.push(r);
                    assert(string_views(rels@) =~= string_views(before).push(r@));
                },
                None => {},
            }
        }
        i = i + 1;
    }
    assert(fv.take(files.len() as int) =~= fv);
    if rels.len() == 0 {
        return None;
    }
    let mut args: Vec<String> = Vec::new();
    args.push("add".to_owned());
    let mut k: usize = 0;
    while k < rels.len()
        invariant
            k <= rels.len(),
            string_views(args@) == seq!["add"@] + string_views(rels@).take(k as int),
        decreases rels.len() - k,
    {
        let ghost before = args@;
        let c = rels[k].clone();
        assert(c@ == rels@[k as int]@);
        args.push(c);
        assert(string_views(args@) =~= string_views(before).push(c@));
        assert(string_views(rels@).take(k + 1) =~= string_views(rels@).take(k as int).push(c@));
        assert(string_views(args@) =~= seq!["add"@] + string_views(rels@).take(k + 1));
        k = k + 1;
    }
    assert(string_views(rels@).take(rels.len() as int) =~= string_views(rels@));
    Some(args)
}

/// The arguments of the `git commit` that records the staged changes.
pub fn commit(message: &str) -> (r: Vec<String>)
    ensures
        string_views(r@) == seq!["commit"@, "-m"@, message@],
{
    let mut v: Vec<String> = Vec::new();
    v.push("commit".to_owned());
    v.push("-m".to_owned());
    v.push(message.to_owned());
    assert(string_views(v@) =~= seq!["commit"@, "-m"@, message@]);
    v
}

/// A working tree is clean when neither the files (`git diff --quiet`) nor
/// the index (`git diff --cached --quiet`) differ; the index is only asked
/// about when the files are clean.
pub fn is_clean(worktree_unchanged: bool, index_unchanged: bool) -> (r: bool)
    ensures
        r == (worktree_unchanged && index_unchanged),
{
    worktree_unchanged && index_unchanged
}

/// The `.git` entry whose presence marks a repository.
pub fn git_dir(path: &str) -> (r: String)
    ensures
        r@ == join_path(path@, ".git"@),
{
    join_path_exec(path, ".git")
}

/// A directory is a repository (or a submodule's work tree) when its `.git`
/// entry is a directory or a file.
pub fn is_git_repo(git_dir_is_dir: bool, git_dir_is_file: bool) -> (r: bool)
    ensures
        r == (git_dir_is_dir || git_dir_is_file),
{
    git_dir_is_dir || git_dir_is_file
}

/// `git rev-list --count <tag>..HEAD`, restricted to a path unless that is
/// empty or `.`.
pub open spec fn rev_list_args_spec(tag: Seq<char>, filter: Option<Seq<char>>) -> Seq<Seq<char>> {
    seq!["rev-list"@, "--count"@, tag + ".."@ + "HEAD"@] + match filter {
        Some(f) => if f.len() > 0 && f != "."@ {
            seq!["--"@, f]
        } else {
            Seq::empty()
        },
        None => Seq::empty(),
    }
}

pub fn rev_list_args(tag: &str, path_filter: Option<&str>) -> (r: Vec<String>)
    ensures
        string_views(r@) == rev_list_args_spec(
            tag@,
            match path_filter {
                Some(f) => Some(f@),
                None => None,
            },
        ),
{
    let mut range: Vec<char> = Vec::new();
    append_str(&mut range, tag);
    append_str(&mut range, "..");
    append_str(&mut range, "HEAD");
    let mut v: Vec<String> = Vec::new();
    v.push("rev-list".to_owned());
    v.push("--count".to_owned());
    v.push(string_of(range.as_slice()));
    let ghost three = string_views(v@);
    match path_filter {
        Some(f) => {
            let fc = chars_of(f);
            if fc.len() > 0 && !str_eq(f, ".") {
                v.push("--".to_owned());
                v.push(f.to_owned());
            }
        },
        None => {},
    }
    assert(string_views(v@) =~= rev_list_args_spec(
        tag@,
        match path_filter {
            Some(f) => Some(f@),
            None => None,
        },
    ));
    v
}

/// Where and how to count a scope's commits since `tag`: inside the scope
/// when it is a repository of its own (a submodule), else in the main
/// repository, restricted to the scope's path there.
pub open spec fn unreleased_count_spec(
    repo: Seq<char>,
    tag: Seq<char>,
    scope_dir: Seq<char>,
    scope_is_repo: bool,
) -> (Seq<char>, Seq<Seq<char>>) {
    if scope_is_repo {
        (scope_dir, rev_list_args_spec(tag, None))
    } else {
        let rel = match strip_path_prefix(scope_dir, repo) {
            Some(r) => r,
            None => scope_dir,
        };
        (repo, rev_list_args_spec(tag, Some(trim_leading(rel, '/'))))
    }
}

pub fn unreleased_count_command(repo_path: &str, tag: &str, scope_dir: &str, scope_is_repo: bool) -> (r: (
    String,
    Vec<String>,
))
    ensures
        (r.0@, string_views(r.1@)) == unreleased_count_spec(repo_path@, tag@, scope_dir@, scope_is_repo),
{
    if scope_is_repo {
        return (scope_dir.to_owned(), rev_list_args(tag, None));
    }
    let rel = match strip_path_prefix_exec(scope_dir, repo_path) {
        Some(r) => r,
        None => scope_dir.to_owned(),
    };
    let rc = chars_of(rel.as_str());
    let trimmed = trim_leading_exec(rc.as_slice(), '/');
    let t = string_of(trimmed.as_slice());
    (repo_path.to_owned(), rev_list_args(tag, Some(t.as_str())))
}

/// Reads the count that `git rev-list --count` printed.
pub fn parse_count(stdout: &str) -> (r: Option<usize>)
    ensures
        r == parse_usize(trim(stdout@)),
{
    let c = chars_of(stdout);
    let t = trim_exec(c.as_slice());
    parse_usize_exec(t.as_slice())
}

/// What a git command gave: its trimmed output when it succeeded, else its
/// trimmed error output, or a plain message when that is empty.
pub open spec fn git_output_spec(success: bool, stdout: Seq<char>, stderr: Seq<char>) -> Result<Seq<char>, Seq<char>> {
    if success {
        Ok(trim(stdout))
    } else if trim(stderr).len() == 0 {
        Err("git 命令失败"@)
    } else {
        Err(trim(stderr))
    }
}

pub fn git_output_result(success: bool, stdout: &str, stderr: &str) -> (r: Result<String, String>)
    ensures
        match r {
            Ok(s) => git_output_spec(success, stdout@, stderr@) == Ok::<Seq<char>, Seq<char>>(s@),
            Err(e) => git_output_spec(success, stdout@, stderr@) == Err::<Seq<char>, Seq<char>>(e@),
        },
{
    if success {
        return Ok(string_of(trim_exec(chars_of(stdout).as_slice()).as_slice()));
    }
    let t = trim_exec(chars_of(stderr).as_slice());
    if t.len() == 0 {
        Err("git 命令失败".to_owned())
    } else {
        Err(string_of(t.as_slice()))
    }
}

} // verus!
