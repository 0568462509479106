//! Scopes: the components of a repository that are released separately.

use vstd::prelude::*;
use crate::text::{
    chars_of, ends_with, ends_with_exec, lines, lines_exec, slice_of, starts_with, starts_with_exec,
    string_of, trim, trim_exec, views,
};

verus! {

/// A scope as the project contract declares it: its name and its directory
/// relative to the repository root.
pub struct Scope {
    pub name: String,
    pub dir: String,
}

pub open spec fn scope_views(s: Seq<Scope>) -> Seq<(Seq<char>, Seq<char>)> {
    s.map_values(|x: Scope| (x.name@, x.dir@))
}

/// The number of spaces a line starts with.
pub open spec fn indent(l: Seq<char>) -> nat
    decreases l.len(),
{
    if l.len() > 0 && l[0] == ' ' {
        1 + indent(l.drop_first())
    } else {
        0
    }
}

/// Reading the `scopes:` block of a contract, line by line: a top-level
/// key opens or closes the block; inside it, a key indented by two spaces
/// (`  name:`) starts a scope, and `    dir: <path>` under it sets the
/// scope's directory.
pub open spec fn scopes_scan(ls: Seq<Seq<char>>, inside: bool, acc: Seq<(Seq<char>, Seq<char>)>) -> Seq<(Seq<char>, Seq<char>)>
    decreases ls.len(),
{
    if ls.len() == 0 {
        acc
    } else {
        let l = ls[0];
        let t = trim(l);
        let rest = ls.drop_first();
        if t.len() == 0 || starts_with(t, "#"@) {
            scopes_scan(rest, inside, acc)
        } else if indent(l) == 0 {
            scopes_scan(rest, t == "scopes:"@, acc)
        } else if inside && indent(l) == 2 && ends_with(t, ":"@) {
            scopes_scan(rest, inside, acc.push((t.drop_last(), Seq::empty())))
        } else if inside && indent(l) == 4 && starts_with(t, "dir:"@) && acc.len() > 0 {
            scopes_scan(rest, inside, acc.update(acc.len() - 1, (acc.last().0, trim(t.skip(4)))))
        } else {
            scopes_scan(rest, inside, acc)
        }
    }
}

fn indent_exec(v: &[char]) -> (r: usize)
    ensures
        r == indent(v@),
{
    let mut i: usize = 0;
    assert(v@.skip(0) =~= v@);
    while i < v.len() && v[i] == ' '
        invariant
            i <= v.len(),
            indent(v@) == i + indent(v@.skip(i as int)),
        decreases v.len() - i,
    {
        assert(v@.skip(i as int).drop_first() =~= v@.skip(i + 1));
        i = i + 1;
    }
    i
}

/// Reads the scopes a contract declares (in the plain block form of its
/// `scopes:` section), in their order.
pub fn contract_scopes(text: &str) -> (r: Vec<Scope>)
    ensures
        scope_views(r@) == scopes_scan(lines(text@), false, Seq::empty()),
{
    let c = chars_of(text);
    let ls = lines_exec(c.as_slice());
    let ghost all = views(ls@);
    let hash = chars_of("#");
    let key = chars_of("scopes:");
    let colon = chars_of(":");
    let dir_key = chars_of("dir:");
    let mut inside = false;
    let mut out: Vec<Scope> = Vec::new();
    let mut i: usize = 0;
    assert(all.skip(0) =~= all);
    assert(scope_views(out@) =~= Seq::<(Seq<char>, Seq<char>)>::empty());
    while i < ls.len()
        invariant
            i <= ls.len(),
            all == views(ls@),
            hash@ == "#"@,
            key@ == "scopes:"@,
            colon@ == ":"@,
            dir_key@ == "dir:"@,
            scopes_scan(all.skip(i as int), inside, scope_views(out@)) == scopes_scan(all, false, Seq::empty()),
        decreases ls.len() - i,
    {
        let line = &ls[i];
        proof {
            assert(all.skip(i as int)[0] == line@);
            assert(all.skip(i as int).drop_first() =~= all.skip(i + 1));
        }
        let t = trim_exec(line.as_slice());
        let ind = indent_exec(line.as_slice());
        let ghost before = scope_views(out@);
        if t.len() == 0 || starts_with_exec(t.as_slice(), hash.as_slice()) {
        } else if ind == 0 {
            inside = t.len() == key.len() && starts_with_exec(t.as_slice(), key.as_slice());
            proof {
                if t@ == key@ {
                    assert(t@.subrange(0, key@.len() as int) =~= t@);
                }
                if inside {
                    assert(t@.subrange(0, key@.len() as int) =~= t@);
                    assert(t@ =~= key@);
                }
            }
        } else if inside && ind == 2 && ends_with_exec(t.as_slice(), colon.as_slice()) {
            let name = slice_of(t.as_slice(), 0, t.len() - 1);
            assert(name@ =~= t@.drop_last());
            let sc = Scope { name: string_of(name.as_slice()), dir: String::new() };
            out.push(sc);
            assert(scope_views(out@) =~= before.push((t@.drop_last(), Seq::<char>::empty())));
        } else if inside && ind == 4 && starts_with_exec(t.as_slice(), dir_key.as_slice()) && out.len() > 0 {
            proof {
                reveal_strlit("dir:");
            }
            let tail = slice_of(t.as_slice(), dir_key.len(), t.len());
            assert(tail@ =~= t@.skip(4));
            let d = trim_exec(tail.as_slice());
            let last = out.len() - 1;
            let name = out[last].name.clone();
            let sc = Scope { name, dir: string_of(d.as_slice()) };
            out.set(last, sc);
            assert(scope_views(out@) =~= before.update(last as int, (before.last().0, d@)));
        }
        i = i + 1;
    }
    assert(all.skip(ls.len() as int) =~= Seq::<Seq<char>>::empty());
    out
}

} // verus!
