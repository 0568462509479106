//! Release plans: what a release will write, computed before anything is
//! written, and the checks a plan must pass.

use vstd::prelude::*;
use crate::release::{
    join_lines, join_lines_exec, join_path, join_path_exec, normalize_version, normalized_version,
    precheck_errors, precheck_version_changelog, string_views,
};
use crate::tag::{opt_view, str_eq};
use crate::text::{
    append, append_str, chars_of, find, find_exec, lemma_find, lemma_trim_starts_contains, lines,
    lines_exec, slice_of, starts_with, starts_with_exec, string_of, trim, trim_exec, views, decimal,
    decimal_exec, prefix_before, has_char, strip_cr, lemma_find_char_concat, lemma_indent,
    lemma_lines_concat, lemma_lines_no_newline, lemma_trim_strip_cr, lemma_trim_ws_prefix_body, is_ws,
};

verus! {

// ───────────────────────────── version lines ─────────────────────────────

/// One line of a manifest with its version set to `ver`: a TOML
/// `version = "..."` line or a JSON `"version": ...` line is rewritten with
/// its indentation kept; any other line stays as it is.
pub open spec fn updated_line(l: Seq<char>, ver: Seq<char>) -> Seq<char> {
    let t = trim(l);
    let toml = "version = \""@;
    let json = "\"version\":"@;
    if starts_with(t, toml) {
        l.take(find(l, toml).unwrap()) + toml + ver + "\"\n"@
    } else if starts_with(t, json) {
        l.take(find(l, json).unwrap()) + "\"version\": \""@ + ver + "\",\n"@
    } else {
        l + "\n"@
    }
}

/// A manifest with its version lines set to `ver`, each line ended by `\n`.
pub open spec fn updated_content(ls: Seq<Seq<char>>, ver: Seq<char>) -> Seq<char>
    decreases ls.len(),
{
    if ls.len() == 0 {
        Seq::empty()
    } else {
        updated_content(ls.drop_last(), ver) + updated_line(ls.last(), ver)
    }
}

fn push_updated_line(out: &mut Vec<char>, l: &[char], ver: &[char])
    ensures
        final(out)@ == old(out)@ + updated_line(l@, ver@),
{
    let toml = chars_of("version = \"");
    let json = chars_of("\"version\":");
    proof {
        reveal_strlit("version = \"");
        reveal_strlit("\"version\":");
    }
    let t = trim_exec(l);
    if starts_with_exec(t.as_slice(), toml.as_slice()) {
        proof {
            lemma_trim_starts_contains(l@, toml@);
            lemma_find(l@, toml@);
        }
        let i = match find_exec(l, toml.as_slice()) {
            Some(i) => i,
            None => 0,
        };
        let indent = slice_of(l, 0, i);
        append(out, indent.as_slice());
        append(out, toml.as_slice());
        append(out, ver);
        append_str(out, "\"\n");
    } else if starts_with_exec(t.as_slice(), json.as_slice()) {
        proof {
            lemma_trim_starts_contains(l@, json@);
            lemma_find(l@, json@);
        }
        let i = match find_exec(l, json.as_slice()) {
            Some(i) => i,
            None => 0,
        };
        let indent = slice_of(l, 0, i);
        append(out, indent.as_slice());
        append_str(out, "\"version\": \"");
        append(out, ver);
        append_str(out, "\",\n");
    } else {
        append(out, l);
        append_str(out, "\n");
    }
    assert(final(out)@ =~= old(out)@ + updated_line(l@, ver@));
}

/// Sets the version in the text of a manifest (`Cargo.toml`,
/// `pyproject.toml`, `package.json`).
pub fn update_version_in_content(content: &str, new_ver: &str) -> (r: String)
    ensures
        r@ == updated_content(lines(content@), new_ver@),
{
    let c = chars_of(content);
    let ver = chars_of(new_ver);
    let ls = lines_exec(c.as_slice());
    let ghost all = views(ls@);
    let mut out: Vec<char> = Vec::new();
    let mut i: usize = 0;
    while i < ls.len()
        invariant
            i <= ls.len(),
            all == views(ls@),
            all == lines(content@),
            ver@ == new_ver@,
            out@ == updated_content(all.take(i as int), new_ver@),
        decreases ls.len() - i,
    {
        proof {
            assert(all.take(i + 1).drop_last() =~= all.take(i as int));
            assert(all.take(i + 1).last() == ls@[i as int]@);
        }
        push_updated_line(&mut out, ls[i].as_slice(), ver.as_slice());
        i = i + 1;
    }
    assert(all.take(ls.len() as int) =~= all);
    string_of(out.as_slice())
}

/// The text of `s` up to its first double quote.
pub open spec fn up_to_quote(s: Seq<char>) -> Seq<char> {
    match find(s, "\""@) {
        Some(k) => s.take(k),
        None => s,
    }
}

/// The version a manifest line declares: the quoted value of a TOML
/// `version = "..."` line or of a JSON `"version": "..."` line.
pub open spec fn line_version(l: Seq<char>) -> Option<Seq<char>> {
    let t = trim(l);
    if starts_with(t, "version = \""@) {
        Some(up_to_quote(t.skip(11)))
    } else if starts_with(t, "\"version\":"@) {
        let r = trim(t.skip(10));
        if starts_with(r, "\""@) {
            Some(up_to_quote(r.skip(1)))
        } else {
            None
        }
    } else {
        None
    }
}

/// The version of the first version line among `ls`.
pub open spec fn first_version(ls: Seq<Seq<char>>) -> Option<Seq<char>>
    decreases ls.len(),
{
    if ls.len() == 0 {
        None
    } else {
        match line_version(ls[0]) {
            Some(v) => Some(v),
            None => first_version(ls.drop_first()),
        }
    }
}

fn line_version_exec(l: &[char]) -> (r: Option<String>)
    ensures
        match r {
            Some(v) => line_version(l@) == Some(v@),
            None => line_version(l@) == None::<Seq<char>>,
        },
{
    let toml = chars_of("version = \"");
    let json = chars_of("\"version\":");
    let quote = chars_of("\"");
    proof {
        reveal_strlit("version = \"");
        reveal_strlit("\"version\":");
        reveal_strlit("\"");
    }
    let t = trim_exec(l);
    if starts_with_exec(t.as_slice(), toml.as_slice()) {
        let rest = slice_of(t.as_slice(), 11, t.len());
        assert(rest@ =~= t@.skip(11));
        let v = prefix_before(rest.as_slice(), quote.as_slice());
        Some(string_of(v.as_slice()))
    } else if starts_with_exec(t.as_slice(), json.as_slice()) {
        let after = slice_of(t.as_slice(), 10, t.len());
        assert(after@ =~= t@.skip(10));
        let r = trim_exec(after.as_slice());
        if starts_with_exec(r.as_slice(), quote.as_slice()) {
            let rest = slice_of(r.as_slice(), 1, r.len());
            assert(rest@ =~= r@.skip(1));
            let v = prefix_before(rest.as_slice(), quote.as_slice());
            Some(string_of(v.as_slice()))
        } else {
            None
        }
    } else {
        None
    }
}

/// The version a manifest declares (`Cargo.toml`, `pyproject.toml`,
/// `package.json`): that of its first version line.
pub fn manifest_version(content: &str) -> (r: Option<String>)
    ensures
        match r {
            Some(v) => first_version(lines(content@)) == Some(v@),
            None => first_version(lines(content@)) == None::<Seq<char>>,
        },
{
    let c = chars_of(content);
    let ls = lines_exec(c.as_slice());
    let ghost all = views(ls@);
    let mut i: usize = 0;
    assert(all.skip(0) =~= all);
    while i < ls.len()
        invariant
            i <= ls.len(),
            all == views(ls@),
            all == lines(content@),
            first_version(all.skip(i as int)) == first_version(all),
        decreases ls.len() - i,
    {
        proof {
            assert(all.skip(i as int)[0] == ls@[i as int]@);
            assert(all.skip(i as int).drop_first() =~= all.skip(i + 1));
        }
        match line_version_exec(ls[i].as_slice()) {
            Some(v) => {
                return Some(v);
            },
            None => {},
        }
        i = i + 1;
    }
    None
}

// ───────────────────────────── reading back what was written ─────────────────────────────

/// Whether `updated_line` rewrites a line: a TOML or a JSON version line.
pub open spec fn is_version_line(l: Seq<char>) -> bool {
    starts_with(trim(l), "version = \""@) || starts_with(trim(l), "\"version\":"@)
}

/// A line as `updated_line` rewrites it, without its line break.
pub open spec fn updated_body(l: Seq<char>, ver: Seq<char>) -> Seq<char> {
    let t = trim(l);
    let toml = "version = \""@;
    let json = "\"version\":"@;
    if starts_with(t, toml) {
        l.take(find(l, toml).unwrap()) + toml + ver + "\""@
    } else if starts_with(t, json) {
        l.take(find(l, json).unwrap()) + "\"version\": \""@ + ver + "\","@
    } else {
        l
    }
}

proof fn lemma_updated_line_body(l: Seq<char>, ver: Seq<char>)
    ensures
        updated_line(l, ver) == updated_body(l, ver) + seq!['\n'],
{
    reveal_strlit("\"\n");
    reveal_strlit("\"");
    reveal_strlit("\",\n");
    reveal_strlit("\",");
    reveal_strlit("\n");
    let t = trim(l);
    if starts_with(t, "version = \""@) {
        assert("\"\n"@ =~= "\""@ + seq!['\n']);
        assert(updated_line(l, ver) =~= updated_body(l, ver) + seq!['\n']);
    } else if starts_with(t, "\"version\":"@) {
        assert("\",\n"@ =~= "\","@ + seq!['\n']);
        assert(updated_line(l, ver) =~= updated_body(l, ver) + seq!['\n']);
    } else {
        assert(updated_line(l, ver) =~= updated_body(l, ver) + seq!['\n']);
    }
}

/// `updated_content` read from the front.
proof fn lemma_updated_front(ls: Seq<Seq<char>>, ver: Seq<char>)
    requires
        ls.len() > 0,
    ensures
        updated_content(ls, ver) == updated_line(ls[0], ver) + updated_content(ls.drop_first(), ver),
    decreases ls.len(),
{
    if ls.len() == 1 {
        assert(ls.drop_last() =~= Seq::<Seq<char>>::empty());
        assert(ls.drop_first() =~= Seq::<Seq<char>>::empty());
        assert(updated_content(ls.drop_last(), ver) == Seq::<char>::empty());
        assert(updated_content(ls.drop_first(), ver) == Seq::<char>::empty());
        assert(ls.last() == ls[0]);
        assert(updated_content(ls, ver) =~= updated_line(ls[0], ver) + Seq::<char>::empty());
    } else {
        lemma_updated_front(ls.drop_last(), ver);
        assert(ls.drop_last().drop_first() =~= ls.drop_first().drop_last());
        assert(ls.drop_first().last() == ls.last());
        assert(ls.drop_last()[0] == ls[0]);
        assert(updated_content(ls, ver) =~= updated_line(ls[0], ver) + updated_content(ls.drop_first(), ver));
    }
}

/// A rewritten version line declares the new version and holds no line
/// break.
proof fn lemma_version_body(l: Seq<char>, ver: Seq<char>)
    requires
        !has_char(l, '\n'),
        !has_char(ver, '"'),
        !has_char(ver, '\n'),
        is_version_line(l),
    ensures
        !has_char(updated_body(l, ver), '\n'),
        line_version(strip_cr(updated_body(l, ver))) == Some(ver),
{
    let toml = "version = \""@;
    let json = "\"version\":"@;
    let q = "\""@;
    reveal_strlit("version = \"");
    reveal_strlit("\"version\":");
    reveal_strlit("\"");
    reveal_strlit("\"version\": \"");
    reveal_strlit("\",");
    let body = updated_body(l, ver);
    if starts_with(trim(l), toml) {
        lemma_indent(l, toml);
        let j = find(l, toml).unwrap();
        let indent = l.take(j);
        let x = toml + ver + q;
        assert(body =~= indent + x);
        assert(x[0] == 'v');
        assert(x.last() == '"');
        lemma_trim_ws_prefix_body(indent, x);
        assert(strip_cr(body) == body);
        assert(x.subrange(0, 11) =~= toml);
        assert(x.skip(11) =~= ver + seq!['"']);
        assert(ver + seq!['"'] =~= ver + seq!['"'] + Seq::<char>::empty());
        lemma_find_char_concat(ver, '"', Seq::<char>::empty());
        assert(q =~= seq!['"']);
        assert((ver + seq!['"']).take(ver.len() as int) =~= ver);
        assert forall|i: int| 0 <= i < body.len() implies body[i] != '\n' by {
            if i < j {
                assert(body[i] == l[i]);
                if l[i] == '\n' {
                    assert(has_char(l, '\n'));
                }
            } else if i < j + 11 {
                assert(body[i] == toml[i - j]);
            } else if i < j + 11 + ver.len() {
                assert(body[i] == ver[i - j - 11]);
                if ver[i - j - 11] == '\n' {
                    assert(has_char(ver, '\n'));
                }
            } else {
                assert(body[i] == '"');
            }
        }
    } else {
        assert(starts_with(trim(l), json));
        lemma_indent(l, json);
        let j = find(l, json).unwrap();
        let indent = l.take(j);
        let open = "\"version\": \""@;
        let close = "\","@;
        let x = open + ver + close;
        assert(body =~= indent + x);
        assert(x[0] == '"');
        assert(x.last() == ',');
        lemma_trim_ws_prefix_body(indent, x);
        assert(strip_cr(body) == body);
        assert(x[0] != toml[0]);
        assert(!starts_with(x, toml)) by {
            if starts_with(x, toml) {
                assert(x.subrange(0, 11)[0] == x[0]);
            }
        }
        assert(x.subrange(0, 10) =~= json);
        let y = q + ver + close;
        assert(x.skip(10) =~= seq![' '] + y);
        assert(y[0] == '"');
        assert(y.last() == ',');
        lemma_trim_ws_prefix_body(seq![' '], y);
        assert(seq![' '][0] == ' ');
        assert(y.subrange(0, 1) =~= q);
        assert(starts_with(y, q));
        assert(y.skip(1) =~= ver + seq!['"'] + seq![',']);
        lemma_find_char_concat(ver, '"', seq![',']);
        assert(q =~= seq!['"']);
        assert((ver + seq!['"'] + seq![',']).take(ver.len() as int) =~= ver);
        assert forall|i: int| 0 <= i < body.len() implies body[i] != '\n' by {
            if i < j {
                assert(body[i] == l[i]);
                if l[i] == '\n' {
                    assert(has_char(l, '\n'));
                }
            } else if i < j + 12 {
                assert(body[i] == open[i - j]);
            } else if i < j + 12 + ver.len() {
                assert(body[i] == ver[i - j - 12]);
                if ver[i - j - 12] == '\n' {
                    assert(has_char(ver, '\n'));
                }
            } else {
                assert(body[i] == close[i - j - 12 - ver.len()]);
            }
        }
    }
}

/// A line that is not a version line declares nothing, with or without a
/// `\r` at its end.
proof fn lemma_plain_line(l: Seq<char>, ver: Seq<char>)
    requires
        !is_version_line(l),
    ensures
        updated_body(l, ver) == l,
        line_version(strip_cr(l)) == None::<Seq<char>>,
{
    lemma_trim_strip_cr(l);
}

/// Setting the version lines of a list of lines that holds a version line
/// makes the first version line declare `ver`.
proof fn lemma_updated_declares(ls: Seq<Seq<char>>, ver: Seq<char>)
    requires
        forall|k: int| 0 <= k < ls.len() ==> !has_char(#[trigger] ls[k], '\n'),
        exists|k: int| 0 <= k < ls.len() && is_version_line(#[trigger] ls[k]),
        !has_char(ver, '"'),
        !has_char(ver, '\n'),
    ensures
        first_version(lines(updated_content(ls, ver))) == Some(ver),
    decreases ls.len(),
{
    let l = ls[0];
    let rest = ls.drop_first();
    lemma_updated_front(ls, ver);
    lemma_updated_line_body(l, ver);
    let body = updated_body(l, ver);
    let tail = updated_content(rest, ver);
    if is_version_line(l) {
        lemma_version_body(l, ver);
    } else {
        lemma_plain_line(l, ver);
    }
    lemma_lines_concat(body, tail);
    assert(updated_content(ls, ver) =~= body + seq!['\n'] + tail);
    let all = lines(updated_content(ls, ver));
    assert(all == seq![strip_cr(body)] + lines(tail));
    assert(all[0] == strip_cr(body));
    assert(all.drop_first() =~= lines(tail));
    if !is_version_line(l) {
        let k = choose|k: int| 0 <= k < ls.len() && is_version_line(#[trigger] ls[k]);
        assert(k != 0);
        assert(rest[k - 1] == ls[k]);
        assert forall|m: int| 0 <= m < rest.len() implies !has_char(#[trigger] rest[m], '\n') by {
            assert(rest[m] == ls[m + 1]);
        }
        lemma_updated_declares(rest, ver);
    }
}

/// What a write gives back: after `update_version_in_content` sets the
/// version lines of a manifest that has one to `ver`, `manifest_version`
/// reads `ver` from it (for a version without quotes or line breaks).
pub proof fn law_updated_manifest_declares_version(content: Seq<char>, ver: Seq<char>)
    requires
        exists|k: int| 0 <= k < lines(content).len() && is_version_line(#[trigger] lines(content)[k]),
        !has_char(ver, '"'),
        !has_char(ver, '\n'),
    ensures
        first_version(lines(updated_content(lines(content), ver))) == Some(ver),
{
    lemma_lines_no_newline(content);
    lemma_updated_declares(lines(content), ver);
}

// ───────────────────────────── writing twice ─────────────────────────────

/// A rewritten version line: its indentation, then `x`, which starts and
/// ends with something other than whitespace.
proof fn lemma_rewritten_line(l: Seq<char>, p: Seq<char>, x: Seq<char>)
    requires
        starts_with(trim(l), p),
        p.len() > 0,
        !is_ws(p[0]),
        starts_with(x, p),
        !is_ws(x.last()),
    ensures
        trim(l.take(find(l, p).unwrap()) + x) == x,
        find(l.take(find(l, p).unwrap()) + x, p) == Some(find(l, p).unwrap()),
{
    lemma_indent(l, p);
    let j = find(l, p).unwrap();
    let indent = l.take(j);
    let m = indent + x;
    assert(x[0] == p[0]) by {
        assert(x.subrange(0, p.len() as int)[0] == x[0]);
    }
    lemma_trim_ws_prefix_body(indent, x);
    lemma_indent(m, p);
    let j2 = find(m, p).unwrap();
    if j2 < j {
        assert(m.subrange(j2, j2 + p.len())[0] == m[j2]);
        assert(m[j2] == l[j2]);
    } else if j2 > j {
        assert(m[j] == x[0]);
    }
}

/// Rewriting a rewritten line changes nothing.
proof fn lemma_updated_body_fixed(l: Seq<char>, ver: Seq<char>)
    ensures
        updated_line(updated_body(l, ver), ver) == updated_line(l, ver),
{
    let toml = "version = \""@;
    let json = "\"version\":"@;
    reveal_strlit("version = \"");
    reveal_strlit("\"version\":");
    reveal_strlit("\"");
    reveal_strlit("\"version\": \"");
    reveal_strlit("\",");
    if starts_with(trim(l), toml) {
        let x = toml + ver + "\""@;
        assert(x.subrange(0, 11) =~= toml);
        lemma_indent(l, toml);
        lemma_rewritten_line(l, toml, x);
        let j = find(l, toml).unwrap();
        let m = l.take(j) + x;
        assert(updated_body(l, ver) =~= m);
        assert(m.take(j) =~= l.take(j));
        assert(updated_line(m, ver) =~= updated_line(l, ver));
    } else if starts_with(trim(l), json) {
        let x = "\"version\": \""@ + ver + "\","@;
        assert(x.subrange(0, 10) =~= json);
        lemma_indent(l, json);
        lemma_rewritten_line(l, json, x);
        let j = find(l, json).unwrap();
        let m = l.take(j) + x;
        assert(updated_body(l, ver) =~= m);
        assert(m.take(j) =~= l.take(j));
        assert(!starts_with(x, toml)) by {
            if starts_with(x, toml) {
                assert(x.subrange(0, 11)[0] == x[0]);
            }
        }
        assert(updated_line(m, ver) =~= updated_line(l, ver));
    }
}

/// A rewritten line holds no line break, and a rewritten version line does
/// not end in `\r`.
proof fn lemma_body_shape(l: Seq<char>, ver: Seq<char>)
    requires
        !has_char(l, '\n'),
        !has_char(ver, '\n'),
    ensures
        !has_char(updated_body(l, ver), '\n'),
        is_version_line(l) ==> updated_body(l, ver).last() != '\r',
{
    let toml = "version = \""@;
    let json = "\"version\":"@;
    reveal_strlit("version = \"");
    reveal_strlit("\"version\":");
    reveal_strlit("\"");
    reveal_strlit("\"version\": \"");
    reveal_strlit("\",");
    let body = updated_body(l, ver);
    if is_version_line(l) {
        let p = if starts_with(trim(l), toml) {
            toml
        } else {
            json
        };
        lemma_indent(l, p);
        let j = find(l, p).unwrap();
        let x = if starts_with(trim(l), toml) {
            toml + ver + "\""@
        } else {
            "\"version\": \""@ + ver + "\","@
        };
        assert(body =~= l.take(j) + x);
        assert forall|i: int| 0 <= i < body.len() implies body[i] != '\n' by {
            if i < j {
                assert(body[i] == l[i]);
                if l[i] == '\n' {
                    assert(has_char(l, '\n'));
                }
            } else if starts_with(trim(l), toml) {
                if j + 11 <= i < j + 11 + ver.len() {
                    assert(body[i] == ver[i - j - 11]);
                    if ver[i - j - 11] == '\n' {
                        assert(has_char(ver, '\n'));
                    }
                }
            } else {
                if j + 12 <= i < j + 12 + ver.len() {
                    assert(body[i] == ver[i - j - 12]);
                    if ver[i - j - 12] == '\n' {
                        assert(has_char(ver, '\n'));
                    }
                }
            }
        }
    }
}

/// The lines of a rewritten manifest are its rewritten lines, when only
/// version lines end in `\r`.
proof fn lemma_relines(ls: Seq<Seq<char>>, ver: Seq<char>)
    requires
        forall|k: int| 0 <= k < ls.len() ==> !has_char(#[trigger] ls[k], '\n'),
        forall|k: int| 0 <= k < ls.len() && (#[trigger] ls[k]).len() > 0 && ls[k].last() == '\r' ==> is_version_line(ls[k]),
        !has_char(ver, '\n'),
    ensures
        lines(updated_content(ls, ver)) == ls.map_values(|l: Seq<char>| updated_body(l, ver)),
    decreases ls.len(),
{
    if ls.len() == 0 {
        assert(ls.map_values(|l: Seq<char>| updated_body(l, ver)) =~= Seq::<Seq<char>>::empty());
    } else {
        let l = ls[0];
        let rest = ls.drop_first();
        lemma_updated_front(ls, ver);
        lemma_updated_line_body(l, ver);
        lemma_body_shape(l, ver);
        let body = updated_body(l, ver);
        assert forall|k: int| 0 <= k < rest.len() implies !has_char(#[trigger] rest[k], '\n') by {
            assert(rest[k] == ls[k + 1]);
        }
        assert forall|k: int| 0 <= k < rest.len() && (#[trigger] rest[k]).len() > 0 && rest[k].last() == '\r' implies is_version_line(rest[k]) by {
            assert(rest[k] == ls[k + 1]);
        }
        lemma_relines(rest, ver);
        lemma_lines_concat(body, updated_content(rest, ver));
        assert(updated_content(ls, ver) =~= body + seq!['\n'] + updated_content(rest, ver));
        if !is_version_line(l) {
            assert(body == l);
        }
        assert(strip_cr(body) == body);
        assert(ls.map_values(|l: Seq<char>| updated_body(l, ver)) =~= seq![body] + rest.map_values(
            |l: Seq<char>| updated_body(l, ver),
        ));
    }
}

proof fn lemma_update_fixed_lines(ls: Seq<Seq<char>>, ver: Seq<char>)
    ensures
        updated_content(ls.map_values(|l: Seq<char>| updated_body(l, ver)), ver) == updated_content(ls, ver),
    decreases ls.len(),
{
    let m = ls.map_values(|l: Seq<char>| updated_body(l, ver));
    if ls.len() > 0 {
        lemma_update_fixed_lines(ls.drop_last(), ver);
        assert(m.drop_last() =~= ls.drop_last().map_values(|l: Seq<char>| updated_body(l, ver)));
        lemma_updated_body_fixed(ls.last(), ver);
    } else {
        assert(m =~= Seq::<Seq<char>>::empty());
    }
}

/// Law: setting a manifest's version twice gives what setting it once gave
/// (for a version without a line break; a line other than a version line
/// that ends in `\r` would lose it on the second write).
pub proof fn law_update_version_idempotent(content: Seq<char>, ver: Seq<char>)
    requires
        !has_char(ver, '\n'),
        forall|k: int|
            0 <= k < lines(content).len() && (#[trigger] lines(content)[k]).len() > 0 && lines(content)[k].last()
                == '\r' ==> is_version_line(lines(content)[k]),
    ensures
        updated_content(lines(updated_content(lines(content), ver)), ver) == updated_content(lines(content), ver),
{
    lemma_lines_no_newline(content);
    lemma_relines(lines(content), ver);
    lemma_update_fixed_lines(lines(content), ver);
}

// ───────────────────────────── the plan ─────────────────────────────

/// A manifest to rewrite.
#[derive(Debug)]
pub struct ConfigUpdate {
    pub path: String,
    pub new_content: String,
}

pub open spec fn update_views(s: Seq<ConfigUpdate>) -> Seq<(Seq<char>, Seq<char>)> {
    s.map_values(|u: ConfigUpdate| (u.path@, u.new_content@))
}

pub open spec fn file_views(s: Seq<(String, Option<String>)>) -> Seq<(Seq<char>, Option<Seq<char>>)> {
    s.map_values(|f: (String, Option<String>)| (f.0@, opt_view(f.1)))
}

/// The manifests whose version line changes: for each file that could be
/// read, its path under `scope_dir` and its new text, when that differs.
pub open spec fn config_updates_spec(
    scope_dir: Seq<char>,
    files: Seq<(Seq<char>, Option<Seq<char>>)>,
    ver: Seq<char>,
) -> Seq<(Seq<char>, Seq<char>)>
    decreases files.len(),
{
    if files.len() == 0 {
        Seq::empty()
    } else {
        let rest = config_updates_spec(scope_dir, files.drop_last(), ver);
        let (name, content) = files.last();
        match content {
            None => rest,
            Some(c) => {
                let u = updated_content(lines(c), ver);
                if u == c {
                    rest
                } else {
                    rest.push((join_path(scope_dir, name), u))
                }
            },
        }
    }
}

/// The manifests a release of version `ver` rewrites, from the manifests of
/// the scope as `(file name, text if it could be read)`.
pub fn compute_config_updates(scope_dir: &str, files: &[(String, Option<String>)], ver: &str) -> (r: Vec<ConfigUpdate>)
    ensures
        update_views(r@) == config_updates_spec(scope_dir@, file_views(files@), ver@),
{
    let ghost fv = file_views(files@);
    let mut updates: Vec<ConfigUpdate> = Vec::new();
    let mut i: usize = 0;
    while i < files.len()
        invariant
            i <= files.len(),
            fv == file_views(files@),
            update_views(updates@) == config_updates_spec(scope_dir@, fv.take(i as int), ver@),
        decreases files.len() - i,
    {
        proof {
            assert(fv.take(i + 1).drop_last() =~= fv.take(i as int));
            assert(fv.take(i + 1).last() == fv[i as int]);
        }
        match &files[i].1 {
            None => {},
            Some(content) => {
                let updated = update_version_in_content(content.as_str(), ver);
                if !str_eq(updated.as_str(), content.as_str()) {
                    let path = join_path_exec(scope_dir, files[i].0.as_str());
                    let u = ConfigUpdate { path, new_content: updated };
                    let ghost before = updates@;
                    updates.push(u);
                    assert(update_views(updates@) =~= update_views(before).push((u.path@, u.new_content@)));
                }
            },
        }
        i = i + 1;
    }
    assert(fv.take(files.len() as int) =~= fv);
    updates
}

/// A release plan: everything a release will do, computed without writing.
#[derive(Debug)]
pub struct ReleasePlan {
    /// The version as given, such as `rust/v0.4.0`.
    pub version: String,
    /// The bare version number, such as `0.4.0`.
    pub ver: String,
    pub repo_path: String,
    pub scope_dir: String,
    /// Whether to release again over an existing tag.
    pub force: bool,
    pub config_updates: Vec<ConfigUpdate>,
    /// The new changelog entry; none when the version is already recorded.
    pub changelog_content: Option<String>,
    /// Whether `Cargo.lock` must follow a changed `Cargo.toml`.
    pub lockfile_needs_update: bool,
}

/// Puts a plan together from what was read and computed for it.
pub fn build_plan(
    version: &str,
    repo_path: &str,
    scope_dir: &str,
    force: bool,
    config_updates: Vec<ConfigUpdate>,
    changelog_content: Option<String>,
    cargo_toml_exists: bool,
) -> (p: ReleasePlan)
    ensures
        p.version@ == version@,
        p.ver@ == normalized_version(version@),
        p.repo_path@ == repo_path@,
        p.scope_dir@ == scope_dir@,
        p.force == force,
        p.config_updates@ == config_updates@,
        p.changelog_content == changelog_content,
        p.lockfile_needs_update == (config_updates@.len() > 0 && cargo_toml_exists),
{
    let lockfile_needs_update = config_updates.len() > 0 && cargo_toml_exists;
    ReleasePlan {
        version: version.to_owned(),
        ver: normalize_version(version),
        repo_path: repo_path.to_owned(),
        scope_dir: scope_dir.to_owned(),
        force,
        config_updates,
        changelog_content,
        lockfile_needs_update,
    }
}

pub open spec fn version_views(s: Seq<(String, Option<String>)>) -> Seq<(Seq<char>, Option<Seq<char>>)> {
    file_views(s)
}

/// Whether some planned update writes `path`.
pub open spec fn is_pending(updates: Seq<(Seq<char>, Seq<char>)>, path: Seq<char>) -> bool {
    exists|i: int| 0 <= i < updates.len() && #[trigger] updates[i].0 == path
}

/// The manifests whose version differs from the plan's, leaving out those
/// the plan rewrites anyway.
pub open spec fn inconsistent_spec(
    scope_dir: Seq<char>,
    updates: Seq<(Seq<char>, Seq<char>)>,
    versions: Seq<(Seq<char>, Option<Seq<char>>)>,
    ver: Seq<char>,
) -> Seq<(Seq<char>, Option<Seq<char>>)>
    decreases versions.len(),
{
    if versions.len() == 0 {
        Seq::empty()
    } else {
        let rest = inconsistent_spec(scope_dir, updates, versions.drop_last(), ver);
        let (name, v) = versions.last();
        if is_pending(updates, join_path(scope_dir, name)) {
            rest
        } else {
            match v {
                Some(cv) => if cv != ver {
                    rest.push(versions.last())
                } else {
                    rest
                },
                None => rest,
            }
        }
    }
}

fn update_pending(updates: &[ConfigUpdate], path: &str) -> (r: bool)
    ensures
        r == is_pending(update_views(updates@), path@),
{
    let ghost uv = update_views(updates@);
    let mut i: usize = 0;
    while i < updates.len()
        invariant
            i <= updates.len(),
            uv == update_views(updates@),
            forall|k: int| 0 <= k < i ==> #[trigger] uv[k].0 != path@,
        decreases updates.len() - i,
    {
        if str_eq(updates[i].path.as_str(), path) {
            assert(uv[i as int].0 == path@);
            return true;
        }
        i = i + 1;
    }
    false
}

/// The manifests, among `(file name, version it declares)`, that disagree
/// with the plan's version and that the plan does not rewrite.
pub fn inconsistent_configs(plan: &ReleasePlan, config_versions: &[(String, Option<String>)]) -> (r: Vec<
    (String, Option<String>),
>)
    ensures
        version_views(r@) == inconsistent_spec(
            plan.scope_dir@,
            update_views(plan.config_updates@),
            version_views(config_versions@),
            plan.ver@,
        ),
{
    let ghost vv = version_views(config_versions@);
    let ghost uv = update_views(plan.config_updates@);
    let mut out: Vec<(String, Option<String>)> = Vec::new();
    let mut i: usize = 0;
    while i < config_versions.len()
        invariant
            i <= config_versions.len(),
            vv == version_views(config_versions@),
            uv == update_views(plan.config_updates@),
            version_views(out@) == inconsistent_spec(plan.scope_dir@, uv, vv.take(i as int), plan.ver@),
        decreases config_versions.len() - i,
    {
        proof {
            assert(vv.take(i + 1).drop_last() =~= vv.take(i as int));
            assert(vv.take(i + 1).last() == vv[i as int]);
        }
        let (name, v) = (&config_versions[i].0, &config_versions[i].1);
        let path = join_path_exec(plan.scope_dir.as_str(), name.as_str());
        if !update_pending(plan.config_updates.as_slice(), path.as_str()) {
            match v {
                Some(cv) => {
                    if !str_eq(cv.as_str(), plan.ver.as_str()) {
                        let entry = (name.clone(), Some(cv.clone()));
                        let ghost before = out@;
                        out.push(entry);
                        assert(version_views(out@) =~= version_views(before).push(vv[i as int]));
                    }
                },
                None => {},
            }
        }
        i = i + 1;
    }
    assert(vv.take(config_versions.len() as int) =~= vv);
    out
}

/// Why a plan may not run: manifests out of step with it, or, when it brings
/// no changelog entry of its own, the problems of the existing changelog
/// (joined one per line).
pub open spec fn validate_plan_spec(
    scope_dir: Seq<char>,
    version: Seq<char>,
    ver: Seq<char>,
    updates: Seq<(Seq<char>, Seq<char>)>,
    has_changelog_content: bool,
    versions: Seq<(Seq<char>, Option<Seq<char>>)>,
    changelog: Option<Seq<char>>,
) -> Result<(), Seq<char>> {
    if inconsistent_spec(scope_dir, updates, versions, ver).len() > 0 {
        Err("存在版本号不一致的配置文件，请先同步"@)
    } else if !has_changelog_content && precheck_errors(
        version,
        join_path(scope_dir, "CHANGELOG.md"@),
        changelog,
    ).len() > 0 {
        Err(join_lines(precheck_errors(version, join_path(scope_dir, "CHANGELOG.md"@), changelog)))
    } else {
        Ok(())
    }
}

/// Checks a plan against the versions its manifests declare and, when the
/// plan brings no changelog entry, against the existing changelog (none when
/// the file does not exist).
pub fn validate_plan(plan: &ReleasePlan, config_versions: &[(String, Option<String>)], changelog: Option<&str>) -> (r:
    Result<(), String>)
    ensures
        match r {
            Ok(()) => validate_plan_spec(
                plan.scope_dir@,
                plan.version@,
                plan.ver@,
                update_views(plan.config_updates@),
                plan.changelog_content is Some,
                version_views(config_versions@),
                match changelog {
                    Some(c) => Some(c@),
                    None => None,
                },
            ) == Ok::<(), Seq<char>>(()),
            Err(e) => validate_plan_spec(
                plan.scope_dir@,
                plan.version@,
                plan.ver@,
                update_views(plan.config_updates@),
                plan.changelog_content is Some,
                version_views(config_versions@),
                match changelog {
                    Some(c) => Some(c@),
                    None => None,
                },
            ) == Err::<(), Seq<char>>(e@),
        },
{
    let bad = inconsistent_configs(plan, config_versions);
    if bad.len() > 0 {
        return Err("存在版本号不一致的配置文件，请先同步".to_owned());
    }
    if plan.changelog_content.is_none() {
        let path = join_path_exec(plan.scope_dir.as_str(), "CHANGELOG.md");
        let errors = precheck_version_changelog(plan.version.as_str(), path.as_str(), changelog);
        if errors.len() > 0 {
            return Err(join_lines_exec(&errors));
        }
    }
    Ok(())
}

// ───────────────────────────── showing a plan ─────────────────────────────

/// Every line break followed by four spaces of indentation.
pub open spec fn indent_breaks(s: Seq<char>) -> Seq<char>
    decreases s.len(),
{
    if s.len() == 0 {
        Seq::empty()
    } else {
        indent_breaks(s.drop_last()) + if s.last() == '\n' {
            "\n    "@
        } else {
            seq![s.last()]
        }
    }
}

fn indent_breaks_exec(v: &[char]) -> (r: Vec<char>)
    ensures
        r@ == indent_breaks(v@),
{
    let mut out: Vec<char> = Vec::new();
    let mut i: usize = 0;
    while i < v.len()
        invariant
            i <= v.len(),
            out@ == indent_breaks(v@.take(i as int)),
        decreases v.len() - i,
    {
        assert(v@.take(i + 1).drop_last() =~= v@.take(i as int));
        if v[i] == '\n' {
            append_str(&mut out, "\n    ");
        } else {
            out.push(v[i]);
        }
        i = i + 1;
    }
    assert(v@.take(v.len() as int) =~= v@);
    out
}

/// A long changelog entry is shown by its first three lines and its length.
pub open spec fn entry_preview(c: Seq<char>) -> Seq<char> {
    let ls = lines(c);
    if ls.len() <= 6 {
        c
    } else {
        join_sep(ls.take(3), "\n    "@) + "\n    ... ("@ + decimal(ls.len()) + " 行)"@
    }
}

/// Texts joined with a separator between them.
pub open spec fn join_sep(s: Seq<Seq<char>>, sep: Seq<char>) -> Seq<char>
    decreases s.len(),
{
    if s.len() == 0 {
        Seq::empty()
    } else if s.len() == 1 {
        s[0]
    } else {
        join_sep(s.drop_last(), sep) + sep + s.last()
    }
}

pub open spec fn rule40() -> Seq<char> {
    Seq::new(40, |i: int| '─')
}

pub open spec fn mark(done: bool) -> Seq<char> {
    if done {
        "✓"@
    } else {
        "☐"@
    }
}

/// The lines listing the manifests a plan rewrites.
pub open spec fn update_lines(paths: Seq<Seq<char>>, ver: Seq<char>) -> Seq<char>
    decreases paths.len(),
{
    if paths.len() == 0 {
        Seq::empty()
    } else {
        update_lines(paths.drop_last(), ver) + "    • "@ + crate::release::last_segment(paths.last())
            + " → 版本 "@ + ver + "\n"@
    }
}

/// The head of a plan: its version, directory and mode.
pub open spec fn plan_head(version: Seq<char>, scope_dir: Seq<char>, force: bool) -> Seq<char> {
    "\n📋 发布计划\n"@ + rule40() + "\n"@ + "  版本:         "@ + version + "\n"@ + "  目录:         "@ + scope_dir
        + "\n"@ + if force {
        "  模式:         强制重新发布（删除旧 tag + Release）\n"@
    } else {
        Seq::empty()
    }
}

/// The middle of a plan: manifests, changelog and lock file.
pub open spec fn plan_body(paths: Seq<Seq<char>>, ver: Seq<char>, changelog: Option<Seq<char>>, lockfile: bool) -> Seq<char> {
    (if paths.len() > 0 {
        "\n  配置文件更新:\n"@ + update_lines(paths, ver)
    } else {
        Seq::empty()
    }) + match changelog {
        Some(c) => "\n  CHANGELOG 更新:\n    "@ + indent_breaks(entry_preview(c)) + "\n"@,
        None => "\n  CHANGELOG:     版本已存在，无需更新\n"@,
    } + if lockfile {
        "\n  Cargo.lock:   需要同步\n"@
    } else {
        Seq::empty()
    }
}

/// A line of the list of steps, checked when the step will be taken.
pub open spec fn step_line(done: bool, what: Seq<char>) -> Seq<char> {
    "    • "@ + mark(done) + what
}

/// The end of a plan: the steps it will take.
pub open spec fn plan_tail(has_updates: bool, has_changelog: bool, lockfile: bool) -> Seq<char> {
    "\n  将执行:\n"@ + step_line(has_updates, " 写配置文件\n"@) + step_line(has_changelog, " 生成 CHANGELOG\n"@)
        + step_line(lockfile, " 同步 Cargo.lock\n"@) + "    • ✓ Git 提交\n    • ✓ 创建并推送 tag\n    • ✓ 创建 GitHub Release\n"@
        + rule40() + "\n"@
}

pub open spec fn update_paths(s: Seq<ConfigUpdate>) -> Seq<Seq<char>> {
    s.map_values(|u: ConfigUpdate| u.path@)
}

/// The plan as shown to the user before confirming.
pub open spec fn plan_text_spec(p: ReleasePlan) -> Seq<char> {
    plan_head(p.version@, p.scope_dir@, p.force) + plan_body(
        update_paths(p.config_updates@),
        p.ver@,
        opt_view(p.changelog_content),
        p.lockfile_needs_update,
    ) + plan_tail(p.config_updates@.len() > 0, p.changelog_content is Some, p.lockfile_needs_update)
}

fn push_rule(out: &mut Vec<char>)
    ensures
        final(out)@ == old(out)@ + rule40(),
{
    let mut k: usize = 0;
    let ghost start = out@;
    while k < 40
        invariant
            k <= 40,
            out@ == start + Seq::new(k as nat, |i: int| '─'),
        decreases 40 - k,
    {
        out.push('─');
        k = k + 1;
        assert(out@ =~= start + Seq::new(k as nat, |i: int| '─'));
    }
}

fn push_head(out: &mut Vec<char>, plan: &ReleasePlan)
    ensures
        final(out)@ == old(out)@ + plan_head(plan.version@, plan.scope_dir@, plan.force),
{
    append_str(out, "\n📋 发布计划\n");
    push_rule(out);
    append_str(out, "\n");
    append_str(out, "  版本:         ");
    append_str(out, plan.version.as_str());
    append_str(out, "\n");
    append_str(out, "  目录:         ");
    append_str(out, plan.scope_dir.as_str());
    append_str(out, "\n");
    if plan.force {
        append_str(out, "  模式:         强制重新发布（删除旧 tag + Release）\n");
    }
    assert(final(out)@ =~= old(out)@ + plan_head(plan.version@, plan.scope_dir@, plan.force));
}

fn preview_exec(c: &str) -> (r: Vec<char>)
    ensures
        r@ == entry_preview(c@),
{
    let cv = chars_of(c);
    let ls = lines_exec(cv.as_slice());
    if ls.len() <= 6 {
        return cv;
    }
    let mut out: Vec<char> = Vec::new();
    let ghost lv = views(ls@);
    append(&mut out, ls[0].as_slice());
    append_str(&mut out, "\n    ");
    append(&mut out, ls[1].as_slice());
    append_str(&mut out, "\n    ");
    append(&mut out, ls[2].as_slice());
    proof {
        let t = lv.take(3);
        assert(lv[0] == ls@[0]@);
        assert(lv[1] == ls@[1]@);
        assert(lv[2] == ls@[2]@);
        let sep = "\n    "@;
        assert(seq![lv[0], lv[1]].drop_last() =~= seq![lv[0]]);
        assert(seq![lv[0], lv[1]].last() == lv[1]);
        assert(join_sep(seq![lv[0], lv[1]], sep) == join_sep(seq![lv[0]], sep) + sep + lv[1]);
        assert(t.last() == lv[2]);
        assert(join_sep(t, sep) == join_sep(t.drop_last(), sep) + sep + lv[2]);
        assert(t.drop_last().drop_last() =~= seq![lv[0]]);
        assert(t.drop_last() =~= seq![lv[0], lv[1]]);
        assert(seq![lv[0], lv[1]].drop_last() =~= seq![lv[0]]);
        assert(join_sep(seq![lv[0]], "\n    "@) == lv[0]);
        assert(out@ =~= join_sep(t, "\n    "@));
    }
    append_str(&mut out, "\n    ... (");
    append(&mut out, decimal_exec(ls.len() as u64).as_slice());
    append_str(&mut out, " 行)");
    out
}

fn push_body(out: &mut Vec<char>, plan: &ReleasePlan)
    ensures
        final(out)@ == old(out)@ + plan_body(
            update_paths(plan.config_updates@),
            plan.ver@,
            opt_view(plan.changelog_content),
            plan.lockfile_needs_update,
        ),
{
    let ghost paths = update_paths(plan.config_updates@);
    let ghost start = out@;
    if plan.config_updates.len() > 0 {
        append_str(out, "\n  配置文件更新:\n");
        let ghost mid = out@;
        let mut i: usize = 0;
        while i < plan.config_updates.len()
            invariant
                i <= plan.config_updates.len(),
                paths == update_paths(plan.config_updates@),
                out@ == mid + update_lines(paths.take(i as int), plan.ver@),
            decreases plan.config_updates.len() - i,
        {
            proof {
                assert(paths.take(i + 1).drop_last() =~= paths.take(i as int));
                assert(paths.take(i + 1).last() == plan.config_updates@[i as int].path@);
            }
            let pv = chars_of(plan.config_updates[i].path.as_str());
            let name = crate::release::last_segment_exec(pv.as_slice());
            let ghost before = out@;
            append_str(out, "    • ");
            append(out, name.as_slice());
            append_str(out, " → 版本 ");
            append_str(out, plan.ver.as_str());
            append_str(out, "\n");
            assert(out@ =~= mid + update_lines(paths.take(i + 1), plan.ver@));
            i = i + 1;
        }
        assert(paths.take(plan.config_updates.len() as int) =~= paths);
    }
    let ghost after_updates = out@;
    match &plan.changelog_content {
        Some(c) => {
            append_str(out, "\n  CHANGELOG 更新:\n    ");
            let p = preview_exec(c.as_str());
            append(out, indent_breaks_exec(p.as_slice()).as_slice());
            append_str(out, "\n");
        },
        None => {
            append_str(out, "\n  CHANGELOG:     版本已存在，无需更新\n");
        },
    }
    let ghost after_changelog = out@;
    if plan.lockfile_needs_update {
        append_str(out, "\n  Cargo.lock:   需要同步\n");
    }
    assert(final(out)@ =~= start + plan_body(
        paths,
        plan.ver@,
        opt_view(plan.changelog_content),
        plan.lockfile_needs_update,
    ));
}

fn push_step(out: &mut Vec<char>, done: bool, what: &str)
    ensures
        final(out)@ == old(out)@ + step_line(done, what@),
{
    append_str(out, "    • ");
    if done {
        append_str(out, "✓");
    } else {
        append_str(out, "☐");
    }
    append_str(out, what);
    assert(final(out)@ =~= old(out)@ + step_line(done, what@));
}

fn push_tail(out: &mut Vec<char>, has_updates: bool, has_changelog: bool, lockfile: bool)
    ensures
        final(out)@ == old(out)@ + plan_tail(has_updates, has_changelog, lockfile),
{
    let ghost start = out@;
    append_str(out, "\n  将执行:\n");
    let ghost a = out@;
    push_step(out, has_updates, " 写配置文件\n");
    let ghost b = out@;
    push_step(out, has_changelog, " 生成 CHANGELOG\n");
    let ghost c = out@;
    push_step(out, lockfile, " 同步 Cargo.lock\n");
    let ghost d = out@;
    append_str(out, "    • ✓ Git 提交\n    • ✓ 创建并推送 tag\n    • ✓ 创建 GitHub Release\n");
    let ghost e = out@;
    push_rule(out);
    append_str(out, "\n");
    assert(final(out)@ =~= start + plan_tail(has_updates, has_changelog, lockfile));
}

/// Renders a plan for the user to confirm.
pub fn plan_text(plan: &ReleasePlan) -> (r: String)
    ensures
        r@ == plan_text_spec(*plan),
{
    let mut out: Vec<char> = Vec::new();
    push_head(&mut out, plan);
    push_body(&mut out, plan);
    push_tail(&mut out, plan.config_updates.len() > 0, plan.changelog_content.is_some(), plan.lockfile_needs_update);
    assert(out@ =~= plan_text_spec(*plan));
    string_of(out.as_slice())
}

} // verus!
