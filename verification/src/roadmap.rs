//! Format rules for ROADMAP.md / TODO.md planning files.
//!
//! Each rule looks at one line and either passes (`None`) or answers with the
//! line to keep (possibly repaired) and the issue it found.

use vstd::prelude::*;
use crate::text::{
    all_digits, append, append_str, chars_of, contains, contains_exec, find, find_char_exec,
    has_char, is_ws, is_ws_exec, lowercase, slice_of, starts_with, starts_with_exec, string_of,
    to_lowercase, trim, trim_exec, trim_leading, trim_leading_exec, trim_start, split, split_exec,
    lemma_trim_start_ws_prefix, views, lines, lines_exec, lemma_trim_start_ws, lemma_trim_end_ws,
    lemma_trim_ws_prefix_body, all_ascii, ascii_lower, lemma_find_char_absent,
};
use crate::release::{join_lines, join_lines_exec, string_views};

verus! {

/// A format problem found in a planning file.
#[derive(Debug)]
pub struct Issue {
    pub line: usize,
    pub scope: String,
    pub message: String,
}

pub type IssueView = (usize, Seq<char>, Seq<char>);

impl View for Issue {
    type V = IssueView;

    open spec fn view(&self) -> IssueView {
        (self.line, self.scope@, self.message@)
    }
}

/// The standard category headings (PascalCase).
pub open spec fn categories() -> Seq<Seq<char>> {
    seq![
        "### Added"@,
        "### Changed"@,
        "### Fixed"@,
        "### Removed"@,
        "### Deprecated"@,
        "### Security"@,
    ]
}

/// The standard category headings, in order.
pub fn category_list() -> (r: Vec<&'static str>)
    ensures
        r@.map_values(|s: &str| s@) == categories(),
{
    let r = vec!["### Added", "### Changed", "### Fixed", "### Removed", "### Deprecated", "### Security"];
    assert(r@.map_values(|s: &str| s@) =~= categories());
    r
}

// ───────────────────────────── version lines ─────────────────────────────

/// `## [X.Y.Z]`: the text between `## [` and the first `]`, trimmed and
/// without leading `v`s, when not empty.
pub open spec fn bracket_version(t: Seq<char>) -> Option<Seq<char>> {
    match find(t, seq![']']) {
        Some(end) => if starts_with(t, "## ["@) && 4 <= end {
            let ver = trim_leading(trim(t.subrange(4, end)), 'v');
            if ver.len() > 0 { Some(ver) } else { None }
        } else {
            None
        },
        None => None,
    }
}

/// `## N. title`: the heading text when what precedes its first `.` is a
/// non-empty number.
pub open spec fn numbered_heading(t: Seq<char>) -> Option<Seq<char>> {
    if starts_with(t, "## "@) {
        let rest = trim(t.skip(3));
        match find(rest, seq!['.']) {
            Some(dot) => {
                let num = trim(rest.take(dot));
                if num.len() > 0 && all_digits(num) { Some(rest) } else { None }
            },
            None => None,
        }
    } else {
        None
    }
}

/// The section a heading line announces: `## [X.Y.Z]` yields the version,
/// `## N. title` the heading text.
pub open spec fn version_line(line: Seq<char>) -> Option<Seq<char>> {
    let t = trim(line);
    if bracket_version(t) is Some {
        bracket_version(t)
    } else {
        numbered_heading(t)
    }
}

/// Detects a section heading in a planning file (see `version_line`).
pub fn is_version_line(line: &str) -> (r: Option<String>)
    ensures
        crate::tag::opt_view(r) == version_line(line@),
{
    let t = trim_exec(&chars_of(line));
    let head = chars_of("## [");
    if let Some(end) = find_char_exec(&t, ']') {
        if starts_with_exec(&t, &head) {
            proof {
                reveal_strlit("## [");
                if end < 4 {
                    assert(t@[end as int] == "## ["@[end as int]);
                }
            }
            let ver = trim_leading_exec(&trim_exec(&slice_of(&t, 4, end)), 'v');
            if ver.len() > 0 {
                return Some(string_of(&ver));
            }
        }
    }
    let h2 = chars_of("## ");
    if starts_with_exec(&t, &h2) {
        proof {
            reveal_strlit("## ");
        }
        let rest = trim_exec(&slice_of(&t, 3, t.len()));
        assert(t@.skip(3) =~= t@.subrange(3, t@.len() as int));
        if let Some(dot) = find_char_exec(&rest, '.') {
            let num = trim_exec(&slice_of(&rest, 0, dot));
            assert(rest@.take(dot as int) =~= rest@.subrange(0, dot as int));
            if num.len() > 0 && all_digits_exec(&num) {
                return Some(string_of(&rest));
            }
        }
    }
    None
}

fn all_digits_exec(v: &[char]) -> (r: bool)
    ensures
        r == all_digits(v@),
{
    let mut i: usize = 0;
    while i < v.len()
        invariant
            i <= v.len(),
            forall|j: int| 0 <= j < i ==> crate::text::is_digit(#[trigger] v@[j]),
        decreases v.len() - i,
    {
        if !crate::text::is_digit_exec(v[i]) {
            return false;
        }
        i = i + 1;
    }
    true
}

// ───────────────────────────── rules ─────────────────────────────

/// What a rule answers: the line to keep and the issue found, as plain values.
pub type RuleView = Option<(Seq<char>, Option<IssueView>)>;

pub open spec fn rule_view(r: Option<(String, Option<Issue>)>) -> RuleView {
    match r {
        Some(p) => Some((p.0@, match p.1 {
            Some(i) => Some(i@),
            None => None,
        })),
        None => None,
    }
}

pub open spec fn issue(line_num: usize, scope: Seq<char>, message: Seq<char>) -> IssueView {
    (line_num, scope, message)
}

fn make_issue(line_num: usize, scope: &str, message: Vec<char>) -> (i: Issue)
    ensures
        i@ == issue(line_num, scope@, message@),
{
    Issue { line: line_num, scope: string_of(&chars_of(scope)), message: string_of(&message) }
}

/// A `## ` heading that is no section heading is reported and kept.
pub open spec fn nonstandard_header_spec(trimmed: Seq<char>, raw: Seq<char>, line_num: usize, scope: Seq<char>) -> RuleView {
    if starts_with(trimmed, "## "@) && version_line(trimmed) is None {
        Some((raw, Some(issue(line_num, scope, "非标准版本头（应为 ## [X.Y.Z]）: "@ + trimmed))))
    } else {
        None
    }
}

pub fn rule_nonstandard_header(trimmed: &str, raw_line: &str, line_num: usize, scope: &str) -> (r: Option<(String, Option<Issue>)>)
    ensures
        rule_view(r) == nonstandard_header_spec(trimmed@, raw_line@, line_num, scope@),
{
    let t = chars_of(trimmed);
    if starts_with_exec(&t, &chars_of("## ")) && is_version_line(trimmed).is_none() {
        let mut m = chars_of("非标准版本头（应为 ## [X.Y.Z]）: ");
        append(&mut m, &t);
        Some((string_of(&chars_of(raw_line)), Some(make_issue(line_num, scope, m))))
    } else {
        None
    }
}

/// Whether a heading equals a standard category up to case.
pub open spec fn is_category(trimmed: Seq<char>) -> bool {
    exists|i: int| 0 <= i < categories().len() && lowercase(categories()[i]) == lowercase(trimmed)
}

/// A `### ` heading that is no standard category, whatever its case, is
/// reported and kept.
pub open spec fn nonstandard_category_spec(trimmed: Seq<char>, raw: Seq<char>, line_num: usize, scope: Seq<char>) -> RuleView {
    if starts_with(trimmed, "### "@) && !is_category(trimmed) {
        Some((raw, Some(issue(line_num, scope, "非标准分类标题: "@ + trimmed))))
    } else {
        None
    }
}

/// The first standard category that equals `trimmed` up to case.
fn find_category(trimmed: &str) -> (r: Option<&'static str>)
    ensures
        match r {
            Some(c) => exists|i: int| 0 <= i < categories().len() && categories()[i] == c@
                && lowercase(categories()[i]) == lowercase(trimmed@)
                && forall|j: int| 0 <= j < i ==> lowercase(categories()[j]) != lowercase(trimmed@),
            None => !is_category(trimmed@),
        },
{
    let cats = category_list();
    let lowered = to_lowercase(trimmed);
    let mut i: usize = 0;
    while i < cats.len()
        invariant
            i <= cats.len(),
            cats@.map_values(|s: &str| s@) == categories(),
            lowered@ == lowercase(trimmed@),
            forall|j: int| 0 <= j < i ==> lowercase(categories()[j]) != lowercase(trimmed@),
        decreases cats.len() - i,
    {
        assert(cats@.map_values(|s: &str| s@)[i as int] == cats@[i as int]@);
        let lc = to_lowercase(cats[i]);
        if crate::tag::str_eq(lc.as_str(), lowered.as_str()) {
            return Some(cats[i]);
        }
        i = i + 1;
    }
    None
}

pub fn rule_nonstandard_category(trimmed: &str, raw_line: &str, line_num: usize, scope: &str) -> (r: Option<(String, Option<Issue>)>)
    ensures
        rule_view(r) == nonstandard_category_spec(trimmed@, raw_line@, line_num, scope@),
{
    let t = chars_of(trimmed);
    if starts_with_exec(&t, &chars_of("### ")) && find_category(trimmed).is_none() {
        let mut m = chars_of("非标准分类标题: ");
        append(&mut m, &t);
        Some((string_of(&chars_of(raw_line)), Some(make_issue(line_num, scope, m))))
    } else {
        None
    }
}

/// `s` without any number of leading copies of `p` (`str::trim_start_matches`).
pub open spec fn strip_all_prefix(s: Seq<char>, p: Seq<char>) -> Seq<char>
    decreases s.len(),
{
    if p.len() > 0 && starts_with(s, p) {
        strip_all_prefix(s.skip(p.len() as int), p)
    } else {
        s
    }
}

fn strip_all_prefix_exec(v: &[char], p: &[char]) -> (r: Vec<char>)
    ensures
        r@ == strip_all_prefix(v@, p@),
{
    let mut a: usize = 0;
    assert(v@.skip(0) =~= v@);
    while p.len() > 0 && a <= v.len() && starts_with_exec(&slice_of(v, a, v.len()), p)
        invariant
            a <= v.len(),
            strip_all_prefix(v@, p@) == strip_all_prefix(v@.skip(a as int), p@),
        decreases v.len() - a,
    {
        let ghost t = v@.skip(a as int);
        assert(v@.subrange(a as int, v@.len() as int) =~= t);
        assert(t.skip(p@.len() as int) =~= v@.skip(a + p.len()));
        a = a + p.len();
    }
    let r = slice_of(v, a, v.len());
    proof {
        assert(v@.subrange(a as int, v@.len() as int) =~= v@.skip(a as int));
    }
    r
}

/// The text inside the first brackets of a version heading, as written.
pub open spec fn raw_version(trimmed: Seq<char>) -> Seq<char> {
    trim(split(strip_all_prefix(trimmed, "## ["@), ']')[0])
}

/// What follows the first `]` of the heading, up to a second `]`.
pub open spec fn bracket_suffix(trimmed: Seq<char>) -> Seq<char> {
    let parts = split(trimmed, ']');
    if parts.len() > 1 { parts[1] } else { seq![] }
}

/// A section heading whose version is written with a `v` is rewritten as
/// `## [X.Y.Z]` followed by what came after the bracket; other section
/// headings pass unchanged.
pub open spec fn v_prefix_spec(trimmed: Seq<char>, raw: Seq<char>, line_num: usize, scope: Seq<char>) -> RuleView {
    match version_line(trimmed) {
        Some(ver) => {
            let rv = raw_version(trimmed);
            if rv.len() > 0 && rv[0] == 'v' {
                Some((
                    "## ["@ + ver + seq![']'] + bracket_suffix(trimmed),
                    Some(issue(line_num, scope, "修复 v 前缀: "@ + rv + " → "@ + ver)),
                ))
            } else {
                Some((raw, None))
            }
        },
        None => None,
    }
}

pub fn rule_v_prefix(trimmed: &str, raw_line: &str, line_num: usize, scope: &str) -> (r: Option<(String, Option<Issue>)>)
    ensures
        rule_view(r) == v_prefix_spec(trimmed@, raw_line@, line_num, scope@),
{
    match is_version_line(trimmed) {
        Some(ver) => {
            let t = chars_of(trimmed);
            let stripped = strip_all_prefix_exec(&t, &chars_of("## ["));
            let segs = split_exec(&stripped, ']');
            proof {
                crate::tag::lemma_split_nonempty(stripped@, ']');
            }
            assert(views(segs@)[0] == segs@[0]@);
            let rv = trim_exec(&segs[0]);
            if rv.len() > 0 && rv[0] == 'v' {
                let parts = split_exec(&t, ']');
                let suffix: Vec<char> = if parts.len() > 1 {
                    assert(views(parts@)[1] == parts@[1]@);
                    slice_of(&parts[1], 0, parts[1].len())
                } else {
                    Vec::new()
                };
                assert(parts.len() > 1 ==> suffix@ =~= parts@[1]@);
                let mut line = chars_of("## [");
                append_str(&mut line, ver.as_str());
                line.push(']');
                append(&mut line, &suffix);
                let mut m = chars_of("修复 v 前缀: ");
                append(&mut m, &rv);
                append_str(&mut m, " → ");
                append_str(&mut m, ver.as_str());
                Some((string_of(&line), Some(make_issue(line_num, scope, m))))
            } else {
                Some((string_of(&chars_of(raw_line)), None))
            }
        },
        None => None,
    }
}

/// The leading whitespace of a raw line.
pub open spec fn indent_of(raw: Seq<char>) -> Seq<char> {
    raw.take(raw.len() - trim_start(raw).len())
}

fn indent_exec(raw: &[char]) -> (r: Vec<char>)
    ensures
        r@ == indent_of(raw@),
{
    let mut a: usize = 0;
    while a < raw.len() && is_ws_exec(raw[a])
        invariant
            a <= raw.len(),
            forall|i: int| 0 <= i < a ==> is_ws(#[trigger] raw@[i]),
        decreases raw.len() - a,
    {
        a = a + 1;
    }
    proof {
        lemma_trim_start_ws_prefix(raw@, a as int);
        let t = raw@.skip(a as int);
        if t.len() > 0 {
            assert(t[0] == raw@[a as int]);
        }
        assert(trim_start(t) == t);
        assert(raw@.take(a as int) =~= raw@.subrange(0, a as int));
    }
    slice_of(raw, 0, a)
}

/// A `### ` heading that equals a standard category only up to case is
/// rewritten to the standard spelling, keeping the line's indentation; any
/// other `### ` heading passes unchanged.
pub open spec fn category_case_spec(trimmed: Seq<char>, raw: Seq<char>, line_num: usize, scope: Seq<char>) -> RuleView {
    if starts_with(trimmed, "### "@) {
        if is_category(trimmed) {
            let i = choose|i: int| 0 <= i < categories().len() && lowercase(categories()[i]) == lowercase(trimmed)
                && forall|j: int| 0 <= j < i ==> lowercase(categories()[j]) != lowercase(trimmed);
            let standard = categories()[i];
            if trimmed != standard {
                Some((indent_of(raw) + standard, Some(issue(line_num, scope, "修复大小写: "@ + trimmed + " → "@ + standard))))
            } else {
                Some((raw, None))
            }
        } else {
            Some((raw, None))
        }
    } else {
        None
    }
}

pub fn rule_category_case(trimmed: &str, raw_line: &str, line_num: usize, scope: &str) -> (r: Option<(String, Option<Issue>)>)
    ensures
        rule_view(r) == category_case_spec(trimmed@, raw_line@, line_num, scope@),
{
    let t = chars_of(trimmed);
    if !starts_with_exec(&t, &chars_of("### ")) {
        return None;
    }
    match find_category(trimmed) {
        Some(standard) => {
            proof {
                let k = choose|i: int| 0 <= i < categories().len() && categories()[i] == standard@
                    && lowercase(categories()[i]) == lowercase(trimmed@)
                    && forall|j: int| 0 <= j < i ==> lowercase(categories()[j]) != lowercase(trimmed@);
                let w = choose|i: int| 0 <= i < categories().len() && lowercase(categories()[i]) == lowercase(trimmed@)
                    && forall|j: int| 0 <= j < i ==> lowercase(categories()[j]) != lowercase(trimmed@);
                if w < k {
                } else if k < w {
                }
                assert(w == k);
            }
            if !crate::tag::str_eq(trimmed, standard) {
                let mut line = indent_exec(&chars_of(raw_line));
                append_str(&mut line, standard);
                let mut m = chars_of("修复大小写: ");
                append(&mut m, &t);
                append_str(&mut m, " → ");
                append_str(&mut m, standard);
                Some((string_of(&line), Some(make_issue(line_num, scope, m))))
            } else {
                Some((string_of(&chars_of(raw_line)), None))
            }
        },
        None => Some((string_of(&chars_of(raw_line)), None)),
    }
}

/// The line mentions a checkbox.
pub open spec fn has_any_box(t: Seq<char>) -> bool {
    contains(t, "[x]"@) || contains(t, "[X]"@) || contains(t, "[ ]"@)
}

/// The line is a standard checklist item.
pub open spec fn is_standard_item(t: Seq<char>) -> bool {
    starts_with(t, "- [x] "@) || starts_with(t, "- [X] "@) || starts_with(t, "- [ ] "@)
}

/// The item text after the first `]`, trimmed.
pub open spec fn item_content(t: Seq<char>) -> Seq<char> {
    match find(t, seq![']']) {
        Some(p) => trim(t.skip(p + 1)),
        None => seq![],
    }
}

pub open spec fn item_prefix(t: Seq<char>) -> Seq<char> {
    if contains(t, "[x]"@) || contains(t, "[X]"@) { "- [x]"@ } else { "- [ ]"@ }
}

/// A line with a checkbox that is no standard item is rewritten as
/// `- [x] text` (done) or `- [ ] text` (open).
pub open spec fn checkbox_spec(trimmed: Seq<char>, line_num: usize, scope: Seq<char>) -> RuleView {
    if has_any_box(trimmed) && !is_standard_item(trimmed) {
        let fixed = item_prefix(trimmed) + seq![' '] + item_content(trimmed);
        Some((fixed, Some(issue(line_num, scope, "修复 checkbox 格式: "@ + trimmed + " → "@ + fixed))))
    } else {
        None
    }
}

pub fn rule_checkbox_format(trimmed: &str, _raw_line: &str, line_num: usize, scope: &str) -> (r: Option<(String, Option<Issue>)>)
    ensures
        rule_view(r) == checkbox_spec(trimmed@, line_num, scope@),
{
    let t = chars_of(trimmed);
    let done = contains_exec(&t, &chars_of("[x]")) || contains_exec(&t, &chars_of("[X]"));
    let has_box = done || contains_exec(&t, &chars_of("[ ]"));
    let standard = starts_with_exec(&t, &chars_of("- [x] ")) || starts_with_exec(&t, &chars_of("- [X] "))
        || starts_with_exec(&t, &chars_of("- [ ] "));
    if has_box && !standard {
        let content: Vec<char> = match find_char_exec(&t, ']') {
            Some(p) => {
                let rest = slice_of(&t, p + 1, t.len());
                assert(rest@ =~= t@.skip(p + 1));
                trim_exec(&rest)
            },
            None => {
                proof {
                    reveal_strlit("[x]");
                    reveal_strlit("[X]");
                    reveal_strlit("[ ]");
                    if contains(t@, "[x]"@) {
                        let k = choose|k: int| crate::text::matches_at(t@, "[x]"@, k);
                        assert(t@.subrange(k, k + 3)[2] == ']');
                        assert(t@[k + 2] == ']');
                    } else if contains(t@, "[X]"@) {
                        let k = choose|k: int| crate::text::matches_at(t@, "[X]"@, k);
                        assert(t@.subrange(k, k + 3)[2] == ']');
                        assert(t@[k + 2] == ']');
                    } else {
                        let k = choose|k: int| crate::text::matches_at(t@, "[ ]"@, k);
                        assert(t@.subrange(k, k + 3)[2] == ']');
                        assert(t@[k + 2] == ']');
                    }
                }
                Vec::new()
            },
        };
        let mut fixed = if done { chars_of("- [x]") } else { chars_of("- [ ]") };
        fixed.push(' ');
        append(&mut fixed, &content);
        let mut m = chars_of("修复 checkbox 格式: ");
        append(&mut m, &t);
        append_str(&mut m, " → ");
        append(&mut m, &fixed);
        Some((string_of(&fixed), Some(make_issue(line_num, scope, m))))
    } else {
        None
    }
}

/// The rules in the order they are tried.
pub open spec fn rules_spec(trimmed: Seq<char>, raw: Seq<char>, line_num: usize, scope: Seq<char>) -> (Seq<char>, Option<IssueView>) {
    if nonstandard_header_spec(trimmed, raw, line_num, scope) is Some {
        nonstandard_header_spec(trimmed, raw, line_num, scope).unwrap()
    } else if nonstandard_category_spec(trimmed, raw, line_num, scope) is Some {
        nonstandard_category_spec(trimmed, raw, line_num, scope).unwrap()
    } else if v_prefix_spec(trimmed, raw, line_num, scope) is Some {
        v_prefix_spec(trimmed, raw, line_num, scope).unwrap()
    } else if category_case_spec(trimmed, raw, line_num, scope) is Some {
        category_case_spec(trimmed, raw, line_num, scope).unwrap()
    } else if checkbox_spec(trimmed, line_num, scope) is Some {
        checkbox_spec(trimmed, line_num, scope).unwrap()
    } else {
        (raw, None)
    }
}

/// A rewritten line stays: the rules keep it as it is and find no issue in
/// it, whatever its line number.
pub open spec fn fix_stays(f: Seq<char>, scope: Seq<char>) -> bool {
    forall|again: usize| #[trigger] rules_spec(trim(f), f, again, scope) == (f, None::<IssueView>)
}

/// A line the rules rewrote, other than to an empty checklist item or to a
/// heading that does not settle: the case the idempotence law covers.
pub open spec fn settled_fix(r: (Seq<char>, Option<IssueView>), raw: Seq<char>) -> bool {
    &&& r.1 is Some
    &&& r.0 != raw
    &&& r.0 != "- [x] "@
    &&& r.0 != "- [ ] "@
    &&& heading_settles(r.0)
}

/// Applies the rules to one line: the first rule that answers decides;
/// otherwise the line is kept without issue. A line rewritten here (to
/// anything but an empty checklist item or a heading that does not settle)
/// passes the rules unchanged and without issue the next time.
pub fn apply_rules_to_line(trimmed: &str, raw_line: &str, line_num: usize, scope: &str) -> (r: (String, Option<Issue>))
    ensures
        rule_view(Some(r)).unwrap() == rules_spec(trimmed@, raw_line@, line_num, scope@),
        settled_fix(rule_view(Some(r)).unwrap(), raw_line@) ==> fix_stays(r.0@, scope@),
{
    if let Some(result) = rule_nonstandard_header(trimmed, raw_line, line_num, scope) {
        return result;
    }
    if let Some(result) = rule_nonstandard_category(trimmed, raw_line, line_num, scope) {
        return result;
    }
    if let Some(result) = rule_v_prefix(trimmed, raw_line, line_num, scope) {
        proof {
            if settled_fix(rule_view(Some(result)).unwrap(), raw_line@) {
                assert forall|again: usize| #[trigger] rules_spec(trim(result.0@), result.0@, again, scope@) == (
                    result.0@,
                    None::<IssueView>,
                ) by {
                    lemma_v_prefix_fix_stays(trimmed@, raw_line@, line_num, scope@, again);
                }
            }
        }
        return result;
    }
    if let Some(result) = rule_category_case(trimmed, raw_line, line_num, scope) {
        if result.1.is_some() {
            check_categories_distinct();
            proof {
                assert forall|again: usize| #[trigger] rules_spec(trim(result.0@), result.0@, again, scope@) == (
                    result.0@,
                    None::<IssueView>,
                ) by {
                    lemma_category_fix_stays(trimmed@, raw_line@, line_num, scope@, again);
                }
            }
        }
        return result;
    }
    if let Some(result) = rule_checkbox_format(trimmed, raw_line, line_num, scope) {
        proof {
            reveal_strlit("- [x]");
            reveal_strlit("- [ ]");
            reveal_strlit("- [x] ");
            reveal_strlit("- [ ] ");
            if settled_fix(rule_view(Some(result)).unwrap(), raw_line@) {
                let c = item_content(trimmed@);
                if c.len() == 0 {
                    assert(result.0@ =~= item_prefix(trimmed@) + seq![' '] + c);
                    if item_prefix(trimmed@) == "- [x]"@ {
                        assert(result.0@ =~= "- [x] "@);
                    } else {
                        assert(result.0@ =~= "- [ ] "@);
                    }
                }
                assert forall|again: usize| #[trigger] rules_spec(trim(result.0@), result.0@, again, scope@) == (
                    result.0@,
                    None::<IssueView>,
                ) by {
                    law_fixed_checkbox_stays(trimmed@, line_num, again, scope@);
                }
            }
        }
        return result;
    }
    (string_of(&chars_of(raw_line)), None)
}

/// A trimmed text that is not empty starts and ends with something other
/// than whitespace.
proof fn lemma_trim_ends(x: Seq<char>)
    requires
        trim(x).len() > 0,
    ensures
        !is_ws(trim(x)[0]),
        !is_ws(trim(x).last()),
{
    let a = lemma_trim_start_ws(x);
    let y = x.skip(a);
    let b = lemma_trim_end_ws(y);
    assert(trim(x) == y.take(b));
    assert(trim(x)[0] == y[0]);
    assert(y[0] == x[a]);
    assert(trim(x).last() == y[b - 1]);
}

/// Law: a checkbox item the rules rewrote, with item text, passes the rules
/// unchanged and without an issue when the file is checked again.
pub proof fn law_fixed_checkbox_stays(trimmed: Seq<char>, line_num: usize, again: usize, scope: Seq<char>)
    requires
        checkbox_spec(trimmed, line_num, scope) is Some,
        item_content(trimmed).len() > 0,
    ensures
        ({
            let fixed = checkbox_spec(trimmed, line_num, scope).unwrap().0;
            rules_spec(trim(fixed), fixed, again, scope) == (fixed, None::<IssueView>)
        }),
{
    reveal_strlit("- [x]");
    reveal_strlit("- [ ]");
    reveal_strlit("- [x] ");
    reveal_strlit("- [ ] ");
    reveal_strlit("[x]");
    reveal_strlit("[ ]");
    reveal_strlit("## ");
    reveal_strlit("### ");
    reveal_strlit("## [");
    let c = item_content(trimmed);
    let p = item_prefix(trimmed);
    let fixed = p + seq![' '] + c;
    assert(checkbox_spec(trimmed, line_num, scope).unwrap().0 == fixed);
    lemma_trim_ends(trimmed.skip(find(trimmed, seq![']']).unwrap() + 1));
    assert(fixed[0] == '-');
    assert(fixed.last() == c.last());
    lemma_trim_ws_prefix_body(Seq::empty(), fixed);
    assert(Seq::<char>::empty() + fixed =~= fixed);
    assert(trim(fixed) == fixed);
    assert(!starts_with(fixed, "## "@)) by {
        if starts_with(fixed, "## "@) {
            assert(fixed.subrange(0, 3)[0] == fixed[0]);
        }
    }
    assert(!starts_with(fixed, "### "@)) by {
        if starts_with(fixed, "### "@) {
            assert(fixed.subrange(0, 4)[0] == fixed[0]);
        }
    }
    assert(!starts_with(fixed, "## ["@)) by {
        if starts_with(fixed, "## ["@) {
            assert(fixed.subrange(0, 4)[0] == fixed[0]);
        }
    }
    assert(version_line(fixed) is None);
    if p == "- [x]"@ {
        assert(fixed.subrange(0, 6) =~= "- [x] "@);
        assert(fixed.subrange(2, 5) =~= "[x]"@);
        assert(crate::text::matches_at(fixed, "[x]"@, 2));
        assert(contains(fixed, "[x]"@));
    } else {
        assert(fixed.subrange(0, 6) =~= "- [ ] "@);
        assert(fixed.subrange(2, 5) =~= "[ ]"@);
        assert(crate::text::matches_at(fixed, "[ ]"@, 2));
        assert(contains(fixed, "[ ]"@));
    }
    assert(checkbox_spec(fixed, again, scope) is None);
}

/// A line the rules take as settled if it opens with `## [`: it then reads
/// as a section heading whose bracket text does not start with `v`.
pub open spec fn heading_settles(f: Seq<char>) -> bool {
    starts_with(trim(f), "## ["@) ==> (version_line(trim(f)) is Some && !(raw_version(trim(f)).len() > 0
        && raw_version(trim(f))[0] == 'v'))
}

/// A heading the v-prefix rule rewrote, when it reads as settled, passes
/// the rules unchanged and without an issue.
proof fn lemma_v_prefix_fix_stays(t: Seq<char>, raw: Seq<char>, n: usize, scope: Seq<char>, again: usize)
    requires
        v_prefix_spec(t, raw, n, scope) is Some,
        v_prefix_spec(t, raw, n, scope).unwrap().1 is Some,
        heading_settles(v_prefix_spec(t, raw, n, scope).unwrap().0),
    ensures
        ({
            let f = v_prefix_spec(t, raw, n, scope).unwrap().0;
            rules_spec(trim(f), f, again, scope) == (f, None::<IssueView>)
        }),
{
    reveal_strlit("## [");
    reveal_strlit("## ");
    reveal_strlit("### ");
    let ver = version_line(t).unwrap();
    let f = "## ["@ + ver + seq![']'] + bracket_suffix(t);
    assert(v_prefix_spec(t, raw, n, scope).unwrap().0 == f);
    let a = lemma_trim_start_ws(f);
    assert(f[0] == '#');
    assert(a == 0);
    assert(f.skip(0) =~= f);
    let b = lemma_trim_end_ws(f);
    let k: int = 4int + ver.len();
    assert(f[k] == ']');
    assert(b > k);
    let tf = trim(f);
    assert(tf == f.take(b));
    assert(tf.subrange(0, 4) =~= "## ["@);
    assert(starts_with(tf, "## ["@));
    assert(tf.subrange(0, 3) =~= "## "@);
    assert(starts_with(tf, "## "@));
    assert(!starts_with(tf, "### "@)) by {
        if starts_with(tf, "### "@) {
            assert(tf.subrange(0, 4)[2] == tf[2]);
        }
    }
    assert(nonstandard_header_spec(tf, f, again, scope) is None);
    assert(nonstandard_category_spec(tf, f, again, scope) is None);
    assert(v_prefix_spec(tf, f, again, scope) == Some((f, None::<IssueView>)));
}

/// The six category headings lowercase to six different texts.
pub open spec fn categories_distinct() -> bool {
    forall|i: int, j: int|
        0 <= i < categories().len() && 0 <= j < categories().len() && i != j ==> lowercase(
            #[trigger] categories()[i],
        ) != lowercase(#[trigger] categories()[j])
}

/// Lowercases one category heading, which brings in its length and its
/// sixth character (a lowercase letter that lowercasing keeps).
fn lowercase_category(c: &str)
    requires
        all_ascii(c@),
        c@.len() > 5,
        'a' <= c@[5] <= 'z',
    ensures
        lowercase(c@).len() == c@.len(),
        lowercase(c@)[5] == c@[5],
{
    let lc = to_lowercase(c);
    assert(lc@[5] == ascii_lower(c@[5]));
}

/// Lowercases the category headings, which brings in that they stay apart.
fn check_categories_distinct()
    ensures
        categories_distinct(),
{
    proof {
        reveal_strlit("### Added");
        reveal_strlit("### Changed");
        reveal_strlit("### Fixed");
        reveal_strlit("### Removed");
        reveal_strlit("### Deprecated");
        reveal_strlit("### Security");
    }
    lowercase_category("### Added");
    lowercase_category("### Changed");
    lowercase_category("### Fixed");
    lowercase_category("### Removed");
    lowercase_category("### Deprecated");
    lowercase_category("### Security");
    proof {
        assert forall|i: int, j: int|
            0 <= i < categories().len() && 0 <= j < categories().len() && i != j implies lowercase(
                #[trigger] categories()[i],
            ) != lowercase(#[trigger] categories()[j]) by {
            if lowercase(categories()[i]) == lowercase(categories()[j]) {
                assert(lowercase(categories()[i])[5] == lowercase(categories()[j])[5]);
            }
        }
    }
}

/// A category heading the case rule rewrote passes the rules unchanged and
/// without an issue, given that the categories lowercase apart.
proof fn lemma_category_fix_stays(t: Seq<char>, raw: Seq<char>, n: usize, scope: Seq<char>, again: usize)
    requires
        category_case_spec(t, raw, n, scope) is Some,
        category_case_spec(t, raw, n, scope).unwrap().1 is Some,
        categories_distinct(),
    ensures
        ({
            let f = category_case_spec(t, raw, n, scope).unwrap().0;
            rules_spec(trim(f), f, again, scope) == (f, None::<IssueView>)
        }),
{
    reveal_strlit("### Added");
    reveal_strlit("### Changed");
    reveal_strlit("### Fixed");
    reveal_strlit("### Removed");
    reveal_strlit("### Deprecated");
    reveal_strlit("### Security");
    reveal_strlit("## [");
    reveal_strlit("## ");
    reveal_strlit("### ");
    let i = choose|i: int| 0 <= i < categories().len() && lowercase(categories()[i]) == lowercase(t)
        && forall|j: int| 0 <= j < i ==> lowercase(categories()[j]) != lowercase(t);
    let standard = categories()[i];
    let indent = indent_of(raw);
    let f = indent + standard;
    assert(category_case_spec(t, raw, n, scope).unwrap().0 == f);
    let a = lemma_trim_start_ws(raw);
    assert(indent =~= raw.take(a));
    assert(standard[0] == '#');
    assert(!is_ws(standard.last()));
    lemma_trim_ws_prefix_body(indent, standard);
    assert(trim(f) == standard);
    lemma_trim_ws_prefix_body(Seq::empty(), standard);
    assert(Seq::<char>::empty() + standard =~= standard);
    assert(trim(standard) == standard);
    assert(!starts_with(standard, "## "@)) by {
        if starts_with(standard, "## "@) {
            assert(standard.subrange(0, 3)[2] == standard[2]);
        }
    }
    assert(standard.subrange(0, 4) =~= "### "@);
    assert(starts_with(standard, "### "@));
    assert(is_category(standard));
    assert(nonstandard_header_spec(standard, f, again, scope) is None);
    assert(nonstandard_category_spec(standard, f, again, scope) is None);
    assert(!has_char(standard, ']'));
    lemma_find_char_absent(standard, ']');
    assert(bracket_version(standard) is None);
    assert(numbered_heading(standard) is None);
    assert(version_line(standard) is None);
    assert(v_prefix_spec(standard, f, again, scope) is None);
    let i2 = choose|i2: int| 0 <= i2 < categories().len() && lowercase(categories()[i2]) == lowercase(standard)
        && forall|j: int| 0 <= j < i2 ==> lowercase(categories()[j]) != lowercase(standard);
    assert(i2 == i) by {
        if i2 != i {
            assert(lowercase(categories()[i2]) != lowercase(categories()[i]));
        }
    }
    assert(category_case_spec(standard, f, again, scope) == Some((f, None::<IssueView>)));
}

// ───────────────────────────── a whole file ─────────────────────────────

/// The rules applied to every line of a planning file, numbered from 1:
/// the lines to keep and the issues found, in order.
pub open spec fn doctor_upto(ls: Seq<Seq<char>>, k: int, scope: Seq<char>) -> (Seq<Seq<char>>, Seq<IssueView>)
    decreases k,
{
    if k <= 0 {
        (Seq::empty(), Seq::empty())
    } else {
        let prev = doctor_upto(ls, k - 1, scope);
        let r = rules_spec(trim(ls[k - 1]), ls[k - 1], k as usize, scope);
        (prev.0.push(r.0), match r.1 {
            Some(i) => prev.1.push(i),
            None => prev.1,
        })
    }
}

pub open spec fn issue_views(v: Seq<Issue>) -> Seq<IssueView> {
    v.map_values(|i: Issue| i@)
}

/// Checks a planning file: its lines after the rules, joined by `\n` (with
/// a final `\n` when the file ends with one), and the issues found.
pub fn doctor_file(content: &str, scope: &str) -> (r: (String, Vec<Issue>))
    ensures
        ({
            let ls = lines(content@);
            let d = doctor_upto(ls, ls.len() as int, scope@);
            &&& r.0@ == join_lines(d.0) + if content@.len() > 0 && content@.last() == '\n' {
                seq!['\n']
            } else {
                Seq::<char>::empty()
            }
            &&& issue_views(r.1@) == d.1
        }),
{
    let c = chars_of(content);
    let ls = lines_exec(c.as_slice());
    let ghost all = views(ls@);
    let mut kept: Vec<String> = Vec::new();
    let mut issues: Vec<Issue> = Vec::new();
    let mut i: usize = 0;
    while i < ls.len()
        invariant
            i <= ls.len(),
            all == views(ls@),
            all == lines(content@),
            string_views(kept@) == doctor_upto(all, i as int, scope@).0,
            issue_views(issues@) == doctor_upto(all, i as int, scope@).1,
        decreases ls.len() - i,
    {
        let raw = string_of(ls[i].as_slice());
        let t = string_of(trim_exec(ls[i].as_slice()).as_slice());
        assert(raw@ == all[i as int]);
        let (line, issue) = apply_rules_to_line(t.as_str(), raw.as_str(), i + 1, scope);
        let ghost before_k = kept@;
        let ghost before_i = issues@;
        let ghost lv = line@;
        kept.push(line);
        assert(string_views(kept@) =~= string_views(before_k).push(lv));
        match issue {
            Some(x) => {
                issues.push(x);
                assert(issue_views(issues@) =~= issue_views(before_i).push(x@));
            },
            None => {},
        }
        i = i + 1;
    }
    let mut text = join_lines_exec(&kept);
    if c.len() > 0 && c[c.len() - 1] == '\n' {
        let mut v = chars_of(text.as_str());
        v.push('\n');
        text = string_of(v.as_slice());
    }
    (text, issues)
}
} // verus!
