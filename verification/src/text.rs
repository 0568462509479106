//! Character-level text model shared by the parsers of this crate.
//!
//! Strings are handled as sequences of `char`. The spec functions here state
//! what the standard library's string operations (`trim`, `lines`, `find`,
//! `split`, `parse::<u32>`, decimal formatting) compute, and the executable
//! functions are proved against them.

use vstd::prelude::*;

verus! {

// ───────────────────────────── spec model ─────────────────────────────

/// Unicode `White_Space`, the property behind `char::is_whitespace`.
pub open spec fn is_ws(c: char) -> bool {
    ||| c == '\t' || c == '\n' || c == '\x0B' || c == '\x0C' || c == '\r' || c == ' '
    ||| c == '\u{85}' || c == '\u{A0}' || c == '\u{1680}'
    ||| ('\u{2000}' <= c && c <= '\u{200A}')
    ||| c == '\u{2028}' || c == '\u{2029}' || c == '\u{202F}' || c == '\u{205F}' || c == '\u{3000}'
}

pub open spec fn is_digit(c: char) -> bool {
    '0' <= c && c <= '9'
}

/// `s` with leading whitespace removed (`str::trim_start`).
pub open spec fn trim_start(s: Seq<char>) -> Seq<char>
    decreases s.len(),
{
    if s.len() > 0 && is_ws(s[0]) {
        trim_start(s.drop_first())
    } else {
        s
    }
}

/// `s` with trailing whitespace removed (`str::trim_end`).
pub open spec fn trim_end(s: Seq<char>) -> Seq<char>
    decreases s.len(),
{
    if s.len() > 0 && is_ws(s.last()) {
        trim_end(s.drop_last())
    } else {
        s
    }
}

/// `str::trim`.
pub open spec fn trim(s: Seq<char>) -> Seq<char> {
    trim_end(trim_start(s))
}

/// `p` occurs in `s` starting at index `i`.
pub open spec fn matches_at(s: Seq<char>, p: Seq<char>, i: int) -> bool {
    0 <= i && i + p.len() <= s.len() && s.subrange(i, i + p.len()) == p
}

pub open spec fn starts_with(s: Seq<char>, p: Seq<char>) -> bool {
    matches_at(s, p, 0)
}

pub open spec fn ends_with(s: Seq<char>, p: Seq<char>) -> bool {
    p.len() <= s.len() && matches_at(s, p, s.len() - p.len())
}

/// `str::contains` with a string pattern.
pub open spec fn contains(s: Seq<char>, p: Seq<char>) -> bool {
    exists|i: int| matches_at(s, p, i)
}

pub open spec fn has_char(s: Seq<char>, c: char) -> bool {
    exists|i: int| 0 <= i < s.len() && s[i] == c
}

/// Index of the first occurrence of `p` in `s` (`str::find`).
pub open spec fn find(s: Seq<char>, p: Seq<char>) -> Option<int>
    decreases s.len(),
{
    if matches_at(s, p, 0) {
        Some(0)
    } else if s.len() == 0 {
        None
    } else {
        match find(s.drop_first(), p) {
            Some(i) => Some(i + 1),
            None => None,
        }
    }
}

/// `str::split_once` with a `char` separator.
pub open spec fn split_once(s: Seq<char>, c: char) -> Option<(Seq<char>, Seq<char>)> {
    match find(s, seq![c]) {
        Some(i) => Some((s.take(i), s.skip(i + 1))),
        None => None,
    }
}

/// `str::strip_prefix`.
pub open spec fn strip_prefix(s: Seq<char>, p: Seq<char>) -> Option<Seq<char>> {
    if starts_with(s, p) {
        Some(s.skip(p.len() as int))
    } else {
        None
    }
}

/// `str::split` with a `char` separator.
pub open spec fn split(s: Seq<char>, c: char) -> Seq<Seq<char>>
    decreases s.len(),
{
    match find(s, seq![c]) {
        Some(i) => {
            if 0 <= i < s.len() {
                seq![s.take(i)] + split(s.skip(i + 1), c)
            } else {
                seq![s]
            }
        },
        None => seq![s],
    }
}

/// A line as `str::lines` yields it: a `\r` right before the `\n` is dropped.
pub open spec fn strip_cr(l: Seq<char>) -> Seq<char> {
    if l.len() > 0 && l.last() == '\r' {
        l.drop_last()
    } else {
        l
    }
}

/// `str::lines`.
pub open spec fn lines(s: Seq<char>) -> Seq<Seq<char>>
    decreases s.len(),
{
    if s.len() == 0 {
        seq![]
    } else {
        match find(s, seq!['\n']) {
            Some(i) => {
                if 0 <= i < s.len() {
                    seq![strip_cr(s.take(i))] + lines(s.skip(i + 1))
                } else {
                    seq![s]
                }
            },
            None => seq![s],
        }
    }
}

/// `str::split_whitespace`.
pub open spec fn words(s: Seq<char>) -> Seq<Seq<char>>
    decreases s.len(),
{
    if s.len() == 0 {
        seq![]
    } else if is_ws(s[0]) {
        words(s.drop_first())
    } else {
        let n = word_len(s);
        if 0 < n <= s.len() {
            seq![s.take(n as int)] + words(s.skip(n as int))
        } else {
            seq![s]
        }
    }
}

/// Length of the leading run of non-whitespace characters.
pub open spec fn word_len(s: Seq<char>) -> nat
    decreases s.len(),
{
    if s.len() == 0 || is_ws(s[0]) {
        0
    } else {
        1 + word_len(s.drop_first())
    }
}

/// Value of a string of ASCII digits.
pub open spec fn digits_value(s: Seq<char>) -> nat
    decreases s.len(),
{
    if s.len() == 0 {
        0
    } else {
        digits_value(s.drop_last()) * 10 + (s.last() as nat - '0' as nat) as nat
    }
}

pub open spec fn all_digits(s: Seq<char>) -> bool {
    forall|i: int| 0 <= i < s.len() ==> is_digit(#[trigger] s[i])
}

/// `str::parse::<u32>`: an optional `+`, then one or more ASCII digits whose
/// value fits in a `u32`.
pub open spec fn parse_u32(s: Seq<char>) -> Option<u32> {
    let d = if s.len() > 0 && s[0] == '+' { s.drop_first() } else { s };
    if d.len() > 0 && all_digits(d) && digits_value(d) <= u32::MAX {
        Some(digits_value(d) as u32)
    } else {
        None
    }
}

/// Decimal rendering of a natural number, as `Display` writes an integer.
pub open spec fn decimal(n: nat) -> Seq<char>
    decreases n,
{
    if n < 10 {
        seq![digit_char(n)]
    } else {
        decimal(n / 10).push(digit_char(n % 10))
    }
}

pub open spec fn digit_char(d: nat) -> char {
    if d == 0 { '0' }
    else if d == 1 { '1' }
    else if d == 2 { '2' }
    else if d == 3 { '3' }
    else if d == 4 { '4' }
    else if d == 5 { '5' }
    else if d == 6 { '6' }
    else if d == 7 { '7' }
    else if d == 8 { '8' }
    else { '9' }
}

/// Number of bytes UTF-8 uses for `c`.
pub open spec fn utf8_len(c: char) -> nat {
    if (c as u32) < 0x80 {
        1
    } else if (c as u32) < 0x800 {
        2
    } else if (c as u32) < 0x10000 {
        3
    } else {
        4
    }
}

/// Length in bytes of the UTF-8 encoding of `s` (what `str::len` returns).
pub open spec fn byte_len(s: Seq<char>) -> nat
    decreases s.len(),
{
    if s.len() == 0 {
        0
    } else {
        byte_len(s.drop_last()) + utf8_len(s.last())
    }
}

/// The character index at which byte offset `b` falls on a character
/// boundary, if it does (`str::is_char_boundary`).
pub open spec fn char_boundary(s: Seq<char>, b: nat) -> Option<int> {
    if exists|k: int| 0 <= k <= s.len() && byte_len(s.take(k)) == b {
        Some(choose|k: int| 0 <= k <= s.len() && byte_len(s.take(k)) == b)
    } else {
        None
    }
}

/// `s` without its leading `c` characters (`str::trim_start_matches`).
pub open spec fn trim_leading(s: Seq<char>, c: char) -> Seq<char>
    decreases s.len(),
{
    if s.len() > 0 && s[0] == c {
        trim_leading(s.drop_first(), c)
    } else {
        s
    }
}

// ───────────────────────────── lemmas ─────────────────────────────

/// `find` yields the first match, and `None` exactly when there is none.
pub proof fn lemma_find(s: Seq<char>, p: Seq<char>)
    ensures
        match find(s, p) {
            Some(i) => matches_at(s, p, i) && forall|j: int| 0 <= j < i ==> !matches_at(s, p, j),
            None => forall|j: int| !matches_at(s, p, j),
        },
    decreases s.len(),
{
    if matches_at(s, p, 0) {
    } else if s.len() == 0 {
        assert forall|j: int| !matches_at(s, p, j) by {
            if matches_at(s, p, j) {
                assert(j == 0 || j + p.len() > 0);
            }
        }
    } else {
        let t = s.drop_first();
        lemma_find(t, p);
        assert forall|j: int| 1 <= j implies #[trigger] matches_at(s, p, j) == matches_at(t, p, j - 1) by {
            if 0 <= j - 1 && j - 1 + p.len() <= t.len() {
                assert(s.subrange(j, j + p.len()) =~= t.subrange(j - 1, j - 1 + p.len()));
            }
        }
        match find(t, p) {
            Some(i) => {
                assert(matches_at(s, p, i + 1));
                assert forall|j: int| 0 <= j < i + 1 implies !matches_at(s, p, j) by {
                    if j >= 1 {
                        assert(!matches_at(t, p, j - 1));
                    }
                }
            },
            None => {
                assert forall|j: int| !matches_at(s, p, j) by {
                    if j >= 1 {
                        assert(!matches_at(t, p, j - 1));
                    }
                }
            },
        }
    }
}

/// A first match determines `find`.
pub proof fn lemma_find_is(s: Seq<char>, p: Seq<char>, i: int)
    requires
        matches_at(s, p, i),
        forall|j: int| 0 <= j < i ==> !matches_at(s, p, j),
    ensures
        find(s, p) == Some(i),
{
    lemma_find(s, p);
    match find(s, p) {
        Some(k) => {
            if k < i {
            } else if k > i {
            }
        },
        None => {
            assert(!matches_at(s, p, i));
        },
    }
}

/// No match determines `find`.
pub proof fn lemma_find_none(s: Seq<char>, p: Seq<char>)
    requires
        forall|j: int| !matches_at(s, p, j),
    ensures
        find(s, p) == None::<int>,
{
    lemma_find(s, p);
    match find(s, p) {
        Some(k) => {
            assert(matches_at(s, p, k));
        },
        None => {},
    }
}

pub proof fn lemma_contains_find(s: Seq<char>, p: Seq<char>)
    ensures
        contains(s, p) <==> find(s, p) is Some,
{
    lemma_find(s, p);
    if contains(s, p) {
        let j = choose|j: int| matches_at(s, p, j);
        assert(matches_at(s, p, j));
    }
}

pub proof fn lemma_single_char_match(s: Seq<char>, c: char, i: int)
    ensures
        matches_at(s, seq![c], i) <==> (0 <= i < s.len() && s[i] == c),
{
    if 0 <= i < s.len() {
        if s[i] == c {
            assert(s.subrange(i, i + 1) =~= seq![c]);
        } else {
            assert(s.subrange(i, i + 1)[0] == s[i]);
        }
    }
}

pub proof fn lemma_has_char_contains(s: Seq<char>, c: char)
    ensures
        has_char(s, c) <==> contains(s, seq![c]),
{
    if has_char(s, c) {
        let i = choose|i: int| 0 <= i < s.len() && s[i] == c;
        lemma_single_char_match(s, c, i);
    }
    if contains(s, seq![c]) {
        let i = choose|i: int| matches_at(s, seq![c], i);
        lemma_single_char_match(s, c, i);
    }
}

pub proof fn lemma_digits_value_push(s: Seq<char>, c: char)
    ensures
        digits_value(s.push(c)) == digits_value(s) * 10 + (c as nat - '0' as nat) as nat,
{
    assert(s.push(c).drop_last() =~= s);
}

pub proof fn lemma_trim_start_ws_prefix(s: Seq<char>, a: int)
    requires
        0 <= a <= s.len(),
        forall|i: int| 0 <= i < a ==> is_ws(#[trigger] s[i]),
    ensures
        trim_start(s) == trim_start(s.skip(a)),
    decreases a,
{
    if a > 0 {
        assert(s.drop_first().skip(a - 1) =~= s.skip(a));
        lemma_trim_start_ws_prefix(s.drop_first(), a - 1);
    } else {
        assert(s.skip(0) =~= s);
    }
}

/// `trim_start` drops a prefix.
pub proof fn lemma_trim_start_skip(s: Seq<char>) -> (a: int)
    ensures
        0 <= a <= s.len(),
        trim_start(s) == s.skip(a),
    decreases s.len(),
{
    if s.len() > 0 && is_ws(s[0]) {
        let a1 = lemma_trim_start_skip(s.drop_first());
        assert(s.drop_first().skip(a1) =~= s.skip(a1 + 1));
        a1 + 1
    } else {
        assert(s.skip(0) =~= s);
        0
    }
}

/// `trim_end` keeps a prefix.
pub proof fn lemma_trim_end_take(s: Seq<char>) -> (b: int)
    ensures
        0 <= b <= s.len(),
        trim_end(s) == s.take(b),
    decreases s.len(),
{
    if s.len() > 0 && is_ws(s.last()) {
        let b1 = lemma_trim_end_take(s.drop_last());
        assert(s.drop_last().take(b1) =~= s.take(b1));
        b1
    } else {
        assert(s.take(s.len() as int) =~= s);
        s.len() as int
    }
}

/// Trimming never lengthens a text.
pub proof fn lemma_trim_len(s: Seq<char>)
    ensures
        trim(s).len() <= s.len(),
{
    let a = lemma_trim_start_skip(s);
    let b = lemma_trim_end_take(s.skip(a));
}

/// The total length of a list of texts.
pub open spec fn sum_len(ls: Seq<Seq<char>>) -> nat
    decreases ls.len(),
{
    if ls.len() == 0 {
        0
    } else {
        ls[0].len() + sum_len(ls.drop_first())
    }
}

/// The lines of a text are no longer, together, than the text.
pub proof fn lemma_lines_sum_len(s: Seq<char>)
    ensures
        sum_len(lines(s)) <= s.len(),
    decreases s.len(),
{
    if s.len() > 0 {
        match find(s, seq!['\n']) {
            Some(i) => {
                if 0 <= i < s.len() {
                    lemma_lines_sum_len(s.skip(i + 1));
                    let l = seq![strip_cr(s.take(i))] + lines(s.skip(i + 1));
                    assert(l.drop_first() =~= lines(s.skip(i + 1)));
                    assert(l[0] == strip_cr(s.take(i)));
                    assert(lines(s) == l);
                    assert(strip_cr(s.take(i)).len() <= i);
                    assert(sum_len(l) == l[0].len() + sum_len(l.drop_first()));
                } else {
                    lemma_find(s, seq!['\n']);
                }
            },
            None => {
                assert(seq![s].drop_first() =~= Seq::<Seq<char>>::empty());
                assert(lines(s) == seq![s]);
                assert(sum_len(seq![s]) == s.len() + sum_len(seq![s].drop_first()));
            },
        }
    }
}

/// Each line of a text is a piece of it.
#[verifier::rlimit(40)]
pub proof fn lemma_line_in_text(s: Seq<char>, k: int) -> (off: int)
    requires
        0 <= k < lines(s).len(),
    ensures
        0 <= off,
        off + lines(s)[k].len() <= s.len(),
        s.subrange(off, off + lines(s)[k].len()) == lines(s)[k],
    decreases s.len(),
{
    match find(s, seq!['\n']) {
        Some(i) => {
            if 0 <= i < s.len() {
                let l = seq![strip_cr(s.take(i))] + lines(s.skip(i + 1));
                assert(lines(s) == l);
                if k == 0 {
                    let f = strip_cr(s.take(i));
                    assert(s.subrange(0, f.len() as int) =~= f);
                    0
                } else {
                    assert(l[k] == lines(s.skip(i + 1))[k - 1]);
                    let o = lemma_line_in_text(s.skip(i + 1), k - 1);
                    let line = lines(s.skip(i + 1))[k - 1];
                    assert(s.subrange(i + 1 + o, i + 1 + o + line.len()) =~= s.skip(i + 1).subrange(
                        o,
                        o + line.len(),
                    ));
                    i + 1 + o
                }
            } else {
                lemma_find(s, seq!['\n']);
                0
            }
        },
        None => {
            assert(lines(s) == seq![s]);
            assert(s.subrange(0, s.len() as int) =~= s);
            0
        },
    }
}

/// Whatever a line holds, the text holds.
pub proof fn lemma_line_contains(s: Seq<char>, k: int, p: Seq<char>)
    requires
        0 <= k < lines(s).len(),
        contains(lines(s)[k], p),
    ensures
        contains(s, p),
{
    let off = lemma_line_in_text(s, k);
    let l = lines(s)[k];
    let j = choose|j: int| matches_at(l, p, j);
    assert(s.subrange(off + j, off + j + p.len()) =~= l.subrange(j, j + p.len()));
    assert(matches_at(s, p, off + j));
}

/// How often `c` occurs in `s`.
pub open spec fn count_char(s: Seq<char>, c: char) -> nat
    decreases s.len(),
{
    if s.len() == 0 {
        0
    } else {
        count_char(s.drop_last(), c) + if s.last() == c {
            1nat
        } else {
            0nat
        }
    }
}

/// Two different characters occur together at most as often as the text
/// is long.
pub proof fn lemma_count_two(s: Seq<char>, a: char, b: char)
    requires
        a != b,
    ensures
        count_char(s, a) + count_char(s, b) <= s.len(),
    decreases s.len(),
{
    if s.len() > 0 {
        lemma_count_two(s.drop_last(), a, b);
    }
}

pub fn count_char_exec(v: &[char], c: char) -> (r: usize)
    ensures
        r == count_char(v@, c),
{
    let mut n: usize = 0;
    let mut i: usize = 0;
    while i < v.len()
        invariant
            i <= v.len(),
            n == count_char(v@.take(i as int), c),
            n <= i,
        decreases v.len() - i,
    {
        assert(v@.take(i + 1).drop_last() =~= v@.take(i as int));
        if v[i] == c {
            n = n + 1;
        }
        i = i + 1;
    }
    assert(v@.take(v.len() as int) =~= v@);
    n
}

/// What `trim` keeps is a piece of the text: whatever it starts with occurs
/// in the text.
pub proof fn lemma_trim_starts_contains(s: Seq<char>, p: Seq<char>)
    requires
        starts_with(trim(s), p),
    ensures
        contains(s, p),
        find(s, p) is Some,
{
    let a = lemma_trim_start_skip(s);
    let b = lemma_trim_end_take(s.skip(a));
    assert(trim(s) =~= s.subrange(a, a + b));
    assert(s.subrange(a, a + p.len()) =~= trim(s).subrange(0, p.len() as int));
    assert(matches_at(s, p, a));
    lemma_contains_find(s, p);
}

pub proof fn lemma_trim_end_ws_suffix(s: Seq<char>, b: int)
    requires
        0 <= b <= s.len(),
        forall|i: int| b <= i < s.len() ==> is_ws(#[trigger] s[i]),
    ensures
        trim_end(s) == trim_end(s.take(b)),
    decreases s.len() - b,
{
    if b < s.len() {
        assert(s.drop_last().take(b) =~= s.take(b));
        lemma_trim_end_ws_suffix(s.drop_last(), b);
    } else {
        assert(s.take(b) =~= s);
    }
}

/// `trim_start` drops exactly the leading whitespace.
pub proof fn lemma_trim_start_ws(s: Seq<char>) -> (a: int)
    ensures
        0 <= a <= s.len(),
        trim_start(s) == s.skip(a),
        forall|i: int| 0 <= i < a ==> is_ws(#[trigger] s[i]),
        a < s.len() ==> !is_ws(s[a]),
    decreases s.len(),
{
    if s.len() > 0 && is_ws(s[0]) {
        let a1 = lemma_trim_start_ws(s.drop_first());
        assert(s.drop_first().skip(a1) =~= s.skip(a1 + 1));
        assert forall|i: int| 0 <= i < a1 + 1 implies is_ws(#[trigger] s[i]) by {
            if i > 0 {
                assert(s[i] == s.drop_first()[i - 1]);
            }
        }
        a1 + 1
    } else {
        assert(s.skip(0) =~= s);
        0
    }
}

/// Trimming whitespace in front of a text that starts and ends with other
/// characters gives that text.
pub proof fn lemma_trim_ws_prefix_body(indent: Seq<char>, x: Seq<char>)
    requires
        forall|i: int| 0 <= i < indent.len() ==> is_ws(#[trigger] indent[i]),
        x.len() > 0,
        !is_ws(x[0]),
        !is_ws(x.last()),
    ensures
        trim(indent + x) == x,
{
    let s = indent + x;
    assert forall|i: int| 0 <= i < indent.len() implies is_ws(#[trigger] s[i]) by {
        assert(s[i] == indent[i]);
    }
    lemma_trim_start_ws_prefix(s, indent.len() as int);
    assert(s.skip(indent.len() as int) =~= x);
    assert(trim_start(x) == x);
    assert(trim_end(x) == x);
}

/// A `\r` that `lines` strips is whitespace, so trimming does not see it.
pub proof fn lemma_trim_strip_cr(l: Seq<char>)
    ensures
        trim(strip_cr(l)) == trim(l),
{
    if l.len() > 0 && l.last() == '\r' {
        let d = l.drop_last();
        let a = lemma_trim_start_ws(l);
        if a == l.len() {
            assert forall|i: int| 0 <= i < d.len() implies is_ws(#[trigger] d[i]) by {
                assert(d[i] == l[i]);
            }
            lemma_trim_start_ws_prefix(d, d.len() as int);
            assert(d.skip(d.len() as int) =~= Seq::<char>::empty());
            assert(l.skip(a) =~= Seq::<char>::empty());
        } else {
            assert(a < l.len() - 1);
            assert forall|i: int| 0 <= i < a implies is_ws(#[trigger] d[i]) by {
                assert(d[i] == l[i]);
            }
            lemma_trim_start_ws_prefix(d, a);
            let x = l.skip(a);
            assert(d.skip(a) =~= x.drop_last());
            assert(d.skip(a)[0] == l[a]);
            assert(trim_start(d.skip(a)) == d.skip(a));
            assert(x.last() == '\r');
            assert(trim_end(x) == trim_end(x.drop_last()));
        }
    }
}

/// A pattern that does not end in `\r` is found in a line exactly when it
/// is found once a trailing `\r` is dropped.
pub proof fn lemma_contains_strip_cr(l: Seq<char>, p: Seq<char>)
    requires
        p.len() > 0,
        p.last() != '\r',
    ensures
        contains(strip_cr(l), p) == contains(l, p),
{
    if l.len() > 0 && l.last() == '\r' {
        let m = l.drop_last();
        if contains(m, p) {
            let j = choose|j: int| matches_at(m, p, j);
            assert(l.subrange(j, j + p.len()) =~= m.subrange(j, j + p.len()));
            assert(matches_at(l, p, j));
        }
        if contains(l, p) {
            let j = choose|j: int| matches_at(l, p, j);
            if j + p.len() == l.len() {
                assert(l.subrange(j, j + p.len())[p.len() - 1] == l.last());
            }
            assert(m.subrange(j, j + p.len()) =~= l.subrange(j, j + p.len()));
            assert(matches_at(m, p, j));
        }
    }
}

/// Splitting at a character other than `\r` sees a trailing `\r` only in
/// the last piece.
pub proof fn lemma_split_strip_cr(l: Seq<char>, c: char)
    requires
        c != '\r',
    ensures
        split(l, c).len() >= 1,
        split(strip_cr(l), c) == split(l, c).update(split(l, c).len() - 1, strip_cr(split(l, c).last())),
    decreases l.len(),
{
    let m = strip_cr(l);
    lemma_find(l, seq![c]);
    assert forall|j: int| #[trigger] matches_at(m, seq![c], j) implies matches_at(l, seq![c], j) by {
        lemma_single_char_match(m, c, j);
        lemma_single_char_match(l, c, j);
    }
    match find(l, seq![c]) {
        Some(i) => {
            lemma_single_char_match(l, c, i);
            let rest = l.skip(i + 1);
            lemma_split_strip_cr(rest, c);
            assert(split(l, c) == seq![l.take(i)] + split(rest, c));
            if l.len() > 0 && l.last() == '\r' {
                assert(i < l.len() - 1);
                lemma_single_char_match(m, c, i);
                lemma_find_is(m, seq![c], i);
                assert(m.take(i) =~= l.take(i));
                assert(m.skip(i + 1) =~= strip_cr(rest));
                assert(split(m, c) == seq![l.take(i)] + split(strip_cr(rest), c));
            } else {
                assert(m == l);
                assert(strip_cr(rest) == rest);
            }
            assert(split(m, c) =~= split(l, c).update(split(l, c).len() - 1, strip_cr(split(l, c).last())));
        },
        None => {
            lemma_find_none(m, seq![c]);
            assert(split(m, c) =~= split(l, c).update(0, strip_cr(l)));
        },
    }
}

/// No line of a text holds a line break.
pub proof fn lemma_lines_no_newline(s: Seq<char>)
    ensures
        forall|k: int| 0 <= k < lines(s).len() ==> !has_char(#[trigger] lines(s)[k], '\n'),
    decreases s.len(),
{
    if s.len() > 0 {
        lemma_find(s, seq!['\n']);
        match find(s, seq!['\n']) {
            Some(i) => {
                if 0 <= i < s.len() {
                    lemma_lines_no_newline(s.skip(i + 1));
                    let first = strip_cr(s.take(i));
                    assert forall|j: int| 0 <= j < first.len() implies first[j] != '\n' by {
                        lemma_single_char_match(s, '\n', j);
                        assert(first[j] == s[j]);
                    }
                    let l = seq![first] + lines(s.skip(i + 1));
                    assert(lines(s) == l);
                    assert forall|k: int| 0 <= k < l.len() implies !has_char(#[trigger] l[k], '\n') by {
                        if k == 0 {
                            assert(l[0] == first);
                        } else {
                            assert(l[k] == lines(s.skip(i + 1))[k - 1]);
                        }
                    }
                }
            },
            None => {
                assert forall|j: int| 0 <= j < s.len() implies s[j] != '\n' by {
                    lemma_single_char_match(s, '\n', j);
                }
                assert(lines(s) == seq![s]);
            },
        }
    }
}

/// The lines of a text that starts with a line of its own.
pub proof fn lemma_lines_concat(a: Seq<char>, b: Seq<char>)
    requires
        !has_char(a, '\n'),
    ensures
        lines(a + seq!['\n'] + b) == seq![strip_cr(a)] + lines(b),
{
    let s = a + seq!['\n'] + b;
    lemma_find_char_concat(a, '\n', b);
    assert(s.take(a.len() as int) =~= a);
    assert(s.skip(a.len() + 1int) =~= b);
}

/// Where a trimmed line starts with `p` (which starts with a non-blank
/// character), the first `p` of the line follows only whitespace.
pub proof fn lemma_indent(l: Seq<char>, p: Seq<char>)
    requires
        starts_with(trim(l), p),
        p.len() > 0,
        !is_ws(p[0]),
    ensures
        find(l, p) is Some,
        matches_at(l, p, find(l, p).unwrap()),
        forall|i: int| 0 <= i < find(l, p).unwrap() ==> is_ws(#[trigger] l[i]),
{
    let a = lemma_trim_start_ws(l);
    let b = lemma_trim_end_take(l.skip(a));
    assert(trim(l) =~= l.subrange(a, a + b));
    assert(l.subrange(a, a + p.len()) =~= trim(l).subrange(0, p.len() as int));
    assert(matches_at(l, p, a));
    assert forall|j: int| 0 <= j < a implies !matches_at(l, p, j) by {
        if matches_at(l, p, j) {
            assert(l.subrange(j, j + p.len())[0] == l[j]);
        }
    }
    lemma_find_is(l, p, a);
}

/// `trim_end` drops exactly the trailing whitespace.
pub proof fn lemma_trim_end_ws(s: Seq<char>) -> (b: int)
    ensures
        0 <= b <= s.len(),
        trim_end(s) == s.take(b),
        forall|i: int| b <= i < s.len() ==> is_ws(#[trigger] s[i]),
        b > 0 ==> !is_ws(s[b - 1]),
    decreases s.len(),
{
    if s.len() > 0 && is_ws(s.last()) {
        let b1 = lemma_trim_end_ws(s.drop_last());
        assert(s.drop_last().take(b1) =~= s.take(b1));
        assert forall|i: int| b1 <= i < s.len() implies is_ws(#[trigger] s[i]) by {
            if i < s.len() - 1 {
                assert(s[i] == s.drop_last()[i]);
            }
        }
        if b1 > 0 {
            assert(s[b1 - 1] == s.drop_last()[b1 - 1]);
        }
        b1
    } else {
        assert(s.take(s.len() as int) =~= s);
        s.len() as int
    }
}

/// Whitespace at either end does not change what `trim` gives.
pub proof fn lemma_trim_ws_ends(l: Seq<char>, c: char)
    requires
        is_ws(c),
    ensures
        trim(l + seq![c]) == trim(l),
        trim(seq![c] + l) == trim(l),
{
    let t = seq![c] + l;
    lemma_trim_start_ws_prefix(t, 1);
    assert(t.skip(1) =~= l);
    let u = l + seq![c];
    let a = lemma_trim_start_ws(l);
    if a == l.len() {
        assert forall|i: int| 0 <= i < u.len() implies is_ws(#[trigger] u[i]) by {
            if i < l.len() {
                assert(u[i] == l[i]);
            }
        }
        lemma_trim_start_ws_prefix(u, u.len() as int);
        lemma_trim_start_ws_prefix(l, l.len() as int);
        assert(u.skip(u.len() as int) =~= Seq::<char>::empty());
        assert(l.skip(l.len() as int) =~= Seq::<char>::empty());
    } else {
        assert forall|i: int| 0 <= i < a implies is_ws(#[trigger] u[i]) by {
            assert(u[i] == l[i]);
        }
        lemma_trim_start_ws_prefix(u, a);
        let x = l.skip(a);
        assert(u.skip(a) =~= x + seq![c]);
        assert(u.skip(a)[0] == l[a]);
        assert(trim_start(u.skip(a)) == u.skip(a));
        assert((x + seq![c]).drop_last() =~= x);
        assert(trim_end(x + seq![c]) == trim_end(x));
    }
}

/// A piece of a text is inside it.
pub proof fn lemma_contains_sub(s: Seq<char>, a: int, b: int, p: Seq<char>)
    requires
        0 <= a <= b <= s.len(),
        contains(s.subrange(a, b), p),
    ensures
        contains(s, p),
{
    let t = s.subrange(a, b);
    let j = choose|j: int| matches_at(t, p, j);
    assert(s.subrange(a + j, a + j + p.len()) =~= t.subrange(j, j + p.len()));
    assert(matches_at(s, p, a + j));
}

/// The lines of `c`, a line break and more: the pieces of `c` between its
/// line breaks (each without a final `\r`), then the lines of the rest.
pub proof fn lemma_lines_split(c: Seq<char>, t: Seq<char>)
    ensures
        lines(c + seq!['\n'] + t) == split(c, '\n').map_values(|x: Seq<char>| strip_cr(x)) + lines(t),
    decreases c.len(),
{
    lemma_find(c, seq!['\n']);
    match find(c, seq!['\n']) {
        Some(k) => {
            if 0 <= k < c.len() {
                let a = c.take(k);
                let rest = c.skip(k + 1);
                assert forall|j: int| 0 <= j < a.len() implies a[j] != '\n' by {
                    lemma_single_char_match(c, '\n', j);
                }
                assert(!has_char(a, '\n'));
                assert(c =~= a + seq!['\n'] + rest) by {
                    lemma_single_char_match(c, '\n', k);
                }
                lemma_lines_split(rest, t);
                assert(c + seq!['\n'] + t =~= a + seq!['\n'] + (rest + seq!['\n'] + t));
                lemma_lines_concat(a, rest + seq!['\n'] + t);
                assert(split(c, '\n') == seq![a] + split(rest, '\n'));
                assert((seq![a] + split(rest, '\n')).map_values(|x: Seq<char>| strip_cr(x)) =~= seq![strip_cr(a)]
                    + split(rest, '\n').map_values(|x: Seq<char>| strip_cr(x)));
            } else {
                assert(matches_at(c, seq!['\n'], k));
            }
        },
        None => {
            assert forall|j: int| 0 <= j < c.len() implies c[j] != '\n' by {
                lemma_single_char_match(c, '\n', j);
            }
            assert(!has_char(c, '\n'));
            lemma_lines_concat(c, t);
            assert(split(c, '\n') == seq![c]);
            assert(seq![c].map_values(|x: Seq<char>| strip_cr(x)) =~= seq![strip_cr(c)]);
        },
    }
}

/// Each piece of a text between its `c`s lies inside it.
pub proof fn lemma_split_piece_contains(s: Seq<char>, c: char, k: int, p: Seq<char>)
    requires
        0 <= k < split(s, c).len(),
        contains(split(s, c)[k], p),
    ensures
        contains(s, p),
    decreases s.len(),
{
    lemma_find(s, seq![c]);
    match find(s, seq![c]) {
        Some(i) => {
            if 0 <= i < s.len() {
                if k == 0 {
                    assert(split(s, c)[0] == s.take(i));
                    assert(s.take(i) =~= s.subrange(0, i));
                    lemma_contains_sub(s, 0, i, p);
                } else {
                    assert(split(s, c)[k] == split(s.skip(i + 1), c)[k - 1]);
                    lemma_split_piece_contains(s.skip(i + 1), c, k - 1, p);
                    assert(s.skip(i + 1) =~= s.subrange(i + 1, s.len() as int));
                    lemma_contains_sub(s, i + 1, s.len() as int, p);
                }
            } else {
                assert(matches_at(s, seq![c], i));
            }
        },
        None => {
            assert(split(s, c)[k] == s);
        },
    }
}

pub proof fn lemma_has_char_concat(a: Seq<char>, b: Seq<char>, c: char)
    ensures
        has_char(a + b, c) == (has_char(a, c) || has_char(b, c)),
{
    let s = a + b;
    if has_char(s, c) {
        let i = choose|i: int| 0 <= i < s.len() && s[i] == c;
        if i < a.len() {
            assert(a[i] == c);
        } else {
            assert(b[i - a.len()] == c);
        }
    }
    if has_char(a, c) {
        let i = choose|i: int| 0 <= i < a.len() && a[i] == c;
        assert(s[i] == c);
    }
    if has_char(b, c) {
        let i = choose|i: int| 0 <= i < b.len() && b[i] == c;
        assert(s[i + a.len()] == c);
    }
}

pub proof fn lemma_has_char_single(x: char, c: char)
    ensures
        has_char(seq![x], c) == (x == c),
{
    if x == c {
        assert(seq![x][0] == c);
    }
}

/// The first `c` in `a + [c] + b`, when `a` holds no `c`, is right after `a`.
pub proof fn lemma_find_char_concat(a: Seq<char>, c: char, b: Seq<char>)
    requires
        !has_char(a, c),
    ensures
        find(a + seq![c] + b, seq![c]) == Some(a.len() as int),
{
    let s = a + seq![c] + b;
    lemma_single_char_match(s, c, a.len() as int);
    assert forall|j: int| 0 <= j < a.len() implies !matches_at(s, seq![c], j) by {
        lemma_single_char_match(s, c, j);
        assert(s[j] == a[j]);
    }
    lemma_find_is(s, seq![c], a.len() as int);
}

/// A text without `c` holds no match of `[c]`.
pub proof fn lemma_find_char_absent(a: Seq<char>, c: char)
    requires
        !has_char(a, c),
    ensures
        find(a, seq![c]) == None::<int>,
{
    assert forall|j: int| !matches_at(a, seq![c], j) by {
        lemma_single_char_match(a, c, j);
    }
    lemma_find_none(a, seq![c]);
}

pub proof fn lemma_split_absent(a: Seq<char>, c: char)
    requires
        !has_char(a, c),
    ensures
        split(a, c) == seq![a],
{
    lemma_find_char_absent(a, c);
}

pub proof fn lemma_split_concat(a: Seq<char>, c: char, b: Seq<char>)
    requires
        !has_char(a, c),
    ensures
        split(a + seq![c] + b, c) == seq![a] + split(b, c),
{
    let s = a + seq![c] + b;
    lemma_find_char_concat(a, c, b);
    assert(s.take(a.len() as int) =~= a);
    assert(s.skip(a.len() as int + 1) =~= b);
}

pub proof fn lemma_split_once_concat(a: Seq<char>, c: char, b: Seq<char>)
    requires
        !has_char(a, c),
    ensures
        split_once(a + seq![c] + b, c) == Some((a, b)),
{
    let s = a + seq![c] + b;
    lemma_find_char_concat(a, c, b);
    assert(s.take(a.len() as int) =~= a);
    assert(s.skip(a.len() as int + 1) =~= b);
}

pub proof fn lemma_split_once_absent(a: Seq<char>, c: char)
    requires
        !has_char(a, c),
    ensures
        split_once(a, c) == None::<(Seq<char>, Seq<char>)>,
{
    lemma_find_char_absent(a, c);
}

/// Decimal text is made of digits only, and reads back as its value.
pub proof fn lemma_decimal(n: nat)
    ensures
        decimal(n).len() > 0,
        all_digits(decimal(n)),
        digits_value(decimal(n)) == n,
        forall|c: char| !is_digit(c) ==> !has_char(decimal(n), c),
    decreases n,
{
    if n < 10 {
        assert(digits_value(seq![digit_char(n)]) == digits_value(seq![digit_char(n)].drop_last()) * 10
            + (digit_char(n) as nat - '0' as nat) as nat);
        assert(seq![digit_char(n)].drop_last() =~= Seq::<char>::empty());
    } else {
        lemma_decimal(n / 10);
        let d = decimal(n / 10);
        let c = digit_char(n % 10);
        lemma_digits_value_push(d, c);
        assert(decimal(n) == d.push(c));
        assert forall|i: int| 0 <= i < d.push(c).len() implies is_digit(#[trigger] d.push(c)[i]) by {
            if i < d.len() {
                assert(d.push(c)[i] == d[i]);
            }
        }
        assert forall|x: char| !is_digit(x) implies !has_char(decimal(n), x) by {
            if has_char(decimal(n), x) {
                let i = choose|i: int| 0 <= i < decimal(n).len() && decimal(n)[i] == x;
                assert(is_digit(decimal(n)[i]));
            }
        }
    }
}

/// `parse::<u32>` reads back what decimal rendering wrote.
pub proof fn lemma_parse_decimal(n: nat)
    requires
        n <= u32::MAX,
    ensures
        parse_u32(decimal(n)) == Some(n as u32),
{
    lemma_decimal(n);
    assert(is_digit(decimal(n)[0]));
}

pub proof fn lemma_byte_len_mono(s: Seq<char>, i: int, j: int)
    requires
        0 <= i <= j <= s.len(),
    ensures
        byte_len(s.take(i)) + (j - i) <= byte_len(s.take(j)),
    decreases j - i,
{
    if i < j {
        lemma_byte_len_mono(s, i, j - 1);
        assert(s.take(j).drop_last() =~= s.take(j - 1));
    }
}

pub proof fn lemma_char_boundary_unique(s: Seq<char>, b: nat, k: int)
    requires
        0 <= k <= s.len(),
        byte_len(s.take(k)) == b,
    ensures
        char_boundary(s, b) == Some(k),
{
    let k2 = choose|k2: int| 0 <= k2 <= s.len() && byte_len(s.take(k2)) == b;
    if k2 < k {
        lemma_byte_len_mono(s, k2, k);
    } else if k < k2 {
        lemma_byte_len_mono(s, k, k2);
    }
}

// ───────────────────────────── trusted std calls ─────────────────────────────

/// Appends one character to a string.
///
/// Trusted: `String::push`, which the standard library documents as appending
/// the given `char` to the end of the string.
#[verifier::external_body]
pub(crate) fn push_char(s: &mut String, c: char)
    ensures
        final(s)@ == old(s)@.push(c),
{
    s.push(c);
}

/// What `str::to_lowercase` returns: the lowercase mapping of every character
/// under Unicode's rules (a function of the string alone).
pub uninterp spec fn lowercase(s: Seq<char>) -> Seq<char>;

/// Whether every character is ASCII.
pub open spec fn all_ascii(s: Seq<char>) -> bool {
    forall|i: int| 0 <= i < s.len() ==> (s[i] as u32) < 128
}

/// The lowercase of an ASCII character: `A` to `Z` become `a` to `z`, every
/// other character stays.
pub open spec fn ascii_lower(c: char) -> char {
    if 'A' <= c && c <= 'Z' {
        ((c as u32) + 32) as char
    } else {
        c
    }
}

/// Trusted: `str::to_lowercase`. Its result is named `lowercase`; of the
/// Unicode case tables only the ASCII part is stated: a text of ASCII
/// characters is lowercased character by character, `A` to `Z` becoming
/// `a` to `z` and every other ASCII character staying as it is.
#[verifier::external_body]
pub(crate) fn to_lowercase(s: &str) -> (r: String)
    ensures
        r@ == lowercase(s@),
        all_ascii(s@) ==> r@ == s@.map_values(|c: char| ascii_lower(c)),
{
    s.to_lowercase()
}

// ───────────────────────────── executable helpers ─────────────────────────────

/// The characters of `s`, in order.
pub fn chars_of(s: &str) -> (v: Vec<char>)
    ensures
        v@ == s@,
{
    let mut v: Vec<char> = Vec::new();
    for c in it: s.chars()
        invariant
            v@ == it.seq().take(it.index() as int),
    {
        v.push(c);
    }
    v
}

/// The string made of the given characters.
pub fn string_of(v: &[char]) -> (s: String)
    ensures
        s@ == v@,
{
    let mut s = String::new();
    let mut i: usize = 0;
    while i < v.len()
        invariant
            i <= v.len(),
            s@ == v@.take(i as int),
        decreases v.len() - i,
    {
        push_char(&mut s, v[i]);
        assert(v@.take(i as int).push(v@[i as int]) =~= v@.take(i + 1));
        i = i + 1;
    }
    assert(v@.take(v.len() as int) =~= v@);
    s
}

/// `v[a..b]` as a new vector.
pub fn slice_of(v: &[char], a: usize, b: usize) -> (r: Vec<char>)
    requires
        a <= b <= v.len(),
    ensures
        r@ == v@.subrange(a as int, b as int),
{
    let mut r: Vec<char> = Vec::new();
    let mut i = a;
    while i < b
        invariant
            a <= i <= b,
            b <= v.len(),
            r@ == v@.subrange(a as int, i as int),
        decreases b - i,
    {
        r.push(v[i]);
        assert(v@.subrange(a as int, i as int).push(v@[i as int]) =~= v@.subrange(a as int, i + 1));
        i = i + 1;
    }
    r
}

/// Appends `w` to `v`.
pub fn append(v: &mut Vec<char>, w: &[char])
    ensures
        final(v)@ == old(v)@ + w@,
{
    let mut i: usize = 0;
    let ghost v0 = v@;
    while i < w.len()
        invariant
            i <= w.len(),
            v@ == v0 + w@.take(i as int),
        decreases w.len() - i,
    {
        v.push(w[i]);
        assert(v0 + w@.take(i as int).push(w@[i as int]) =~= v0 + w@.take(i + 1));
        i = i + 1;
    }
    assert(w@.take(w.len() as int) =~= w@);
}

/// Appends the characters of `s` to `v`.
pub fn append_str(v: &mut Vec<char>, s: &str)
    ensures
        final(v)@ == old(v)@ + s@,
{
    let w = chars_of(s);
    append(v, &w);
}

/// `v` starts with `p` at index `i`.
pub fn matches_at_exec(v: &[char], p: &[char], i: usize) -> (r: bool)
    ensures
        r == matches_at(v@, p@, i as int),
{
    if i > v.len() || p.len() > v.len() - i {
        return false;
    }
    let mut k: usize = 0;
    while k < p.len()
        invariant
            k <= p.len(),
            i + p.len() <= v.len(),
            forall|j: int| 0 <= j < k ==> v@[i + j] == p@[j],
        decreases p.len() - k,
    {
        if v[i + k] != p[k] {
            assert(v@.subrange(i as int, i + p.len())[k as int] != p@[k as int]);
            return false;
        }
        k = k + 1;
    }
    assert(v@.subrange(i as int, i + p.len()) =~= p@);
    true
}

pub fn starts_with_exec(v: &[char], p: &[char]) -> (r: bool)
    ensures
        r == starts_with(v@, p@),
{
    matches_at_exec(v, p, 0)
}

pub fn ends_with_exec(v: &[char], p: &[char]) -> (r: bool)
    ensures
        r == ends_with(v@, p@),
{
    if p.len() > v.len() {
        false
    } else {
        matches_at_exec(v, p, v.len() - p.len())
    }
}

/// First index at which `p` occurs in `v` (`str::find`).
pub fn find_exec(v: &[char], p: &[char]) -> (r: Option<usize>)
    ensures
        match r {
            Some(i) => find(v@, p@) == Some(i as int),
            None => find(v@, p@) == None::<int>,
        },
{
    let mut i: usize = 0;
    while i < v.len()
        invariant
            i <= v.len(),
            forall|j: int| 0 <= j < i ==> !matches_at(v@, p@, j),
        decreases v.len() - i,
    {
        if matches_at_exec(v, p, i) {
            proof {
                lemma_find_is(v@, p@, i as int);
            }
            return Some(i);
        }
        i = i + 1;
    }
    if matches_at_exec(v, p, i) {
        proof {
            lemma_find_is(v@, p@, i as int);
        }
        return Some(i);
    }
    proof {
        assert forall|j: int| !matches_at(v@, p@, j) by {
            if j > v.len() {
                assert(!(j + p@.len() <= v@.len()));
            }
        }
        lemma_find_none(v@, p@);
    }
    None
}

/// The part of `v` before the first occurrence of `p` (all of `v` when
/// `p` does not occur).
pub fn prefix_before(v: &[char], p: &[char]) -> (r: Vec<char>)
    ensures
        r@ == (match find(v@, p@) {
            Some(j) => v@.take(j),
            None => v@,
        }),
{
    match find_exec(v, p) {
        Some(j) => {
            proof {
                lemma_find(v@, p@);
            }
            let r = slice_of(v, 0, j);
            assert(r@ =~= v@.take(j as int));
            r
        },
        None => slice_of(v, 0, v.len()),
    }
}

/// First index of `c` in `v`.
pub fn find_char_exec(v: &[char], c: char) -> (r: Option<usize>)
    ensures
        match r {
            Some(i) => find(v@, seq![c]) == Some(i as int) && i < v.len() && v@[i as int] == c
                && forall|j: int| 0 <= j < i ==> v@[j] != c,
            None => find(v@, seq![c]) == None::<int> && !has_char(v@, c),
        },
{
    let mut i: usize = 0;
    while i < v.len()
        invariant
            i <= v.len(),
            forall|j: int| 0 <= j < i ==> v@[j] != c,
        decreases v.len() - i,
    {
        if v[i] == c {
            proof {
                lemma_single_char_match(v@, c, i as int);
                assert forall|j: int| 0 <= j < i implies !matches_at(v@, seq![c], j) by {
                    lemma_single_char_match(v@, c, j);
                }
                lemma_find_is(v@, seq![c], i as int);
            }
            return Some(i);
        }
        i = i + 1;
    }
    proof {
        assert forall|j: int| !matches_at(v@, seq![c], j) by {
            lemma_single_char_match(v@, c, j);
        }
        lemma_find_none(v@, seq![c]);
    }
    None
}

/// `str::contains` with a string pattern.
pub fn contains_exec(v: &[char], p: &[char]) -> (r: bool)
    ensures
        r == contains(v@, p@),
{
    let f = find_exec(v, p);
    proof {
        lemma_contains_find(v@, p@);
    }
    f.is_some()
}

pub fn has_char_exec(v: &[char], c: char) -> (r: bool)
    ensures
        r == has_char(v@, c),
{
    let f = find_char_exec(v, c);
    f.is_some()
}

/// `str::trim`.
pub fn trim_exec(v: &[char]) -> (r: Vec<char>)
    ensures
        r@ == trim(v@),
{
    let mut a: usize = 0;
    while a < v.len() && is_ws_exec(v[a])
        invariant
            a <= v.len(),
            forall|i: int| 0 <= i < a ==> is_ws(#[trigger] v@[i]),
        decreases v.len() - a,
    {
        a = a + 1;
    }
    let ghost t = v@.skip(a as int);
    proof {
        lemma_trim_start_ws_prefix(v@, a as int);
        if t.len() > 0 {
            assert(t[0] == v@[a as int]);
        }
        assert(trim_start(t) == t);
    }
    let mut b: usize = v.len();
    while b > a && is_ws_exec(v[b - 1])
        invariant
            a <= b <= v.len(),
            forall|i: int| b <= i < v.len() ==> is_ws(#[trigger] v@[i]),
        decreases b,
    {
        b = b - 1;
    }
    proof {
        let bb = b - a;
        assert forall|i: int| bb <= i < t.len() implies is_ws(#[trigger] t[i]) by {
            assert(t[i] == v@[i + a]);
        }
        lemma_trim_end_ws_suffix(t, bb as int);
        let u = t.take(bb as int);
        assert(u =~= v@.subrange(a as int, b as int));
        if u.len() > 0 {
            assert(u.last() == v@[b - 1]);
        }
    }
    slice_of(v, a, b)
}

pub fn is_ws_exec(c: char) -> (r: bool)
    ensures
        r == is_ws(c),
{
    c == '\t' || c == '\n' || c == '\x0B' || c == '\x0C' || c == '\r' || c == ' ' || c == '\u{85}'
        || c == '\u{A0}' || c == '\u{1680}' || ('\u{2000}' <= c && c <= '\u{200A}') || c
        == '\u{2028}' || c == '\u{2029}' || c == '\u{202F}' || c == '\u{205F}' || c == '\u{3000}'
}

pub fn is_digit_exec(c: char) -> (r: bool)
    ensures
        r == is_digit(c),
{
    '0' <= c && c <= '9'
}


/// The views of a vector of character vectors.
pub open spec fn views(r: Seq<Vec<char>>) -> Seq<Seq<char>> {
    r.map_values(|x: Vec<char>| x@)
}

pub proof fn lemma_views_push(r: Seq<Vec<char>>, x: Vec<char>)
    ensures
        views(r.push(x)) == views(r).push(x@),
{
    assert(views(r.push(x)) =~= views(r).push(x@));
}

pub proof fn lemma_word_len(s: Seq<char>, k: int)
    requires
        0 <= k <= s.len(),
        forall|i: int| 0 <= i < k ==> !is_ws(#[trigger] s[i]),
        k == s.len() || is_ws(s[k]),
    ensures
        word_len(s) == k,
    decreases k,
{
    if k > 0 {
        let t = s.drop_first();
        assert forall|i: int| 0 <= i < k - 1 implies !is_ws(#[trigger] t[i]) by {
            assert(t[i] == s[i + 1]);
        }
        if k < s.len() {
            assert(t[k - 1] == s[k]);
        }
        lemma_word_len(t, k - 1);
    }
}

/// `s` without a final `\r`.
pub fn strip_cr_exec(v: &[char]) -> (r: Vec<char>)
    ensures
        r@ == strip_cr(v@),
{
    if v.len() > 0 && v[v.len() - 1] == '\r' {
        slice_of(v, 0, v.len() - 1)
    } else {
        slice_of(v, 0, v.len())
    }
}

/// The first index at or after `a` where `v` holds `c`, found in place.
pub fn find_char_from(v: &[char], a: usize, c: char) -> (r: Option<usize>)
    requires
        a <= v.len(),
    ensures
        match r {
            Some(k) => a <= k < v.len() && find(v@.skip(a as int), seq![c]) == Some(k - a),
            None => find(v@.skip(a as int), seq![c]) == None::<int>,
        },
{
    let ghost rest = v@.skip(a as int);
    let mut i: usize = a;
    while i < v.len()
        invariant
            a <= i <= v.len(),
            rest == v@.skip(a as int),
            forall|j: int| 0 <= j < i - a ==> rest[j] != c,
        decreases v.len() - i,
    {
        if v[i] == c {
            proof {
                lemma_single_char_match(rest, c, i - a);
                assert forall|j: int| 0 <= j < i - a implies !matches_at(rest, seq![c], j) by {
                    lemma_single_char_match(rest, c, j);
                }
                lemma_find_is(rest, seq![c], i - a);
            }
            return Some(i);
        }
        i = i + 1;
    }
    proof {
        assert forall|j: int| !matches_at(rest, seq![c], j) by {
            lemma_single_char_match(rest, c, j);
        }
        lemma_find_none(rest, seq![c]);
    }
    None
}

/// `str::lines`.
pub fn lines_exec(v: &[char]) -> (r: Vec<Vec<char>>)
    ensures
        views(r@) == lines(v@),
{
    let mut r: Vec<Vec<char>> = Vec::new();
    let mut a: usize = 0;
    proof {
        assert(v@.skip(0) =~= v@);
        assert(views(r@) =~= Seq::<Seq<char>>::empty());
    }
    while a < v.len()
        invariant
            a <= v.len(),
            lines(v@) == views(r@) + lines(v@.skip(a as int)),
        decreases v.len() - a,
    {
        let ghost rest = v@.skip(a as int);
        match find_char_from(v, a, '\n') {
            Some(k) => {
                let line = slice_of(v, a, k);
                let line = strip_cr_exec(&line);
                let ghost old_r = r@;
                r.push(line);
                proof {
                    lemma_views_push(old_r, line);
                    assert(rest.take(k - a) =~= v@.subrange(a as int, k as int));
                    assert(rest.skip(k - a + 1) =~= v@.skip(k + 1));
                    assert(views(old_r) + lines(rest) =~= views(r@) + lines(v@.skip(k + 1)));
                }
                a = k + 1;
            },
            None => {
                let tail = slice_of(v, a, v.len());
                assert(tail@ =~= rest);
                let ghost old_r = r@;
                r.push(tail);
                proof {
                    lemma_views_push(old_r, tail);
                    assert(v@.skip(v.len() as int) =~= Seq::<char>::empty());
                    assert(views(old_r) + lines(rest) =~= views(r@) + lines(
                        v@.skip(v.len() as int),
                    ));
                }
                a = v.len();
            },
        }
    }
    proof {
        assert(v@.skip(a as int) =~= Seq::<char>::empty());
        assert(views(r@) + lines(v@.skip(a as int)) =~= views(r@));
    }
    r
}

/// `str::split` with a `char` separator.
pub fn split_exec(v: &[char], c: char) -> (r: Vec<Vec<char>>)
    ensures
        views(r@) == split(v@, c),
{
    let mut r: Vec<Vec<char>> = Vec::new();
    let mut a: usize = 0;
    proof {
        assert(v@.skip(0) =~= v@);
        assert(views(r@) =~= Seq::<Seq<char>>::empty());
    }
    loop
        invariant
            a <= v.len(),
            split(v@, c) == views(r@) + split(v@.skip(a as int), c),
        decreases v.len() - a,
    {
        let ghost rest = v@.skip(a as int);
        match find_char_from(v, a, c) {
            Some(k) => {
                let part = slice_of(v, a, k);
                let ghost old_r = r@;
                r.push(part);
                proof {
                    lemma_views_push(old_r, part);
                    assert(rest.take(k - a) =~= v@.subrange(a as int, k as int));
                    assert(rest.skip(k - a + 1) =~= v@.skip(k + 1));
                    assert(views(old_r) + split(rest, c) =~= views(r@) + split(v@.skip(k + 1), c));
                }
                a = k + 1;
            },
            None => {
                let tail = slice_of(v, a, v.len());
                assert(tail@ =~= rest);
                let ghost old_r = r@;
                r.push(tail);
                proof {
                    lemma_views_push(old_r, tail);
                    assert(views(old_r) + split(rest, c) =~= views(r@));
                }
                return r;
            },
        }
    }
}

/// `str::split_whitespace`.
pub fn words_exec(v: &[char]) -> (r: Vec<Vec<char>>)
    ensures
        views(r@) == words(v@),
{
    let mut r: Vec<Vec<char>> = Vec::new();
    let mut a: usize = 0;
    proof {
        assert(v@.skip(0) =~= v@);
        assert(views(r@) =~= Seq::<Seq<char>>::empty());
    }
    while a < v.len()
        invariant
            a <= v.len(),
            words(v@) == views(r@) + words(v@.skip(a as int)),
        decreases v.len() - a,
    {
        let ghost t = v@.skip(a as int);
        if is_ws_exec(v[a]) {
            proof {
                assert(t.drop_first() =~= v@.skip(a + 1));
            }
            a = a + 1;
        } else {
            let mut k: usize = a;
            while k < v.len() && !is_ws_exec(v[k])
                invariant
                    a <= k <= v.len(),
                    forall|i: int| a <= i < k ==> !is_ws(#[trigger] v@[i]),
                decreases v.len() - k,
            {
                k = k + 1;
            }
            let w = slice_of(v, a, k);
            let ghost old_r = r@;
            r.push(w);
            proof {
                assert forall|i: int| 0 <= i < k - a implies !is_ws(#[trigger] t[i]) by {
                    assert(t[i] == v@[a + i]);
                }
                if k < v.len() {
                    assert(t[k - a] == v@[k as int]);
                }
                lemma_word_len(t, k - a);
                lemma_views_push(old_r, w);
                assert(t.take(k - a) =~= w@);
                assert(t.skip(k - a) =~= v@.skip(k as int));
                assert(views(old_r) + words(t) =~= views(r@) + words(v@.skip(k as int)));
            }
            a = k;
        }
    }
    proof {
        assert(v@.skip(a as int) =~= Seq::<char>::empty());
        assert(views(r@) + words(v@.skip(a as int)) =~= views(r@));
    }
    r
}

/// `str::parse::<u32>`.
pub fn parse_u32_exec(v: &[char]) -> (r: Option<u32>)
    ensures
        r == parse_u32(v@),
{
    let start: usize = if v.len() > 0 && v[0] == '+' { 1 } else { 0 };
    let ghost d = if v@.len() > 0 && v@[0] == '+' { v@.drop_first() } else { v@ };
    assert(d =~= v@.skip(start as int));
    if start >= v.len() {
        return None;
    }
    let mut acc: u64 = 0;
    let mut i: usize = start;
    while i < v.len()
        invariant
            start <= i <= v.len(),
            d =~= v@.skip(start as int),
            d == (if v@.len() > 0 && v@[0] == '+' { v@.drop_first() } else { v@ }),
            d.len() > 0,
            all_digits(d.take(i - start)),
            acc == digits_value(d.take(i - start)),
            acc <= u32::MAX,
        decreases v.len() - i,
    {
        let c = v[i];
        if !is_digit_exec(c) {
            proof {
                assert(d[i - start] == c);
                assert(!all_digits(d));
            }
            return None;
        }
        let dv: u64 = (c as u32 - '0' as u32) as u64;
        proof {
            assert(d.take(i - start).push(c) =~= d.take(i + 1 - start));
            lemma_digits_value_push(d.take(i - start), c);
        }
        acc = acc * 10 + dv;
        if acc > 4294967295 {
            proof {
                lemma_digits_value_prefix_monotone(d, i + 1 - start);
            }
            return None;
        }
        i = i + 1;
    }
    assert(d.take(i - start) =~= d);
    Some(acc as u32)
}

/// `str::parse::<usize>`: an optional `+`, then one or more ASCII digits
/// whose value fits in a `usize`.
pub open spec fn parse_usize(s: Seq<char>) -> Option<usize> {
    let d = if s.len() > 0 && s[0] == '+' { s.drop_first() } else { s };
    if d.len() > 0 && all_digits(d) && digits_value(d) <= usize::MAX {
        Some(digits_value(d) as usize)
    } else {
        None
    }
}

pub fn parse_usize_exec(v: &[char]) -> (r: Option<usize>)
    ensures
        r == parse_usize(v@),
{
    let start: usize = if v.len() > 0 && v[0] == '+' { 1 } else { 0 };
    let ghost d = if v@.len() > 0 && v@[0] == '+' { v@.drop_first() } else { v@ };
    assert(d =~= v@.skip(start as int));
    if start >= v.len() {
        return None;
    }
    let mut acc: usize = 0;
    let mut i: usize = start;
    while i < v.len()
        invariant
            start <= i <= v.len(),
            d =~= v@.skip(start as int),
            d == (if v@.len() > 0 && v@[0] == '+' { v@.drop_first() } else { v@ }),
            d.len() > 0,
            all_digits(d.take(i - start)),
            acc == digits_value(d.take(i - start)),
        decreases v.len() - i,
    {
        let c = v[i];
        if !is_digit_exec(c) {
            proof {
                assert(d[i - start] == c);
                assert(!all_digits(d));
            }
            return None;
        }
        let dv: usize = (c as u32 - '0' as u32) as usize;
        proof {
            assert(d.take(i - start).push(c) =~= d.take(i + 1 - start));
            lemma_digits_value_push(d.take(i - start), c);
        }
        if acc > (usize::MAX - dv) / 10 {
            proof {
                assert(acc * 10 + dv > usize::MAX) by (nonlinear_arith)
                    requires
                        acc > (usize::MAX - dv) / 10,
                        dv <= 9,
                ;
                lemma_digits_value_prefix_monotone(d, i + 1 - start);
            }
            return None;
        }
        proof {
            assert(acc * 10 + dv <= usize::MAX) by (nonlinear_arith)
                requires
                    acc <= (usize::MAX - dv) / 10,
                    dv <= 9,
            ;
        }
        acc = acc * 10 + dv;
        i = i + 1;
    }
    assert(d.take(i - start) =~= d);
    Some(acc)
}

/// The value of a digit string is at least the value of any prefix.
pub proof fn lemma_digits_value_prefix_monotone(d: Seq<char>, k: int)
    requires
        0 <= k <= d.len(),
    ensures
        all_digits(d) ==> digits_value(d.take(k)) <= digits_value(d),
    decreases d.len() - k,
{
    if k < d.len() && all_digits(d) {
        lemma_digits_value_prefix_monotone(d, k + 1);
        assert(d.take(k + 1).drop_last() =~= d.take(k));
        assert(is_digit(d[k]));
    } else if k == d.len() {
        assert(d.take(k) =~= d);
    }
}

/// Decimal rendering of `n`.
pub fn decimal_exec(n: u64) -> (r: Vec<char>)
    ensures
        r@ == decimal(n as nat),
    decreases n,
{
    if n < 10 {
        let mut r: Vec<char> = Vec::new();
        r.push(digit_char_exec(n));
        assert(r@ =~= seq![digit_char(n as nat)]);
        r
    } else {
        let mut r = decimal_exec(n / 10);
        r.push(digit_char_exec(n % 10));
        r
    }
}

pub fn digit_char_exec(d: u64) -> (c: char)
    ensures
        c == digit_char(d as nat),
{
    if d == 0 { '0' }
    else if d == 1 { '1' }
    else if d == 2 { '2' }
    else if d == 3 { '3' }
    else if d == 4 { '4' }
    else if d == 5 { '5' }
    else if d == 6 { '6' }
    else if d == 7 { '7' }
    else if d == 8 { '8' }
    else { '9' }
}

pub fn utf8_len_exec(c: char) -> (n: u64)
    ensures
        n == utf8_len(c),
{
    let u = c as u32;
    if u < 0x80 {
        1
    } else if u < 0x800 {
        2
    } else if u < 0x10000 {
        3
    } else {
        4
    }
}

/// The character index at byte offset `b` of `v`, when that offset is a
/// character boundary.
pub fn char_boundary_exec(v: &[char], b: u64) -> (r: Option<usize>)
    ensures
        match r {
            Some(k) => char_boundary(v@, b as nat) == Some(k as int),
            None => char_boundary(v@, b as nat) == None::<int>,
        },
{
    let mut k: usize = 0;
    let mut acc: u128 = 0;
    assert(v@.take(0) =~= Seq::<char>::empty());
    while k < v.len() && acc < b as u128
        invariant
            k <= v.len(),
            acc == byte_len(v@.take(k as int)),
            acc <= b as u128 + 4,
            forall|j: int| 0 <= j < k ==> byte_len(v@.take(j)) < b,
        decreases v.len() - k,
    {
        assert(v@.take(k + 1).drop_last() =~= v@.take(k as int));
        acc = acc + utf8_len_exec(v[k]) as u128;
        k = k + 1;
    }
    if acc == b as u128 {
        proof {
            lemma_char_boundary_unique(v@, b as nat, k as int);
        }
        Some(k)
    } else {
        proof {
            assert forall|j: int| 0 <= j <= v@.len() implies byte_len(v@.take(j)) != b by {
                if j > k {
                    lemma_byte_len_mono(v@, k as int, j);
                } else if j < k {
                }
            }
        }
        None
    }
}

pub fn trim_leading_exec(v: &[char], c: char) -> (r: Vec<char>)
    ensures
        r@ == trim_leading(v@, c),
{
    let mut a: usize = 0;
    assert(v@.skip(0) =~= v@);
    while a < v.len() && v[a] == c
        invariant
            a <= v.len(),
            trim_leading(v@, c) == trim_leading(v@.skip(a as int), c),
        decreases v.len() - a,
    {
        assert(v@.skip(a as int).drop_first() =~= v@.skip(a + 1));
        a = a + 1;
    }
    let r = slice_of(v, a, v.len());
    assert(r@ =~= v@.skip(a as int));
    r
}

} // verus!
