//! Character and line arithmetic over script text.
//!
//! All positions are character offsets (not bytes).  A line break is the
//! character `'\n'`; line `k` runs from its start offset up to and
//! including its break, and a text whose last character is a break has no
//! line after it.

use vstd::prelude::*;

verus! {

/// Whitespace for the purposes of trimming a statement slice and of
/// blank-line tests: the characters with the Unicode white-space
/// property, as the editor's own trimming treats them.
pub open spec fn is_ws_char(c: char) -> bool {
    c == ' ' || c == '\t' || c == '\n' || c == '\r' || c == '\u{b}' || c == '\u{c}' || c
        == '\u{85}' || c == '\u{a0}' || c == '\u{1680}' || c == '\u{2000}' || c == '\u{2001}' || c
        == '\u{2002}' || c == '\u{2003}' || c == '\u{2004}' || c == '\u{2005}' || c == '\u{2006}'
        || c == '\u{2007}' || c == '\u{2008}' || c == '\u{2009}' || c == '\u{200a}' || c
        == '\u{2028}' || c == '\u{2029}' || c == '\u{202f}' || c == '\u{205f}' || c == '\u{3000}'
}

pub fn is_ws_char_exec(c: char) -> (r: bool)
    ensures
        r == is_ws_char(c),
{
    c == ' ' || c == '\t' || c == '\n' || c == '\r' || c == '\u{b}' || c == '\u{c}' || c
        == '\u{85}' || c == '\u{a0}' || c == '\u{1680}' || c == '\u{2000}' || c == '\u{2001}' || c
        == '\u{2002}' || c == '\u{2003}' || c == '\u{2004}' || c == '\u{2005}' || c == '\u{2006}'
        || c == '\u{2007}' || c == '\u{2008}' || c == '\u{2009}' || c == '\u{200a}' || c
        == '\u{2028}' || c == '\u{2029}' || c == '\u{202f}' || c == '\u{205f}' || c == '\u{3000}'
}

/// Offset of the first line break at or after `from`, or the length of
/// the text if there is none.
pub open spec fn nl_after(s: Seq<char>, from: int) -> int
    decreases s.len() - from,
{
    if from >= s.len() {
        s.len() as int
    } else if s[from] == '\n' {
        from
    } else {
        nl_after(s, from + 1)
    }
}

pub proof fn lemma_nl_after(s: Seq<char>, from: int)
    requires
        0 <= from <= s.len(),
    ensures
        from <= nl_after(s, from) <= s.len(),
        nl_after(s, from) < s.len() ==> s[nl_after(s, from)] == '\n',
        forall|j: int| from <= j < nl_after(s, from) ==> s[j] != '\n',
    decreases s.len() - from,
{
    if from < s.len() && s[from] != '\n' {
        lemma_nl_after(s, from + 1);
    }
}

pub fn find_nl_after(text: &str, from: usize) -> (r: usize)
    requires
        from <= text@.len(),
    ensures
        r as int == nl_after(text@, from as int),
{
    let n = text.unicode_len();
    let mut i = from;
    while i < n
        invariant
            from <= i <= n,
            n == text@.len(),
            nl_after(text@, from as int) == nl_after(text@, i as int),
        decreases n - i,
    {
        if text.get_char(i) == '\n' {
            return i;
        }
        i += 1;
    }
    n
}

/// Start offset of the line holding position `at`: one past the last
/// break before `at`, or the start of the text.
pub open spec fn line_start_of(s: Seq<char>, at: int) -> int
    decreases at,
{
    if at <= 0 {
        0
    } else if s[at - 1] == '\n' {
        at
    } else {
        line_start_of(s, at - 1)
    }
}

pub proof fn lemma_line_start_of(s: Seq<char>, at: int)
    requires
        0 <= at <= s.len(),
    ensures
        0 <= line_start_of(s, at) <= at,
        line_start_of(s, at) > 0 ==> s[line_start_of(s, at) - 1] == '\n',
        forall|j: int| line_start_of(s, at) <= j < at ==> s[j] != '\n',
    decreases at,
{
    if at > 0 && s[at - 1] != '\n' {
        lemma_line_start_of(s, at - 1);
    }
}

pub fn find_line_start(text: &str, at: usize) -> (r: usize)
    requires
        at <= text@.len(),
    ensures
        r as int == line_start_of(text@, at as int),
{
    let mut i = at;
    while i > 0
        invariant
            i <= at <= text@.len(),
            line_start_of(text@, at as int) == line_start_of(text@, i as int),
        decreases i,
    {
        if text.get_char(i - 1) == '\n' {
            return i;
        }
        i -= 1;
    }
    0
}

/// Offset of the first non-whitespace character at or after `from`, or
/// the length of the text.
pub open spec fn non_ws_after(s: Seq<char>, from: int) -> int
    decreases s.len() - from,
{
    if from >= s.len() {
        s.len() as int
    } else if !is_ws_char(s[from]) {
        from
    } else {
        non_ws_after(s, from + 1)
    }
}

/// One past the last non-whitespace character before `upto`, or the
/// start of the text.
pub open spec fn non_ws_before(s: Seq<char>, upto: int) -> int
    decreases upto,
{
    if upto <= 0 {
        0
    } else if !is_ws_char(s[upto - 1]) {
        upto
    } else {
        non_ws_before(s, upto - 1)
    }
}

/// The text with leading and trailing whitespace removed.
pub open spec fn spec_trim(s: Seq<char>) -> Seq<char> {
    let a = non_ws_after(s, 0);
    let b = non_ws_before(s, s.len() as int);
    if a >= b {
        Seq::empty()
    } else {
        s.subrange(a, b)
    }
}

pub fn scan_non_ws(text: &str, from: usize) -> (r: usize)
    requires
        from <= text@.len(),
    ensures
        r as int == non_ws_after(text@, from as int),
        r <= text@.len(),
{
    let n = text.unicode_len();
    let mut i = from;
    while i < n
        invariant
            from <= i <= n,
            n == text@.len(),
            non_ws_after(text@, from as int) == non_ws_after(text@, i as int),
        decreases n - i,
    {
        if !is_ws_char_exec(text.get_char(i)) {
            return i;
        }
        i += 1;
    }
    n
}

fn scan_non_ws_back(text: &str, upto: usize) -> (r: usize)
    requires
        upto <= text@.len(),
    ensures
        r as int == non_ws_before(text@, upto as int),
        r <= upto,
{
    let mut i = upto;
    while i > 0
        invariant
            i <= upto <= text@.len(),
            non_ws_before(text@, upto as int) == non_ws_before(text@, i as int),
        decreases i,
    {
        if !is_ws_char_exec(text.get_char(i - 1)) {
            return i;
        }
        i -= 1;
    }
    0
}

/// The slice of the text with leading and trailing whitespace removed.
pub fn trim_str<'a>(text: &'a str) -> (r: &'a str)
    ensures
        r@ == spec_trim(text@),
{
    let n = text.unicode_len();
    let lo = scan_non_ws(text, 0);
    let hi = scan_non_ws_back(text, n);
    if lo >= hi {
        let r = text.substring_char(0, 0);
        proof {
            assert(r@ =~= spec_trim(text@));
        }
        r
    } else {
        text.substring_char(lo, hi)
    }
}

/// Start offsets of every line at or after offset `p`, where `p` is
/// itself the start of a line.
pub open spec fn starts_from(s: Seq<char>, p: int) -> Seq<int>
    decreases s.len() - p,
    via starts_from_dec
{
    if p < 0 || p >= s.len() {
        Seq::empty()
    } else {
        let j = nl_after(s, p);
        if j + 1 >= s.len() {
            seq![p]
        } else {
            seq![p] + starts_from(s, j + 1)
        }
    }
}

#[via_fn]
proof fn starts_from_dec(s: Seq<char>, p: int) {
    if 0 <= p < s.len() {
        lemma_nl_after(s, p);
    }
}

/// Start offsets of every line of the text.
pub open spec fn line_starts_of(s: Seq<char>) -> Seq<int> {
    starts_from(s, 0)
}

/// Number of lines of the text.
pub open spec fn line_count(s: Seq<char>) -> int {
    line_starts_of(s).len() as int
}

/// Start offset of line `k`, or the length of the text for `k` at or
/// past the last line.
pub open spec fn line_start(s: Seq<char>, k: int) -> int {
    if 0 <= k < line_count(s) {
        line_starts_of(s)[k]
    } else {
        s.len() as int
    }
}

/// Basic shape of the line-start table: starts are strictly increasing
/// offsets into the text, the first is the start of the text, and each
/// next one sits one past the break that ends the line before it.
pub proof fn lemma_starts_from(s: Seq<char>, p: int)
    requires
        0 <= p <= s.len(),
    ensures
        p >= s.len() ==> starts_from(s, p).len() == 0,
        p < s.len() ==> starts_from(s, p).len() >= 1 && starts_from(s, p)[0] == p,
        forall|i: int|
            0 <= i < starts_from(s, p).len() ==> p <= #[trigger] starts_from(s, p)[i] < s.len(),
        forall|i: int|
            0 <= i < starts_from(s, p).len() - 1 ==> #[trigger] starts_from(s, p)[i + 1]
                == nl_after(s, starts_from(s, p)[i]) + 1,
        starts_from(s, p).len() >= 1 ==> nl_after(s, starts_from(s, p).last()) + 1 >= s.len(),
    decreases s.len() - p,
{
    if 0 <= p < s.len() {
        lemma_nl_after(s, p);
        let j = nl_after(s, p);
        if j + 1 < s.len() {
            lemma_starts_from(s, j + 1);
            let rest = starts_from(s, j + 1);
            let whole = starts_from(s, p);
            assert(whole == seq![p] + rest);
            assert(whole[0] == p);
            assert forall|i: int| 0 <= i < whole.len() implies p <= #[trigger] whole[i] < s.len() by {
                if i > 0 {
                    assert(whole[i] == rest[i - 1]);
                }
            }
            assert forall|i: int| 0 <= i < whole.len() - 1 implies #[trigger] whole[i + 1]
                == nl_after(s, whole[i]) + 1 by {
                if i == 0 {
                    assert(whole[1] == rest[0]);
                    assert(rest[0] == j + 1);
                    assert(nl_after(s, whole[0]) == j);
                } else {
                    assert(rest[(i - 1) + 1] == nl_after(s, rest[i - 1]) + 1);
                    assert(whole[i + 1] == rest[(i - 1) + 1]);
                    assert(whole[i] == rest[i - 1]);
                }
            }
            assert(whole.last() == rest.last());
        }
    }
}

/// The line starts are strictly increasing.
pub proof fn lemma_starts_increasing(s: Seq<char>, p: int)
    requires
        0 <= p <= s.len(),
    ensures
        forall|i: int, k: int|
            0 <= i < k < starts_from(s, p).len() ==> #[trigger] starts_from(s, p)[i]
                < #[trigger] starts_from(s, p)[k],
    decreases s.len() - p,
{
    if 0 <= p < s.len() {
        lemma_nl_after(s, p);
        let j = nl_after(s, p);
        if j + 1 < s.len() {
            lemma_starts_increasing(s, j + 1);
            lemma_starts_from(s, j + 1);
            assert forall|i: int, k: int|
                0 <= i < k < starts_from(s, p).len() implies #[trigger] starts_from(s, p)[i]
                < #[trigger] starts_from(s, p)[k] by {
                if i > 0 {
                    assert(starts_from(s, p)[i] == starts_from(s, j + 1)[i - 1]);
                    assert(starts_from(s, p)[k] == starts_from(s, j + 1)[k - 1]);
                }
            }
        }
    }
}

/// A text has no more lines than characters.
pub proof fn lemma_starts_from_len(s: Seq<char>, p: int)
    requires
        0 <= p <= s.len(),
    ensures
        starts_from(s, p).len() <= s.len() - p,
    decreases s.len() - p,
{
    if 0 <= p < s.len() {
        lemma_nl_after(s, p);
        let j = nl_after(s, p);
        if j + 1 < s.len() {
            lemma_starts_from_len(s, j + 1);
        }
    }
}

/// Line starts do not move backward as the line index grows.
pub proof fn lemma_line_start_monotone(s: Seq<char>, a: int, b: int)
    requires
        0 <= a <= b,
    ensures
        line_start(s, a) <= line_start(s, b) <= s.len(),
{
    lemma_starts_from(s, 0);
    lemma_starts_increasing(s, 0);
    if 0 <= a < line_count(s) && 0 <= b < line_count(s) && a < b {
        assert(line_starts_of(s)[a] < line_starts_of(s)[b]);
    }
}

/// The table of line starts, as offsets.
pub fn line_starts(text: &str) -> (r: Vec<usize>)
    ensures
        r@.len() == line_count(text@),
        forall|k: int| 0 <= k < r@.len() ==> #[trigger] r@[k] as int == line_starts_of(text@)[k],
        forall|k: int| 0 <= k < r@.len() ==> #[trigger] r@[k] < text@.len(),
{
    let ghost s = text@;
    let n = text.unicode_len();
    let mut r: Vec<usize> = Vec::new();
    if n == 0 {
        return r;
    }
    let mut p: usize = 0;
    loop
        invariant_except_break
            line_starts_of(s) =~= r@.map_values(|x: usize| x as int) + starts_from(s, p as int),
        invariant
            s == text@,
            n == s.len(),
            p < n,
            forall|k: int| 0 <= k < r@.len() ==> #[trigger] r@[k] < n,
        ensures
            s == text@,
            n == s.len(),
            line_starts_of(s) =~= r@.map_values(|x: usize| x as int),
            forall|k: int| 0 <= k < r@.len() ==> #[trigger] r@[k] < n,
        decreases n - p,
    {
        proof {
            lemma_nl_after(s, p as int);
        }
        let ghost r_old = r@;
        r.push(p);
        proof {
            assert(r@.map_values(|x: usize| x as int) =~= r_old.map_values(|x: usize| x as int)
                + seq![p as int]);
        }
        let j = find_nl_after(text, p);
        if j >= n - 1 {
            proof {
                assert(starts_from(s, p as int) =~= seq![p as int]);
                assert(line_starts_of(s) =~= r@.map_values(|x: usize| x as int));
            }
            break;
        }
        proof {
            assert(starts_from(s, p as int) =~= seq![p as int] + starts_from(s, (j + 1) as int));
            assert(line_starts_of(s) =~= r@.map_values(|x: usize| x as int) + starts_from(
                s,
                (j + 1) as int,
            ));
        }
        p = j + 1;
    }
    proof {
        assert forall|k: int| 0 <= k < r@.len() implies #[trigger] r@[k] as int == line_starts_of(
            text@,
        )[k] by {
            assert(line_starts_of(s)[k] == r@.map_values(|x: usize| x as int)[k]);
        }
    }
    r
}

} // verus!
