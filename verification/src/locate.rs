//! The task locator.
//!
//! `locate_task` finds, around a cursor line, the smallest contiguous
//! line range holding one complete statement: it walks backward from the
//! cursor to the nearest line that can start a statement (a line whose
//! first significant token is a keyword other than the mid-statement
//! keywords `in` and `match`, or a fully blank line), then extends the
//! range forward one line at a time until the accumulated slice parses
//! to at least one statement, stopping early on a parse failure that is
//! not an unclosed structure, and unconditionally at the end of the
//! text.

use vstd::prelude::*;

use nadi_core::parser::tokenizer::TaskToken;
use nadi_core::tasks::{Task, TaskKeyword};

use crate::engine::{engine_parse_of, engine_tokens_of, literals_parse, token_models};
use crate::engine::{EngineParse, ParseKind};
use crate::text::{lemma_starts_from, lemma_starts_from_len, lemma_line_start_monotone};
use crate::text::{line_count, line_start, line_starts, line_starts_of, spec_trim, trim_str};
use crate::tokens::{first_invalid_idx, first_significant_idx, first_significant_index};
use crate::tokens::{error_position, error_position_model, first_bad_literal_idx};
use crate::tokens::{first_bad_literal_index, first_invalid_index};
use crate::tokens::{lemma_first_bad_literal_index, lemma_first_invalid_index};
use crate::tokens::{has_invalid, has_significant, is_invalid_model, is_significant};
use crate::tokens::{lemma_concat_len, lemma_first_significant_index, lemma_lens_sum_nonneg};
use crate::tokens::lens_sum;

verus! {

/// The line-start table `starts` is the one of text `s`.
pub open spec fn starts_ok(s: Seq<char>, starts: Seq<usize>) -> bool {
    &&& starts.len() == line_count(s)
    &&& forall|k: int| 0 <= k < starts.len() ==> #[trigger] starts[k] as int == line_starts_of(s)[k]
}

/// The characters of lines `[a, b)`, each line with its trailing break.
pub open spec fn line_slice(s: Seq<char>, a: int, b: int) -> Seq<char> {
    s.subrange(line_start(s, a), line_start(s, b))
}

/// Start offset of line `k`, from the table.
fn line_off(text: &str, starts: &Vec<usize>, k: usize) -> (r: usize)
    requires
        starts_ok(text@, starts@),
    ensures
        r as int == line_start(text@, k as int),
        r <= text@.len(),
{
    proof {
        lemma_starts_from(text@, 0);
    }
    if k < starts.len() {
        starts[k]
    } else {
        text.unicode_len()
    }
}

/// The slice of lines `[a, b)`.
fn line_slice_str<'a>(text: &'a str, starts: &Vec<usize>, a: usize, b: usize) -> (r: &'a str)
    requires
        starts_ok(text@, starts@),
        a <= b,
    ensures
        r@ == line_slice(text@, a as int, b as int),
{
    let lo = line_off(text, starts, a);
    let hi = line_off(text, starts, b);
    proof {
        lemma_line_start_monotone(text@, a as int, b as int);
    }
    text.substring_char(lo, hi)
}

/// Whether line `l` can start a statement: its own slice tokenizes
/// cleanly and its first significant token is a keyword other than the
/// mid-statement keywords `in` and `match`, or it has no significant
/// token at all.
pub open spec fn is_start_line(s: Seq<char>, l: int) -> bool {
    let ts = engine_tokens_of(line_slice(s, l, l + 1));
    if has_invalid(ts) {
        false
    } else if !has_significant(ts) {
        true
    } else {
        ts[first_significant_index(ts)].ty matches TaskToken::Keyword(kw) && !(
        kw matches TaskKeyword::In) && !(kw matches TaskKeyword::Match)
    }
}

fn is_start_line_exec(text: &str, starts: &Vec<usize>, l: usize) -> (r: bool)
    requires
        starts_ok(text@, starts@),
    ensures
        r == is_start_line(text@, l as int),
{
    let lo = line_off(text, starts, l);
    let hi = if l < starts.len() {
        line_off(text, starts, l + 1)
    } else {
        text.unicode_len()
    };
    proof {
        lemma_line_start_monotone(text@, l as int, l as int + 1);
        assert(hi as int == line_start(text@, l as int + 1));
    }
    let sl = text.substring_char(lo, hi);
    proof {
        assert(sl@ == line_slice(text@, l as int, l as int + 1));
    }
    let toks = nadi_core::parser::tokenizer::get_tokens(sl);
    let ghost ts = token_models(toks@);
    match first_invalid_idx(&toks) {
        Option::Some(i) => {
            proof {
                assert(has_invalid(ts)) by {
                    assert(0 <= i as int);
                    assert((i as int) < ts.len());
                    assert(is_invalid_model(ts[i as int]));
                }
            }
            false
        },
        Option::None => {
            match first_significant_idx(&toks) {
                Option::None => {
                    proof {
                        assert(!has_significant(ts));
                    }
                    true
                },
                Option::Some(i) => {
                    proof {
                        lemma_first_significant_index(ts, i as int);
                        assert(has_significant(ts)) by {
                            assert(0 <= i as int);
                            assert((i as int) < ts.len());
                            assert(is_significant(ts[i as int]));
                        }
                        assert(ts[i as int] == crate::engine::token_model(toks@[i as int]));
                    }
                    match &toks[i].ty {
                        TaskToken::Keyword(kw) => match kw {
                            TaskKeyword::In => false,
                            TaskKeyword::Match => false,
                            _ => true,
                        },
                        _ => false,
                    }
                },
            }
        },
    }
}

/// Start line of the statement around line `l`: the nearest line at or
/// before `l` that can start a statement, or line zero.
pub open spec fn scan_start(s: Seq<char>, l: int) -> int
    decreases l,
{
    if l <= 0 {
        0
    } else if is_start_line(s, l) {
        l
    } else {
        scan_start(s, l - 1)
    }
}

/// What the forward scan reads of the slice of lines `[a, b)`: extend
/// the range, accept it with `n` parsed statements, or halt at it.
pub ghost enum SliceState {
    Extend,
    Accept(nat),
    Halt,
}

/// Verdict on the slice of lines `[a, b)`, trimmed: a lexical error or
/// an unclosed structure asks for more lines (`Extend`); a parse with at
/// least one statement is accepted; any other outcome — a structural
/// failure, a date, time or datetime literal the engine rejects, zero
/// statements, or statements followed by leftover tokens — halts the
/// scan.
pub open spec fn slice_state(s: Seq<char>, a: int, b: int) -> SliceState {
    let ts = engine_tokens_of(spec_trim(line_slice(s, a, b)));
    if has_invalid(ts) {
        SliceState::Extend
    } else if !literals_parse(ts) {
        SliceState::Halt
    } else {
        match engine_parse_of(ts) {
            ParseKind::Statements(n, left) => if left == 0 && n > 0 {
                SliceState::Accept(n)
            } else {
                SliceState::Halt
            },
            ParseKind::Unclosed(_) => SliceState::Extend,
            ParseKind::Failed(_) => SliceState::Halt,
        }
    }
}

/// End line of the statement starting at line `a`, scanning from
/// candidate end `b`: the first candidate whose slice verdict is not
/// `Extend`, or the end of the text.
pub open spec fn scan_end(s: Seq<char>, a: int, b: int) -> int
    decreases line_count(s) - b,
{
    if b >= line_count(s) {
        line_count(s)
    } else if slice_state(s, a, b) is Extend {
        scan_end(s, a, b + 1)
    } else {
        b
    }
}

pub proof fn lemma_scan_end_bounds(s: Seq<char>, a: int, b: int)
    ensures
        scan_end(s, a, b) <= line_count(s),
        b <= line_count(s) ==> b <= scan_end(s, a, b),
    decreases line_count(s) - b,
{
    if b < line_count(s) && slice_state(s, a, b) is Extend {
        lemma_scan_end_bounds(s, a, b + 1);
    }
}

/// The cursor line, clamped to the end of the text.
pub open spec fn clamp_cursor(s: Seq<char>, cursor: int) -> int {
    if cursor > line_count(s) {
        line_count(s)
    } else {
        cursor
    }
}

/// Start line `locate_task` returns.
pub open spec fn located_start(s: Seq<char>, cursor: int) -> int {
    scan_start(s, clamp_cursor(s, cursor))
}

/// End line `locate_task` returns.
pub open spec fn located_end(s: Seq<char>, cursor: int) -> int {
    scan_end(s, located_start(s, cursor), clamp_cursor(s, cursor) + 1)
}

/// How many statements `locate_task` returns for the range `[a, b)`.
pub open spec fn located_tasks(s: Seq<char>, a: int, b: int) -> nat {
    match slice_state(s, a, b) {
        SliceState::Accept(n) => n,
        _ => 0,
    }
}

enum SliceEval {
    Extend,
    Accept(Vec<Task>),
    Halt,
}

/// Evaluate the verdict on the slice of lines `[a, b)`, carrying the
/// parsed statements out of an accepted slice.
fn eval_slice(text: &str, starts: &Vec<usize>, a: usize, b: usize) -> (r: SliceEval)
    requires
        starts_ok(text@, starts@),
        a <= b,
    ensures
        match slice_state(text@, a as int, b as int) {
            SliceState::Extend => r is Extend,
            SliceState::Accept(n) => r matches SliceEval::Accept(v) && v@.len() == n,
            SliceState::Halt => r is Halt,
        },
        spec_trim(line_slice(text@, a as int, b as int)).len() == 0 ==> slice_state(
            text@,
            a as int,
            b as int,
        ) is Halt,
{
    let sl = line_slice_str(text, starts, a, b);
    let trm = trim_str(sl);
    let toks = nadi_core::parser::tokenizer::get_tokens(trm);
    let ghost ts = token_models(toks@);
    proof {
        if trm@.len() == 0 {
            lemma_concat_len(ts);
            if ts.len() > 0 {
                assert(ts[0].content.len() >= 1);
                lemma_lens_sum_nonneg(ts.drop_first());
                assert(false);
            }
            assert(toks@.len() == 0);
        }
    }
    match first_invalid_idx(&toks) {
        Option::Some(i) => {
            proof {
                assert(has_invalid(ts)) by {
                    assert(0 <= i as int);
                    assert((i as int) < ts.len());
                    assert(is_invalid_model(ts[i as int]));
                }
            }
            SliceEval::Extend
        },
        Option::None => {
            if let Option::Some(bi) = first_bad_literal_idx(&toks) {
                proof {
                    assert(!literals_parse(ts)) by {
                        assert(!crate::engine::literal_parses(ts[bi as int]));
                    }
                }
                return SliceEval::Halt;
            }
            match crate::engine::engine_tasks(&toks) {
                EngineParse::Statements(v, left) => {
                    if left == 0 && v.len() > 0 {
                        SliceEval::Accept(v)
                    } else {
                        SliceEval::Halt
                    }
                },
                EngineParse::Unclosed(_) => SliceEval::Extend,
                EngineParse::Failed(_) => SliceEval::Halt,
            }
        },
    }
}

/// The located statement: its line range `[start_line, end_line)`, the
/// trimmed text of those lines, and the statements parsed from it
/// (empty when the range holds none).
pub struct LocatedTask {
    pub start_line: usize,
    pub end_line: usize,
    pub text: String,
    pub tasks: Vec<Task>,
}

/// Locate the statement around `cursor_line`.
///
/// Never fails: on any input it returns the best-effort range, with the
/// statements parsed from it, or none when the range does not parse.  On
/// an empty text it returns the empty range `[0, 0)` and no statements.
pub fn locate_task(text: &str, cursor_line: usize) -> (r: LocatedTask)
    ensures
        r.start_line as int == located_start(text@, cursor_line as int),
        r.end_line as int == located_end(text@, cursor_line as int),
        r.start_line as int <= clamp_cursor(text@, cursor_line as int),
        clamp_cursor(text@, cursor_line as int) <= r.end_line as int,
        r.end_line as int <= line_count(text@),
        r.text@ == spec_trim(line_slice(text@, r.start_line as int, r.end_line as int)),
        r.tasks@.len() == located_tasks(text@, r.start_line as int, r.end_line as int),
        text@.len() == 0 ==> r.start_line == 0 && r.end_line == 0 && r.tasks@.len() == 0,
{
    let ghost s = text@;
    let starts = line_starts(text);
    let count = starts.len();
    proof {
        lemma_starts_from_len(s, 0);
        assert(starts_ok(s, starts@));
    }
    let c = if cursor_line > count {
        count
    } else {
        cursor_line
    };
    let mut l = c;
    let mut start: usize = 0;
    loop
        invariant
            s == text@,
            starts_ok(s, starts@),
            count == starts@.len(),
            count <= s.len(),
            l <= c <= count,
            scan_start(s, c as int) == scan_start(s, l as int),
        ensures
            s == text@,
            start as int == scan_start(s, c as int),
            start <= c,
        decreases l,
    {
        if is_start_line_exec(text, &starts, l) {
            start = l;
            break;
        }
        if l == 0 {
            start = 0;
            break;
        }
        l -= 1;
    }
    let mut e = c;
    let mut end: usize = 0;
    let mut tasks: Vec<Task> = Vec::new();
    loop
        invariant
            s == text@,
            starts_ok(s, starts@),
            count == starts@.len(),
            count <= s.len(),
            start <= c <= count,
            c <= e <= count,
            scan_end(s, start as int, c as int + 1) == scan_end(s, start as int, e as int + 1),
        ensures
            s == text@,
            end as int == scan_end(s, start as int, c as int + 1),
            end <= count,
            start <= end,
            tasks@.len() == located_tasks(s, start as int, end as int),
            s.len() == 0 ==> tasks@.len() == 0,
        decreases count - e,
    {
        if e >= count {
            end = count;
            match eval_slice(text, &starts, start, count) {
                SliceEval::Accept(v) => {
                    tasks = v;
                },
                SliceEval::Extend => {
                    tasks = Vec::new();
                },
                SliceEval::Halt => {
                    tasks = Vec::new();
                },
            }
            proof {
                if s.len() == 0 {
                    assert(count == 0);
                    assert(line_start(s, 0) == 0);
                    assert(line_slice(s, 0, 0) =~= Seq::<char>::empty());
                    assert(spec_trim(line_slice(s, start as int, end as int)).len() == 0);
                }
            }
            break;
        }
        match eval_slice(text, &starts, start, e + 1) {
            SliceEval::Extend => {
                e += 1;
            },
            SliceEval::Accept(v) => {
                end = e + 1;
                tasks = v;
                break;
            },
            SliceEval::Halt => {
                end = e + 1;
                tasks = Vec::new();
                break;
            },
        }
    }
    proof {
        lemma_scan_end_bounds(s, start as int, (c + 1) as int);
        if c as int + 1 > line_count(s) {
            assert(scan_end(s, start as int, (c + 1) as int) == line_count(s));
        }
    }
    let sl = line_slice_str(text, &starts, start, end);
    let trm = trim_str(sl);
    LocatedTask { start_line: start, end_line: end, text: trm.to_owned(), tasks }
}

/// Parse the statements of a whole text, as running a selection or the
/// whole buffer does: the statements when the text scans and parses
/// cleanly, and `None` on any lexical or structural error, or on a date,
/// time or datetime literal the engine rejects.
pub fn tasks_in_text(text: &str) -> (r: Option<Vec<Task>>)
    ensures
        has_invalid(engine_tokens_of(text@)) ==> r is None,
        !literals_parse(engine_tokens_of(text@)) ==> r is None,
        !has_invalid(engine_tokens_of(text@)) && literals_parse(engine_tokens_of(text@))
            ==> match engine_parse_of(engine_tokens_of(text@)) {
            ParseKind::Statements(n, left) => if left == 0 {
                r matches Some(v) && v@.len() == n
            } else {
                r is None
            },
            ParseKind::Unclosed(_) => r is None,
            ParseKind::Failed(_) => r is None,
        },
{
    let toks = nadi_core::parser::tokenizer::get_tokens(text);
    let ghost ts = token_models(toks@);
    match first_invalid_idx(&toks) {
        Option::Some(i) => {
            proof {
                assert(has_invalid(ts)) by {
                    assert(0 <= i as int);
                    assert((i as int) < ts.len());
                    assert(is_invalid_model(ts[i as int]));
                }
            }
            None
        },
        Option::None => {
            if let Option::Some(bi) = first_bad_literal_idx(&toks) {
                proof {
                    assert(!literals_parse(ts)) by {
                        assert(!crate::engine::literal_parses(ts[bi as int]));
                    }
                }
                return None;
            }
            match crate::engine::engine_tasks(&toks) {
                EngineParse::Statements(v, left) => {
                    if left == 0 {
                        Some(v)
                    } else {
                        None
                    }
                },
                EngineParse::Unclosed(_) => None,
                EngineParse::Failed(_) => None,
            }
        },
    }
}

/// Line index and column offset of the first scanning or parsing error
/// of a script, or `None` when the whole text parses: the position of
/// the first invalid token, of the first date, time or datetime literal
/// the engine rejects, or of the first token the statement parser could
/// not consume.  Lines and columns count from zero, columns in
/// characters; the engine's own display counts both from one, columns in
/// bytes.  This is what an error report to the user is built from.
pub fn script_error_position(text: &str) -> (r: Option<(usize, usize)>)
    ensures
        ({
            let ts = engine_tokens_of(text@);
            if has_invalid(ts) {
                r matches Some(p) && (p.0 as int, p.1 as int) == error_position_model(
                    ts,
                    first_invalid_index(ts),
                )
            } else if !literals_parse(ts) {
                r matches Some(p) && (p.0 as int, p.1 as int) == error_position_model(
                    ts,
                    first_bad_literal_index(ts),
                )
            } else {
                match engine_parse_of(ts) {
                    ParseKind::Statements(n, left) => if left == 0 {
                        r is None
                    } else {
                        r matches Some(p) && (p.0 as int, p.1 as int) == error_position_model(
                            ts,
                            ts.len() - left,
                        )
                    },
                    ParseKind::Unclosed(left) => r matches Some(p) && (p.0 as int, p.1 as int)
                        == error_position_model(ts, ts.len() - left),
                    ParseKind::Failed(left) => r matches Some(p) && (p.0 as int, p.1 as int)
                        == error_position_model(ts, ts.len() - left),
                }
            }
        }),
{
    let chars = text.unicode_len();
    let toks = nadi_core::parser::tokenizer::get_tokens(text);
    let ghost ts = token_models(toks@);
    proof {
        lemma_concat_len(ts);
        assert(lens_sum(ts) == chars as int);
    }
    match first_invalid_idx(&toks) {
        Option::Some(i) => {
            proof {
                lemma_first_invalid_index(ts, i as int);
                assert(has_invalid(ts)) by {
                    assert(is_invalid_model(ts[i as int]));
                }
            }
            Some(error_position(&toks, i))
        },
        Option::None => {
            match first_bad_literal_idx(&toks) {
                Option::Some(i) => {
                    proof {
                        lemma_first_bad_literal_index(ts, i as int);
                        assert(!literals_parse(ts)) by {
                            assert(!crate::engine::literal_parses(ts[i as int]));
                        }
                    }
                    Some(error_position(&toks, i))
                },
                Option::None => {
                    match crate::engine::engine_tasks(&toks) {
                        EngineParse::Statements(_, left) => {
                            if left == 0 {
                                None
                            } else {
                                Some(error_position(&toks, toks.len() - left))
                            }
                        },
                        EngineParse::Unclosed(left) => Some(
                            error_position(&toks, toks.len() - left),
                        ),
                        EngineParse::Failed(left) => Some(
                            error_position(&toks, toks.len() - left),
                        ),
                    }
                },
            }
        },
    }
}

/// A single complete one-line statement is located as exactly its own
/// line: with the cursor on a line that can start a statement and whose
/// slice alone parses to at least one statement, the returned range is
/// that line and the returned statement list is not empty.
pub proof fn lemma_locate_single_line(s: Seq<char>, l: int)
    requires
        0 <= l < line_count(s),
        is_start_line(s, l),
        slice_state(s, l, l + 1) is Accept,
    ensures
        located_start(s, l) == l,
        located_end(s, l) == l + 1,
        located_tasks(s, l, l + 1) > 0,
{
}

/// The forward scan stops at the first candidate end whose slice is not
/// a continuation: while every shorter slice asks for more lines, the
/// range keeps growing, and it ends exactly at `e`.
pub proof fn lemma_scan_end_first_stop(s: Seq<char>, a: int, b: int, e: int)
    requires
        0 <= b <= e <= line_count(s),
        forall|x: int| b <= x < e ==> (#[trigger] slice_state(s, a, x)) is Extend,
        e < line_count(s) ==> !(slice_state(s, a, e) is Extend),
    ensures
        scan_end(s, a, b) == e,
    decreases e - b,
{
    if b < e {
        assert(slice_state(s, a, b) is Extend);
        lemma_scan_end_first_stop(s, a, b + 1, e);
    }
}

/// A statement that spans several lines — say an opening bracket that
/// closes only some lines further down, so that every shorter slice
/// parses as an unclosed structure — is located in full: the range runs
/// from the start line to the first line count at which the slice
/// parses as a complete statement, never fewer.
pub proof fn lemma_locate_spans_unclosed_lines(s: Seq<char>, cursor: int, e: int)
    requires
        0 <= cursor < line_count(s),
        is_start_line(s, cursor),
        cursor + 1 <= e <= line_count(s),
        forall|x: int| cursor + 1 <= x < e ==> (#[trigger] slice_state(s, cursor, x)) is Extend,
        slice_state(s, cursor, e) is Accept,
    ensures
        located_start(s, cursor) == cursor,
        located_end(s, cursor) == e,
        located_tasks(s, cursor, e) > 0,
{
    if e < line_count(s) {
        lemma_scan_end_first_stop(s, cursor, cursor + 1, e);
    } else {
        lemma_scan_end_first_stop(s, cursor, cursor + 1, line_count(s));
    }
}

/// The first significant token of line `l` is one of the two keywords
/// that only appear in the middle of a statement.
pub open spec fn line_leads_with_in_or_match(s: Seq<char>, l: int) -> bool {
    let ts = engine_tokens_of(line_slice(s, l, l + 1));
    has_significant(ts) && (ts[first_significant_index(ts)].ty matches TaskToken::Keyword(kw) && ((
    kw matches TaskKeyword::In) || (kw matches TaskKeyword::Match)))
}

/// A line that opens with the mid-statement keyword `in` or `match`
/// never starts a statement: the backward scan steps past it and keeps
/// looking on the lines before it.  (At line zero there is nothing
/// before it: the scan falls back to the start of the text, which is
/// then the line itself.)
pub proof fn lemma_in_match_line_not_start(s: Seq<char>, l: int)
    requires
        line_leads_with_in_or_match(s, l),
    ensures
        !is_start_line(s, l),
        l >= 1 ==> scan_start(s, l) == scan_start(s, l - 1),
        l <= 0 ==> scan_start(s, l) == 0,
{
}

} // verus!
