//! The syntax highlighter.
//!
//! `highlight` tokenizes the whole text and turns every token the
//! classification table knows into one span.  When the tokenizer marks a
//! lexical error, the lines before the failing line are highlighted from
//! a fresh tokenization of that prefix (or left unstyled when the prefix
//! does not scan cleanly on its own), the failing line is covered by one
//! `ErrorLine` span in full (trailing break included), and scanning
//! resumes on the text after it, so one bad line never costs more than
//! itself.

use vstd::prelude::*;

use nadi_core::parser::tokenizer::Token;

use crate::engine::{all_tokens_nonempty, engine_tokens_of, token_models, TokModel};
use crate::text::{find_line_start, find_nl_after, line_start_of, nl_after};
use crate::text::{lemma_line_start_of, lemma_nl_after};
use crate::tokens::{classify, spec_classify, Category};
use crate::tokens::{first_invalid_idx, first_invalid_index, has_invalid};
use crate::tokens::{lemma_concat_len, lemma_first_invalid_index, lemma_lens_sum_nonneg};
use crate::tokens::{lemma_lens_sum_split, lens_sum};

verus! {

/// One highlight span: the half-open character range `[start, end)` of
/// the scanned text, and the display category to tag it with.
#[derive(Clone, Copy, Debug, PartialEq, Eq, Structural)]
pub struct Span {
    pub start: usize,
    pub end: usize,
    pub category: Category,
}

/// Mathematical value of a span.
pub ghost struct GSpan {
    pub start: int,
    pub end: int,
    pub cat: Category,
}

pub open spec fn span_model(sp: Span) -> GSpan {
    GSpan { start: sp.start as int, end: sp.end as int, cat: sp.category }
}

pub open spec fn span_models(v: Seq<Span>) -> Seq<GSpan> {
    v.map_values(|sp: Span| span_model(sp))
}

/// Spans of a clean token sequence laid out from offset `base`: one span
/// per classified token, none for skipped tokens, each token advancing
/// the offset by its width.
pub open spec fn spans_of_tokens(ts: Seq<TokModel>, base: int) -> Seq<GSpan>
    decreases ts.len(),
{
    if ts.len() == 0 {
        Seq::empty()
    } else {
        let w = ts[0].content.len() as int;
        let rest = spans_of_tokens(ts.drop_first(), base + w);
        match spec_classify(ts[0].ty) {
            Some(c) => seq![GSpan { start: base, end: base + w, cat: c }] + rest,
            None => rest,
        }
    }
}

/// Offset at which the first invalid token of the text starts.
pub open spec fn first_bad_offset(s: Seq<char>) -> int {
    lens_sum(engine_tokens_of(s).take(first_invalid_index(engine_tokens_of(s))))
}

/// Start offset of the line holding the first invalid token.
pub open spec fn bad_line_start(s: Seq<char>) -> int {
    line_start_of(s, first_bad_offset(s))
}

/// One past the break of the line holding the first invalid token, or
/// the end of the text.
pub open spec fn bad_line_end(s: Seq<char>) -> int {
    let nla = nl_after(s, first_bad_offset(s));
    if nla + 1 <= s.len() {
        nla + 1
    } else {
        s.len() as int
    }
}

/// The spans `highlight` returns for text `s` whose first character sits
/// at offset `base` of the buffer being scanned.
pub open spec fn hl_spec(s: Seq<char>, base: int) -> Seq<GSpan>
    decreases s.len(),
    via hl_spec_dec
{
    if s.len() == 0 {
        Seq::empty()
    } else {
        let ts = engine_tokens_of(s);
        if !has_invalid(ts) {
            spans_of_tokens(ts, base)
        } else {
            let ls = bad_line_start(s);
            let ns = bad_line_end(s);
            let ptoks = engine_tokens_of(s.subrange(0, ls));
            let pspans = if has_invalid(ptoks) {
                Seq::empty()
            } else {
                spans_of_tokens(ptoks, base)
            };
            pspans + seq![GSpan { start: base + ls, end: base + ns, cat: Category::ErrorLine }]
                + hl_spec(s.subrange(ns, s.len() as int), base + ns)
        }
    }
}

#[via_fn]
proof fn hl_spec_dec(s: Seq<char>, base: int) {
    if s.len() > 0 {
        let ts = engine_tokens_of(s);
        if has_invalid(ts) {
            lemma_lens_sum_nonneg(ts.take(first_invalid_index(ts)));
            let o = first_bad_offset(s);
            if o <= s.len() {
                lemma_nl_after(s, o);
            } else {
                assert(nl_after(s, o) == s.len());
            }
        }
    }
}

/// Characters covered by the tokens before position `i`.
fn sum_lens_prefix(toks: &Vec<Token<'_>>, i: usize) -> (r: usize)
    requires
        i <= toks@.len(),
        lens_sum(token_models(toks@)) <= usize::MAX,
    ensures
        r as int == lens_sum(token_models(toks@).take(i as int)),
{
    let ghost ts = token_models(toks@);
    proof {
        assert(ts.skip(0) =~= ts);
    }
    let mut acc: usize = 0;
    let mut k: usize = 0;
    while k < i
        invariant
            ts == token_models(toks@),
            ts.len() == toks@.len(),
            k <= i <= toks@.len(),
            lens_sum(ts) <= usize::MAX,
            acc as int == lens_sum(ts) - lens_sum(ts.skip(k as int)),
        decreases i - k,
    {
        proof {
            lemma_lens_sum_split(ts, k as int);
            assert(ts.skip(k as int)[0] == ts[k as int]);
            assert(ts.skip(k as int).drop_first() =~= ts.skip(k as int + 1));
            lemma_lens_sum_nonneg(ts.skip(k as int + 1));
            lemma_lens_sum_nonneg(ts.take(k as int));
            assert(ts[k as int] == crate::engine::token_model(toks@[k as int]));
        }
        let l = toks[k].content.unicode_len();
        acc = acc + l;
        k += 1;
    }
    proof {
        lemma_lens_sum_split(ts, i as int);
    }
    acc
}

/// Append the spans of a clean token sequence laid out from `base`.
fn emit_spans(out: &mut Vec<Span>, toks: &Vec<Token<'_>>, base: usize)
    requires
        base + lens_sum(token_models(toks@)) <= usize::MAX,
    ensures
        span_models(final(out)@) =~= span_models(old(out)@) + spans_of_tokens(
            token_models(toks@),
            base as int,
        ),
{
    let ghost ts = token_models(toks@);
    let ghost start_spans = out@;
    proof {
        assert(ts.skip(0) =~= ts);
        lemma_lens_sum_nonneg(ts);
    }
    let mut cur = base;
    let mut i: usize = 0;
    while i < toks.len()
        invariant
            ts == token_models(toks@),
            ts.len() == toks@.len(),
            start_spans == old(out)@,
            0 <= i <= toks@.len(),
            base + lens_sum(ts) <= usize::MAX,
            cur as int == base + lens_sum(ts) - lens_sum(ts.skip(i as int)),
            span_models(out@) + spans_of_tokens(ts.skip(i as int), cur as int) =~= span_models(
                start_spans,
            ) + spans_of_tokens(ts, base as int),
        decreases toks@.len() - i,
    {
        proof {
            assert(ts.skip(i as int)[0] == ts[i as int]);
            assert(ts.skip(i as int).drop_first() =~= ts.skip(i as int + 1));
            lemma_lens_sum_nonneg(ts.skip(i as int + 1));
            assert(ts[i as int] == crate::engine::token_model(toks@[i as int]));
        }
        let l = toks[i].content.unicode_len();
        let st = cur;
        cur = cur + l;
        let ghost w = ts[i as int].content.len() as int;
        let ghost gs = GSpan { start: st as int, end: st as int + w, cat: spec_classify(ts[i as int].ty)->Some_0 };
        let ghost prev = out@;
        match classify(&toks[i].ty) {
            Some(cat) => {
                out.push(Span { start: st, end: cur, category: cat });
                proof {
                    assert(span_models(out@) =~= span_models(prev) + seq![gs]);
                    assert(spans_of_tokens(ts.skip(i as int), st as int) =~= seq![gs]
                        + spans_of_tokens(ts.skip(i as int + 1), cur as int));
                    assert(span_models(out@) + spans_of_tokens(ts.skip(i as int + 1), cur as int)
                        =~= span_models(start_spans) + spans_of_tokens(ts, base as int));
                }
            },
            None => {
                proof {
                    assert(spans_of_tokens(ts.skip(i as int), st as int) == spans_of_tokens(
                        ts.skip(i as int + 1),
                        cur as int,
                    ));
                }
            },
        }
        i += 1;
    }
    proof {
        assert(ts.skip(ts.len() as int) =~= Seq::empty());
    }
}

/// Highlight the whole text.
///
/// The spans come back in text order, as character offsets into `text`;
/// they are exactly the spans of `hl_spec`, so two runs on the same text
/// return the same spans.
pub fn highlight(text: &str) -> (r: Vec<Span>)
    ensures
        span_models(r@) == hl_spec(text@, 0),
{
    let ghost s = text@;
    let n = text.unicode_len();
    let mut r: Vec<Span> = Vec::new();
    let mut pos: usize = 0;
    proof {
        assert(s.subrange(0, s.len() as int) =~= s);
        assert(span_models(r@) =~= Seq::<GSpan>::empty());
        assert(hl_spec(s, 0) =~= span_models(r@) + hl_spec(s.subrange(0, s.len() as int), 0));
    }
    loop
        invariant_except_break
            hl_spec(s, 0) =~= span_models(r@) + hl_spec(
                s.subrange(pos as int, s.len() as int),
                pos as int,
            ),
        invariant
            s == text@,
            n == s.len(),
            pos <= n,
        ensures
            s == text@,
            span_models(r@) =~= hl_spec(s, 0),
        decreases n - pos,
    {
        let ghost rs = s.subrange(pos as int, s.len() as int);
        if pos >= n {
            proof {
                assert(rs.len() == 0);
                assert(hl_spec(rs, pos as int) == Seq::<GSpan>::empty());
                assert(span_models(r@) =~= span_models(r@) + hl_spec(rs, pos as int));
            }
            break;
        }
        let rest = text.substring_char(pos, n);
        let rest_len = n - pos;
        let toks = nadi_core::parser::tokenizer::get_tokens(rest);
        let ghost ts = token_models(toks@);
        proof {
            lemma_concat_len(ts);
            assert(ts == engine_tokens_of(rs));
            assert(lens_sum(ts) == rs.len());
        }
        match first_invalid_idx(&toks) {
            Option::None => {
                proof {
                    assert(hl_spec(rs, pos as int) == spans_of_tokens(ts, pos as int));
                }
                emit_spans(&mut r, &toks, pos);
                proof {
                    assert(span_models(r@) =~= hl_spec(s, 0));
                }
                break;
            },
            Option::Some(i) => {
                proof {
                    lemma_first_invalid_index(ts, i as int);
                    lemma_lens_sum_split(ts, i as int);
                    assert(ts.skip(i as int)[0] == ts[i as int]);
                    assert(ts.skip(i as int).drop_first() =~= ts.skip(i as int + 1));
                    lemma_lens_sum_nonneg(ts.skip(i as int + 1));
                    lemma_lens_sum_nonneg(ts.take(i as int));
                }
                let o = sum_lens_prefix(&toks, i);
                proof {
                    assert(o < rest_len);
                    lemma_line_start_of(rs, o as int);
                    lemma_nl_after(rs, o as int);
                }
                let ls = find_line_start(rest, o);
                let jnl = find_nl_after(rest, o);
                let ns = if jnl >= rest_len {
                    rest_len
                } else {
                    jnl + 1
                };
                let prefix = rest.substring_char(0, ls);
                let ghost ps = rs.subrange(0, ls as int);
                let ptoks = nadi_core::parser::tokenizer::get_tokens(prefix);
                let ghost pts = token_models(ptoks@);
                proof {
                    assert(has_invalid(ts)) by {
                        assert(0 <= i as int);
                        assert((i as int) < ts.len());
                        assert(crate::tokens::is_invalid_model(ts[i as int]));
                    }
                    assert(pts == engine_tokens_of(ps));
                }
                match first_invalid_idx(&ptoks) {
                    Option::Some(pi) => {
                        let ghost r_pre = r@;
                        r.push(
                            Span { start: pos + ls, end: pos + ns, category: Category::ErrorLine },
                        );
                        proof {
                            assert(has_invalid(pts)) by {
                                assert(0 <= pi as int);
                                assert((pi as int) < pts.len());
                                assert(crate::tokens::is_invalid_model(pts[pi as int]));
                            }
                            let g = GSpan {
                                start: pos as int + ls,
                                end: pos as int + ns,
                                cat: Category::ErrorLine,
                            };
                            assert(hl_spec(rs, pos as int) == Seq::<GSpan>::empty() + seq![g]
                                + hl_spec(
                                rs.subrange(ns as int, rs.len() as int),
                                pos as int + ns,
                            ));
                            assert(rs.subrange(ns as int, rs.len() as int) =~= s.subrange(
                                (pos + ns) as int,
                                s.len() as int,
                            ));
                            assert(span_models(r@) =~= span_models(r_pre) + seq![g]);
                            assert(hl_spec(s, 0) =~= span_models(r_pre) + hl_spec(rs, pos as int));
                            assert(hl_spec(s, 0) =~= span_models(r@) + hl_spec(
                                s.subrange((pos + ns) as int, s.len() as int),
                                (pos + ns) as int,
                            ));
                        }
                        pos = pos + ns;
                    },
                    Option::None => {
                        proof {
                            lemma_concat_len(pts);
                            assert(lens_sum(pts) == ls as int);
                        }
                        let ghost r_pre = r@;
                        emit_spans(&mut r, &ptoks, pos);
                        let ghost r_mid = r@;
                        r.push(
                            Span { start: pos + ls, end: pos + ns, category: Category::ErrorLine },
                        );
                        proof {
                            let g = GSpan {
                                start: pos as int + ls,
                                end: pos as int + ns,
                                cat: Category::ErrorLine,
                            };
                            assert(hl_spec(rs, pos as int) == spans_of_tokens(pts, pos as int)
                                + seq![g] + hl_spec(
                                rs.subrange(ns as int, rs.len() as int),
                                pos as int + ns,
                            ));
                            assert(rs.subrange(ns as int, rs.len() as int) =~= s.subrange(
                                (pos + ns) as int,
                                s.len() as int,
                            ));
                            assert(span_models(r@) =~= span_models(r_mid) + seq![g]);
                            assert(span_models(r_mid) =~= span_models(r_pre) + spans_of_tokens(
                                pts,
                                pos as int,
                            ));
                            assert(hl_spec(s, 0) =~= span_models(r_pre) + hl_spec(rs, pos as int));
                            assert(hl_spec(s, 0) =~= span_models(r@) + hl_spec(
                                s.subrange((pos + ns) as int, s.len() as int),
                                (pos + ns) as int,
                            ));
                        }
                        pos = pos + ns;
                    },
                }
            },
        }
    }
    r
}

/// One token's range in a tiling of the text: its character range and
/// its display category, `None` for a token that gets no span.
pub ghost struct TileRange {
    pub start: int,
    pub end: int,
    pub cat: Option<Category>,
}

/// The ranges of all tokens in order, classified or not, laid out from
/// `base`: by construction they are consecutive and cover `[base, base +
/// lens_sum(ts))` with no gap and no overlap.
pub open spec fn tiles_of_tokens(ts: Seq<TokModel>, base: int) -> Seq<TileRange>
    decreases ts.len(),
{
    if ts.len() == 0 {
        Seq::empty()
    } else {
        let w = ts[0].content.len() as int;
        seq![TileRange { start: base, end: base + w, cat: spec_classify(ts[0].ty) }]
            + tiles_of_tokens(ts.drop_first(), base + w)
    }
}

/// The classified tiles, in order, as spans.
pub open spec fn classified_spans(tiles: Seq<TileRange>) -> Seq<GSpan>
    decreases tiles.len(),
{
    if tiles.len() == 0 {
        Seq::empty()
    } else {
        let rest = classified_spans(tiles.drop_first());
        match tiles[0].cat {
            Some(c) => seq![GSpan { start: tiles[0].start, end: tiles[0].end, cat: c }] + rest,
            None => rest,
        }
    }
}

/// Shape of the token tiling: one tile per token, consecutive ranges
/// starting at `base` and ending at `base + lens_sum(ts)`.
pub proof fn lemma_tiles_shape(ts: Seq<TokModel>, base: int)
    ensures
        tiles_of_tokens(ts, base).len() == ts.len(),
        ts.len() > 0 ==> tiles_of_tokens(ts, base)[0].start == base,
        ts.len() > 0 ==> tiles_of_tokens(ts, base).last().end == base + lens_sum(ts),
        forall|k: int|
            0 <= k < ts.len() ==> (#[trigger] tiles_of_tokens(ts, base)[k]).end
                == tiles_of_tokens(ts, base)[k].start + ts[k].content.len(),
        forall|k: int|
            0 <= k < ts.len() - 1 ==> (#[trigger] tiles_of_tokens(ts, base)[k + 1]).start
                == tiles_of_tokens(ts, base)[k].end,
        forall|k: int|
            0 <= k < ts.len() ==> (#[trigger] tiles_of_tokens(ts, base)[k]).cat == spec_classify(
                ts[k].ty,
            ),
    decreases ts.len(),
{
    if ts.len() > 0 {
        let w = ts[0].content.len() as int;
        lemma_tiles_shape(ts.drop_first(), base + w);
        let whole = tiles_of_tokens(ts, base);
        let rest = tiles_of_tokens(ts.drop_first(), base + w);
        assert forall|k: int| 0 <= k < ts.len() implies (#[trigger] whole[k]).end == whole[k].start
            + ts[k].content.len() && whole[k].cat == spec_classify(ts[k].ty) by {
            if k > 0 {
                assert(whole[k] == rest[k - 1]);
                assert(ts.drop_first()[k - 1] == ts[k]);
            }
        }
        assert forall|k: int| 0 <= k < ts.len() - 1 implies (#[trigger] whole[k + 1]).start
            == whole[k].end by {
            if k == 0 {
                if ts.len() > 1 {
                    assert(whole[1] == rest[0]);
                }
            } else {
                assert(rest[(k - 1) + 1].start == rest[k - 1].end);
                assert(whole[k + 1] == rest[(k - 1) + 1]);
                assert(whole[k] == rest[k - 1]);
            }
        }
        if ts.len() > 1 {
            assert(whole.last() == rest.last());
        } else {
            assert(ts.drop_first().len() == 0);
            assert(lens_sum(ts.drop_first()) == 0);
            assert(lens_sum(ts) == w);
            assert(whole.last() == whole[0]);
        }
    }
}

/// The highlighter's spans are exactly the classified tiles of the
/// token tiling.
pub proof fn lemma_spans_are_classified_tiles(ts: Seq<TokModel>, base: int)
    ensures
        spans_of_tokens(ts, base) == classified_spans(tiles_of_tokens(ts, base)),
    decreases ts.len(),
{
    if ts.len() > 0 {
        let w = ts[0].content.len() as int;
        lemma_spans_are_classified_tiles(ts.drop_first(), base + w);
        assert(tiles_of_tokens(ts, base).drop_first() =~= tiles_of_tokens(
            ts.drop_first(),
            base + w,
        ));
    }
}

/// On text the tokenizer scans cleanly, the highlighter's spans are the
/// classified ranges of a tiling of the whole text: the token ranges are
/// consecutive, start at offset zero, end at the text's length, and the
/// spans are exactly those ranges whose token the table classifies — so
/// the spans plus the skipped tokens' ranges cover the text with no gap
/// and no overlap.
pub proof fn lemma_highlight_covers(s: Seq<char>)
    requires
        s.len() > 0,
        !has_invalid(engine_tokens_of(s)),
        lens_sum(engine_tokens_of(s)) == s.len(),
    ensures
        hl_spec(s, 0) == classified_spans(tiles_of_tokens(engine_tokens_of(s), 0)),
        tiles_of_tokens(engine_tokens_of(s), 0).len() == engine_tokens_of(s).len(),
        tiles_of_tokens(engine_tokens_of(s), 0)[0].start == 0,
        tiles_of_tokens(engine_tokens_of(s), 0).last().end == s.len(),
        forall|k: int|
            0 <= k < engine_tokens_of(s).len() - 1 ==> (#[trigger] tiles_of_tokens(
                engine_tokens_of(s),
                0,
            )[k + 1]).start == tiles_of_tokens(engine_tokens_of(s), 0)[k].end,
{
    let ts = engine_tokens_of(s);
    lemma_tiles_shape(ts, 0);
    lemma_spans_are_classified_tiles(ts, 0);
    if ts.len() == 0 {
        assert(lens_sum(ts) == 0);
    }
}

/// On text whose only lexical fault sits on one line — the prefix before
/// that line and the remainder after it both tokenize cleanly — the
/// highlighter tags exactly that line with one `ErrorLine` span, and
/// classifies the prefix and the remainder as it would on their own.
pub proof fn lemma_highlight_one_bad_line(s: Seq<char>)
    requires
        s.len() > 0,
        has_invalid(engine_tokens_of(s)),
        lens_sum(engine_tokens_of(s)) == s.len(),
        all_tokens_nonempty(engine_tokens_of(s)),
        !has_invalid(engine_tokens_of(s.subrange(0, bad_line_start(s)))),
        !has_invalid(engine_tokens_of(s.subrange(bad_line_end(s), s.len() as int))),
        lens_sum(engine_tokens_of(s.subrange(bad_line_end(s), s.len() as int))) == s.len()
            - bad_line_end(s),
        all_tokens_nonempty(engine_tokens_of(s.subrange(bad_line_end(s), s.len() as int))),
    ensures
        0 <= bad_line_start(s) <= first_bad_offset(s) < bad_line_end(s) <= s.len(),
        hl_spec(s, 0) == spans_of_tokens(engine_tokens_of(s.subrange(0, bad_line_start(s))), 0)
            + seq![
            GSpan { start: bad_line_start(s), end: bad_line_end(s), cat: Category::ErrorLine },
        ] + spans_of_tokens(
            engine_tokens_of(s.subrange(bad_line_end(s), s.len() as int)),
            bad_line_end(s),
        ),
{
    let ts = engine_tokens_of(s);
    let i = first_invalid_index(ts);
    crate::tokens::lemma_first_invalid_exists(ts);
    lemma_lens_sum_split(ts, i);
    lemma_lens_sum_nonneg(ts.take(i));
    assert(ts.skip(i)[0] == ts[i]);
    assert(ts.skip(i).drop_first() =~= ts.skip(i + 1));
    lemma_lens_sum_nonneg(ts.skip(i + 1));
    assert(ts[i].content.len() >= 1);
    let o = first_bad_offset(s);
    assert(0 <= o < s.len());
    lemma_line_start_of(s, o);
    lemma_nl_after(s, o);
    let ls = bad_line_start(s);
    let ns = bad_line_end(s);
    assert(o < ns <= s.len());
    let rest = s.subrange(ns, s.len() as int);
    let rts = engine_tokens_of(rest);
    if rest.len() == 0 {
        assert(lens_sum(rts) == 0);
        if rts.len() > 0 {
            assert(rts[0].content.len() >= 1);
            lemma_lens_sum_nonneg(rts.drop_first());
            assert(false);
        }
        assert(spans_of_tokens(rts, ns) == Seq::<GSpan>::empty());
        assert(hl_spec(rest, ns) == Seq::<GSpan>::empty());
    } else {
        assert(hl_spec(rest, ns) == spans_of_tokens(rts, ns));
    }
}

/// Highlighting keeps no hidden state: the spans are a function of the
/// text alone, so two runs of `highlight` on the same text return the
/// same span sequence.
pub proof fn lemma_highlight_deterministic(s: Seq<char>, r1: Seq<Span>, r2: Seq<Span>)
    requires
        span_models(r1) == hl_spec(s, 0),
        span_models(r2) == hl_spec(s, 0),
    ensures
        r1 == r2,
{
    assert(span_models(r1).len() == r1.len());
    assert(span_models(r2).len() == r2.len());
    assert forall|k: int| 0 <= k < r1.len() implies r1[k] == r2[k] by {
        assert(span_models(r1)[k] == span_model(r1[k]));
        assert(span_models(r2)[k] == span_model(r2[k]));
    }
    assert(r1 =~= r2);
}

} // verus!
