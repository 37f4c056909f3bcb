//! The token classification table and the token scans shared by the
//! highlighter and the task locator.

use vstd::prelude::*;

use nadi_core::parser::tokenizer::{TaskToken, Token};

use crate::engine::{date_literal_ok, datetime_literal_ok, time_literal_ok};
use crate::engine::{literal_parses, literals_parse, TokModel};

verus! {

/// Display category of one highlight span.
#[derive(Clone, Copy, Debug, PartialEq, Eq, Structural)]
pub enum Category {
    Comment,
    Keyword,
    FunctionName,
    Variable,
    BoolLit,
    StringLit,
    NumberLit,
    DateTimeLit,
    PathSep,
    AssignOp,
    /// A whole line the tokenizer could not scan.
    ErrorLine,
}

/// The classification table: display category of a token classifier, or
/// `None` for tokens that get no span (whitespace, newlines, and any
/// classifier the table does not know, so that new token kinds of the
/// engine stay unstyled rather than break the highlighter).
pub open spec fn spec_classify(ty: TaskToken) -> Option<Category> {
    match ty {
        TaskToken::Comment => Some(Category::Comment),
        TaskToken::Keyword(_) => Some(Category::Keyword),
        TaskToken::Function => Some(Category::FunctionName),
        TaskToken::Variable => Some(Category::Variable),
        TaskToken::Bool => Some(Category::BoolLit),
        TaskToken::String(_) => Some(Category::StringLit),
        TaskToken::Integer => Some(Category::NumberLit),
        TaskToken::Float => Some(Category::NumberLit),
        TaskToken::Date => Some(Category::DateTimeLit),
        TaskToken::Time => Some(Category::DateTimeLit),
        TaskToken::DateTime => Some(Category::DateTimeLit),
        TaskToken::PathSep => Some(Category::PathSep),
        TaskToken::Assignment => Some(Category::AssignOp),
        _ => None,
    }
}

/// Executable form of the classification table.
pub fn classify(ty: &TaskToken) -> (r: Option<Category>)
    ensures
        r == spec_classify(*ty),
{
    match ty {
        TaskToken::Comment => Some(Category::Comment),
        TaskToken::Keyword(_) => Some(Category::Keyword),
        TaskToken::Function => Some(Category::FunctionName),
        TaskToken::Variable => Some(Category::Variable),
        TaskToken::Bool => Some(Category::BoolLit),
        TaskToken::String(_) => Some(Category::StringLit),
        TaskToken::Integer => Some(Category::NumberLit),
        TaskToken::Float => Some(Category::NumberLit),
        TaskToken::Date => Some(Category::DateTimeLit),
        TaskToken::Time => Some(Category::DateTimeLit),
        TaskToken::DateTime => Some(Category::DateTimeLit),
        TaskToken::PathSep => Some(Category::PathSep),
        TaskToken::Assignment => Some(Category::AssignOp),
        _ => None,
    }
}

/// A token the tokenizer marks as unscannable (an invalid character, or
/// the reserved `<None>` marker): its presence is the engine's way of
/// reporting a lexical error.
pub open spec fn is_invalid_model(t: TokModel) -> bool {
    (t.ty matches TaskToken::Invalid(_)) || (t.ty matches TaskToken::None)
}

/// Whether any token of the sequence is invalid, i.e. whether the text
/// behind it fails to tokenize cleanly.
pub open spec fn has_invalid(ts: Seq<TokModel>) -> bool {
    exists|i: int| 0 <= i < ts.len() && is_invalid_model(ts[i])
}

/// `i` is the position of the first invalid token of the sequence.
pub open spec fn first_invalid_at(ts: Seq<TokModel>, i: int) -> bool {
    &&& 0 <= i < ts.len()
    &&& is_invalid_model(ts[i])
    &&& forall|j: int| 0 <= j < i ==> !is_invalid_model(ts[j])
}

/// Index of the first invalid token, if any.
pub fn first_invalid_idx(toks: &Vec<Token<'_>>) -> (r: Option<usize>)
    ensures
        match r {
            Some(i) => first_invalid_at(crate::engine::token_models(toks@), i as int),
            None => !has_invalid(crate::engine::token_models(toks@)),
        },
{
    let ghost ts = crate::engine::token_models(toks@);
    let mut i: usize = 0;
    while i < toks.len()
        invariant
            0 <= i <= toks.len(),
            ts == crate::engine::token_models(toks@),
            ts.len() == toks@.len(),
            forall|j: int| 0 <= j < i ==> !is_invalid_model(ts[j]),
        decreases toks.len() - i,
    {
        assert(ts[i as int] == crate::engine::token_model(toks@[i as int]));
        let inv = match &toks[i].ty {
            TaskToken::Invalid(_) => true,
            TaskToken::None => true,
            _ => false,
        };
        if inv {
            return Some(i);
        }
        i += 1;
    }
    None
}

/// Total number of characters the tokens cover.
pub open spec fn lens_sum(ts: Seq<TokModel>) -> int
    decreases ts.len(),
{
    if ts.len() == 0 {
        0
    } else {
        ts[0].content.len() + lens_sum(ts.drop_first())
    }
}

pub proof fn lemma_lens_sum_nonneg(ts: Seq<TokModel>)
    ensures
        lens_sum(ts) >= 0,
    decreases ts.len(),
{
    if ts.len() > 0 {
        lemma_lens_sum_nonneg(ts.drop_first());
    }
}

/// The characters the tokens cover are as many as the tokens' contents
/// concatenated.
pub proof fn lemma_concat_len(ts: Seq<TokModel>)
    ensures
        crate::engine::concat_contents(ts).len() == lens_sum(ts),
    decreases ts.len(),
{
    if ts.len() > 0 {
        lemma_concat_len(ts.drop_first());
    }
}

pub proof fn lemma_lens_sum_split(ts: Seq<TokModel>, i: int)
    requires
        0 <= i <= ts.len(),
    ensures
        lens_sum(ts) == lens_sum(ts.take(i)) + lens_sum(ts.skip(i)),
    decreases i,
{
    if i == 0 {
        assert(ts.take(0) =~= Seq::empty());
        assert(ts.skip(0) =~= ts);
    } else {
        lemma_lens_sum_split(ts.drop_first(), i - 1);
        assert(ts.take(i).drop_first() =~= ts.drop_first().take(i - 1));
        assert(ts.skip(i) =~= ts.drop_first().skip(i - 1));
        assert(ts.take(i)[0] == ts[0]);
        assert(lens_sum(ts.take(i)) == ts[0].content.len() + lens_sum(ts.drop_first().take(i - 1)));
    }
}

/// A token that ends a line.
pub open spec fn is_break_token(t: TokModel) -> bool {
    t.ty matches TaskToken::NewLine
}

/// How many line-break tokens the sequence holds.
pub open spec fn break_count(ts: Seq<TokModel>) -> int
    decreases ts.len(),
{
    if ts.len() == 0 {
        0
    } else {
        break_count(ts.drop_first()) + if is_break_token(ts[0]) {
            1int
        } else {
            0int
        }
    }
}

pub proof fn lemma_break_count_bounds(ts: Seq<TokModel>)
    ensures
        0 <= break_count(ts) <= ts.len(),
    decreases ts.len(),
{
    if ts.len() > 0 {
        lemma_break_count_bounds(ts.drop_first());
    }
}

pub proof fn lemma_break_count_snoc(ts: Seq<TokModel>, i: int)
    requires
        0 <= i < ts.len(),
    ensures
        break_count(ts.take(i + 1)) == break_count(ts.take(i)) + if is_break_token(ts[i]) {
            1int
        } else {
            0int
        },
    decreases i,
{
    if i == 0 {
        assert(ts.take(1) =~= seq![ts[0]]);
        assert(ts.take(0) =~= Seq::<TokModel>::empty());
        assert(seq![ts[0]].drop_first() =~= Seq::<TokModel>::empty());
    } else {
        lemma_break_count_snoc(ts.drop_first(), i - 1);
        assert(ts.take(i + 1).drop_first() =~= ts.drop_first().take(i));
        assert(ts.take(i).drop_first() =~= ts.drop_first().take(i - 1));
        assert(ts.take(i + 1)[0] == ts[0]);
        assert(ts.take(i)[0] == ts[0]);
        assert(ts.drop_first()[i - 1] == ts[i]);
    }
}

/// One past the last line-break token, or the start of the sequence.
pub open spec fn last_break_end(ts: Seq<TokModel>) -> int
    decreases ts.len(),
{
    if ts.len() == 0 {
        0
    } else if is_break_token(ts.last()) {
        ts.len() as int
    } else {
        last_break_end(ts.drop_last())
    }
}

pub proof fn lemma_last_break_end_bounds(ts: Seq<TokModel>)
    ensures
        0 <= last_break_end(ts) <= ts.len(),
    decreases ts.len(),
{
    if ts.len() > 0 && !is_break_token(ts.last()) {
        lemma_last_break_end_bounds(ts.drop_last());
    }
}

pub proof fn lemma_lens_sum_push(ts: Seq<TokModel>, t: TokModel)
    ensures
        lens_sum(ts.push(t)) == lens_sum(ts) + t.content.len(),
    decreases ts.len(),
{
    assert(ts.push(t).len() == ts.len() + 1);
    if ts.len() == 0 {
        assert(ts.push(t) =~= seq![t]);
        assert(seq![t][0] == t);
        assert(seq![t].drop_first() =~= Seq::<TokModel>::empty());
        assert(lens_sum(seq![t]) == t.content.len() + lens_sum(Seq::<TokModel>::empty()));
    } else {
        lemma_lens_sum_push(ts.drop_first(), t);
        assert(ts.push(t).drop_first() =~= ts.drop_first().push(t));
        assert(ts.push(t)[0] == ts[0]);
        assert(lens_sum(ts.push(t)) == ts[0].content.len() + lens_sum(ts.drop_first().push(t)));
        assert(lens_sum(ts) == ts[0].content.len() + lens_sum(ts.drop_first()));
    }
}

/// Line index and column offset of the token at position `cut`: how many
/// line breaks stand before it, and how many characters of its own line
/// stand before it.  This is where the engine's parser reports an error
/// whose unconsumed rest starts at `cut` (the engine counts lines from
/// one and columns from one in bytes; here both count from zero, in
/// characters).
pub open spec fn error_position_model(ts: Seq<TokModel>, cut: int) -> (int, int) {
    let cons = ts.take(cut);
    (break_count(cons), lens_sum(cons.skip(last_break_end(cons))))
}

/// Line index and column offset of the token at position `cut`.
pub fn error_position(toks: &Vec<Token<'_>>, cut: usize) -> (r: (usize, usize))
    requires
        cut <= toks@.len(),
        lens_sum(crate::engine::token_models(toks@)) <= usize::MAX,
    ensures
        r.0 as int == error_position_model(crate::engine::token_models(toks@), cut as int).0,
        r.1 as int == error_position_model(crate::engine::token_models(toks@), cut as int).1,
{
    let ghost ts = crate::engine::token_models(toks@);
    let mut line: usize = 0;
    let mut col: usize = 0;
    let mut i: usize = 0;
    proof {
        assert(ts.take(0) =~= Seq::<TokModel>::empty());
        assert(Seq::<TokModel>::empty().skip(0) =~= Seq::<TokModel>::empty());
        lemma_lens_sum_nonneg(ts);
    }
    while i < cut
        invariant
            ts == crate::engine::token_models(toks@),
            ts.len() == toks@.len(),
            0 <= i <= cut <= toks@.len(),
            lens_sum(ts) <= usize::MAX,
            line as int == break_count(ts.take(i as int)),
            col as int == lens_sum(ts.take(i as int).skip(last_break_end(ts.take(i as int)))),
            col as int <= lens_sum(ts.take(i as int)),
        decreases cut - i,
    {
        let ghost cons = ts.take(i as int);
        let ghost lbe = last_break_end(cons);
        proof {
            assert(ts[i as int] == crate::engine::token_model(toks@[i as int]));
            lemma_break_count_snoc(ts, i as int);
            lemma_break_count_bounds(ts.take(i as int + 1));
            lemma_last_break_end_bounds(cons);
            lemma_lens_sum_split(ts, i as int + 1);
            lemma_lens_sum_nonneg(ts.skip(i as int + 1));
            lemma_lens_sum_nonneg(ts.take(i as int + 1));
            assert(ts.take(i as int + 1) =~= cons.push(ts[i as int]));
            lemma_lens_sum_push(cons, ts[i as int]);
        }
        let brk = match &toks[i].ty {
            TaskToken::NewLine => true,
            _ => false,
        };
        if brk {
            line = line + 1;
            col = 0;
            proof {
                assert(last_break_end(ts.take(i as int + 1)) == i + 1);
                assert(ts.take(i as int + 1).skip(i as int + 1) =~= Seq::<TokModel>::empty());
            }
        } else {
            proof {
                assert(ts.take(i as int + 1).drop_last() =~= cons);
                assert(last_break_end(ts.take(i as int + 1)) == lbe);
                assert(ts.take(i as int + 1).skip(lbe) =~= cons.skip(lbe).push(ts[i as int]));
                lemma_lens_sum_push(cons.skip(lbe), ts[i as int]);
                lemma_lens_sum_split(cons, lbe);
                lemma_lens_sum_nonneg(cons.take(lbe));
            }
            let w = toks[i].content.unicode_len();
            col = col + w;
        }
        i += 1;
    }
    (line, col)
}

/// Position of the first invalid token, as a function of the sequence.
pub open spec fn first_invalid_index(ts: Seq<TokModel>) -> int
    decreases ts.len(),
{
    if ts.len() == 0 {
        0
    } else if is_invalid_model(ts[0]) {
        0
    } else {
        1 + first_invalid_index(ts.drop_first())
    }
}

pub proof fn lemma_first_invalid_index(ts: Seq<TokModel>, i: int)
    requires
        first_invalid_at(ts, i),
    ensures
        first_invalid_index(ts) == i,
    decreases i,
{
    if i > 0 {
        assert(first_invalid_at(ts.drop_first(), i - 1)) by {
            assert(forall|j: int|
                0 <= j < i - 1 ==> ts.drop_first()[j] == ts[j + 1] && !is_invalid_model(ts[j + 1]));
        }
        lemma_first_invalid_index(ts.drop_first(), i - 1);
    }
}

pub proof fn lemma_first_invalid_exists(ts: Seq<TokModel>)
    requires
        has_invalid(ts),
    ensures
        first_invalid_at(ts, first_invalid_index(ts)),
    decreases ts.len(),
{
    if ts.len() > 0 && !is_invalid_model(ts[0]) {
        assert(has_invalid(ts.drop_first())) by {
            let i = choose|i: int| 0 <= i < ts.len() && is_invalid_model(ts[i]);
            assert(ts.drop_first()[i - 1] == ts[i]);
        }
        lemma_first_invalid_exists(ts.drop_first());
        let fi = first_invalid_index(ts.drop_first());
        assert(ts[fi + 1] == ts.drop_first()[fi]);
        assert(forall|j: int|
            0 <= j < fi + 1 ==> #[trigger] is_invalid_model(ts[j]) == (if j == 0 {
                is_invalid_model(ts[0])
            } else {
                is_invalid_model(ts.drop_first()[j - 1])
            }));
    }
}

/// `i` is the position of the first date, time or datetime literal the
/// engine rejects.
pub open spec fn first_bad_literal_at(ts: Seq<TokModel>, i: int) -> bool {
    &&& 0 <= i < ts.len()
    &&& !literal_parses(ts[i])
    &&& forall|j: int| 0 <= j < i ==> literal_parses(ts[j])
}

/// Position of the first rejected literal, as a function of the
/// sequence.
pub open spec fn first_bad_literal_index(ts: Seq<TokModel>) -> int
    decreases ts.len(),
{
    if ts.len() == 0 {
        0
    } else if !literal_parses(ts[0]) {
        0
    } else {
        1 + first_bad_literal_index(ts.drop_first())
    }
}

pub proof fn lemma_first_bad_literal_index(ts: Seq<TokModel>, i: int)
    requires
        first_bad_literal_at(ts, i),
    ensures
        first_bad_literal_index(ts) == i,
    decreases i,
{
    if i > 0 {
        assert(first_bad_literal_at(ts.drop_first(), i - 1)) by {
            assert(forall|j: int|
                0 <= j < i - 1 ==> ts.drop_first()[j] == ts[j + 1] && literal_parses(ts[j + 1]));
        }
        lemma_first_bad_literal_index(ts.drop_first(), i - 1);
    }
}

/// Index of the first date, time or datetime literal the engine rejects,
/// if any — the screen that must pass before the tokens may be handed to
/// the engine's statement parser.
pub fn first_bad_literal_idx(toks: &Vec<Token<'_>>) -> (r: Option<usize>)
    ensures
        match r {
            Some(i) => first_bad_literal_at(crate::engine::token_models(toks@), i as int),
            None => literals_parse(crate::engine::token_models(toks@)),
        },
{
    let ghost ts = crate::engine::token_models(toks@);
    let mut i: usize = 0;
    while i < toks.len()
        invariant
            ts == crate::engine::token_models(toks@),
            ts.len() == toks@.len(),
            0 <= i <= toks.len(),
            forall|j: int| 0 <= j < i ==> literal_parses(ts[j]),
        decreases toks.len() - i,
    {
        proof {
            assert(ts[i as int] == crate::engine::token_model(toks@[i as int]));
        }
        let ok = match &toks[i].ty {
            TaskToken::Date => date_literal_ok(toks[i].content),
            TaskToken::Time => time_literal_ok(toks[i].content),
            TaskToken::DateTime => datetime_literal_ok(toks[i].content),
            _ => true,
        };
        if !ok {
            proof {
                assert(!literal_parses(ts[i as int]));
            }
            return Some(i);
        }
        i += 1;
    }
    None
}

/// A token the start-of-statement check looks at: anything but plain
/// whitespace or a newline.
pub open spec fn is_significant(t: TokModel) -> bool {
    !(t.ty matches TaskToken::WhiteSpace) && !(t.ty matches TaskToken::NewLine)
}

/// `i` is the position of the first significant token of the sequence.
pub open spec fn first_significant_at(ts: Seq<TokModel>, i: int) -> bool {
    &&& 0 <= i < ts.len()
    &&& is_significant(ts[i])
    &&& forall|j: int| 0 <= j < i ==> !is_significant(ts[j])
}

/// Whether any token of the sequence is significant.
pub open spec fn has_significant(ts: Seq<TokModel>) -> bool {
    exists|i: int| 0 <= i < ts.len() && is_significant(ts[i])
}

/// Position of the first significant token, as a function of the
/// sequence.
pub open spec fn first_significant_index(ts: Seq<TokModel>) -> int
    decreases ts.len(),
{
    if ts.len() == 0 {
        0
    } else if is_significant(ts[0]) {
        0
    } else {
        1 + first_significant_index(ts.drop_first())
    }
}

pub proof fn lemma_first_significant_index(ts: Seq<TokModel>, i: int)
    requires
        first_significant_at(ts, i),
    ensures
        first_significant_index(ts) == i,
    decreases i,
{
    if i > 0 {
        assert(first_significant_at(ts.drop_first(), i - 1)) by {
            assert(forall|j: int|
                0 <= j < i - 1 ==> ts.drop_first()[j] == ts[j + 1] && !is_significant(ts[j + 1]));
        }
        lemma_first_significant_index(ts.drop_first(), i - 1);
    }
}

/// Index of the first significant token, if any.
pub fn first_significant_idx(toks: &Vec<Token<'_>>) -> (r: Option<usize>)
    ensures
        match r {
            Some(i) => first_significant_at(crate::engine::token_models(toks@), i as int),
            None => forall|j: int|
                0 <= j < crate::engine::token_models(toks@).len() ==> !is_significant(
                    crate::engine::token_models(toks@)[j],
                ),
        },
{
    let ghost ts = crate::engine::token_models(toks@);
    let mut i: usize = 0;
    while i < toks.len()
        invariant
            0 <= i <= toks.len(),
            ts == crate::engine::token_models(toks@),
            ts.len() == toks@.len(),
            forall|j: int| 0 <= j < i ==> !is_significant(ts[j]),
        decreases toks.len() - i,
    {
        assert(ts[i as int] == crate::engine::token_model(toks@[i as int]));
        let sig = match &toks[i].ty {
            TaskToken::WhiteSpace => false,
            TaskToken::NewLine => false,
            _ => true,
        };
        if sig {
            return Some(i);
        }
        i += 1;
    }
    None
}

} // verus!
