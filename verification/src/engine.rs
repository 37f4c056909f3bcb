//! Trusted surface of the nadi engine (`nadi_core`).
//!
//! The engine owns the tokenizer and the parser of the task-script
//! language; this module declares their types to the verifier and states
//! the contracts the rest of the library is proved against.  Nothing
//! else in the crate calls the engine directly.

use vstd::prelude::*;

use nadi_core::parser::tokenizer::{TaskToken, Token};
use nadi_core::tasks::{Task, TaskKeyword};

verus! {

/// Keyword classifier of the engine's tokenizer; all variants are plain.
#[verifier::external_type_specification]
pub struct ExTaskKeyword(TaskKeyword);

/// Token classifier of the engine's tokenizer; all variants are plain.
#[verifier::external_type_specification]
pub struct ExTaskToken(TaskToken);

/// One lexical token: a classifier and the slice of text it covers.
#[verifier::external_type_specification]
pub struct ExToken<'a>(Token<'a>);

/// One parsed statement of the engine's script language.  The library
/// only carries parsed tasks through to its caller, so the type stays
/// opaque here.
#[verifier::external_type_specification]
#[verifier::external_body]
pub struct ExTask(Task);

/// Mathematical value of one token: its classifier and the characters of
/// the text it covers.  A token of the engine carries nothing else, so a
/// sequence of these values determines every later engine computation on
/// the tokens.
pub ghost struct TokModel {
    pub ty: TaskToken,
    pub content: Seq<char>,
}

pub open spec fn token_model<'a>(t: Token<'a>) -> TokModel {
    TokModel { ty: t.ty, content: t.content@ }
}

pub open spec fn token_models<'a>(ts: Seq<Token<'a>>) -> Seq<TokModel> {
    ts.map_values(|t: Token<'a>| token_model(t))
}

/// The token sequence the engine's tokenizer returns for a text.  The
/// tokenizer is a total function of the text alone; this name stands for
/// its result in every contract.
pub uninterp spec fn engine_tokens_of(s: Seq<char>) -> Seq<TokModel>;

/// Concatenation of the text covered by each token.
pub open spec fn concat_contents(ts: Seq<TokModel>) -> Seq<char>
    decreases ts.len(),
{
    if ts.len() == 0 {
        Seq::empty()
    } else {
        ts[0].content + concat_contents(ts.drop_first())
    }
}

/// Every token covers at least one character.
pub open spec fn all_tokens_nonempty(ts: Seq<TokModel>) -> bool {
    forall|i: int| 0 <= i < ts.len() ==> ts[i].content.len() >= 1
}

/// Outcome of the engine's parser on a token sequence, reduced to what
/// the scanner reads of it: how many statements it parsed and how many
/// tokens it left unconsumed, or — for a failure — whether the input is
/// an incomplete prefix (`Unclosed`) rather than malformed, and how many
/// tokens were left at the error.
pub ghost enum ParseKind {
    Statements(nat, nat),
    Unclosed(nat),
    Failed(nat),
}

/// A parse outcome carried into verified code: the parsed statements
/// with the number of leftover tokens, or the kind of failure with the
/// number of tokens left at the error.
pub enum EngineParse {
    Statements(Vec<Task>, usize),
    Unclosed(usize),
    Failed(usize),
}

/// The outcome the engine's parser returns for a token sequence.  The
/// parser is a function of the tokens alone; this name stands for its
/// outcome in every contract.
pub uninterp spec fn engine_parse_of(ts: Seq<TokModel>) -> ParseKind;

/// The display colour the engine assigns a token classifier: a fixed
/// table keyed on the classifier alone.
pub uninterp spec fn color_of(ty: TaskToken) -> Seq<char>;

/// Whether the engine's calendar accepts the text of a date token.
pub uninterp spec fn date_parses(s: Seq<char>) -> bool;

/// Whether the engine's clock accepts the text of a time token.
pub uninterp spec fn time_parses(s: Seq<char>) -> bool;

/// Whether the engine accepts the text of a datetime token.
pub uninterp spec fn datetime_parses(s: Seq<char>) -> bool;

/// The engine's parser converts a date, time or datetime literal with an
/// unchecked unwrap, so a literal whose fields its calendar rejects (a
/// month of ninety-nine, say) aborts the process.  This token carries no
/// such literal.
pub open spec fn literal_parses(t: TokModel) -> bool {
    match t.ty {
        TaskToken::Date => date_parses(t.content),
        TaskToken::Time => time_parses(t.content),
        TaskToken::DateTime => datetime_parses(t.content),
        _ => true,
    }
}

/// No token of the sequence carries a date, time or datetime literal the
/// engine rejects: the condition under which its parser returns rather
/// than aborts.
pub open spec fn literals_parse(ts: Seq<TokModel>) -> bool {
    forall|i: int| 0 <= i < ts.len() ==> literal_parses(ts[i])
}

/// Relies on `Date::from_str` of the engine: whether a date literal's
/// fields are in range (month 1 to 12, day 1 to 31); a total function of
/// the characters alone, never panicking itself.
#[verifier::external_body]
pub(crate) fn date_literal_ok(s: &str) -> (r: bool)
    ensures
        r == date_parses(s@),
{
    <nadi_core::attrs::Date as core::str::FromStr>::from_str(s).is_ok()
}

/// Relies on `Time::from_str` of the engine: whether a time literal's
/// fields are in range (hour below 24, minute and second below 60); a
/// total function of the characters alone, never panicking itself.
#[verifier::external_body]
pub(crate) fn time_literal_ok(s: &str) -> (r: bool)
    ensures
        r == time_parses(s@),
{
    <nadi_core::attrs::Time as core::str::FromStr>::from_str(s).is_ok()
}

/// Relies on `DateTime::from_str` of the engine: whether a datetime
/// literal holds a date and a time the engine accepts; a total function
/// of the characters alone, never panicking itself.
#[verifier::external_body]
pub(crate) fn datetime_literal_ok(s: &str) -> (r: bool)
    ensures
        r == datetime_parses(s@),
{
    <nadi_core::attrs::DateTime as core::str::FromStr>::from_str(s).is_ok()
}

/// Relies on `TaskToken::syntax_color`: the display colour of a token,
/// read off the classifier alone.
#[allow(deprecated)]
pub assume_specification[ TaskToken::syntax_color ](ty: &TaskToken) -> (r: &'static str)
    ensures
        r@ == color_of(*ty),
;

/// Relies on `nadi_core::parser::tokenizer::get_tokens`: the tokenizer
/// never fails; its tokens are consecutive slices of the input, so their
/// contents concatenated give the input back, and each consumes at least
/// one character (invalid characters become one-character `Invalid`
/// tokens rather than an error).
pub assume_specification<'a>[ nadi_core::parser::tokenizer::get_tokens ](
    txt: &'a str,
) -> (r: Vec<Token<'a>>)
    ensures
        token_models(r@) == engine_tokens_of(txt@),
        concat_contents(token_models(r@)) == txt@,
        all_tokens_nonempty(token_models(r@)),
;

/// Relies on `nadi_core::parser::tasks::tasks`, the engine's statement
/// parser: it returns the statements it parsed together with the tokens
/// it did not consume, or fails with an error whose kind is `Unclosed`
/// exactly when the tokens are an incomplete prefix of a statement, and
/// whose remaining input — a suffix of the tokens, from which the error's
/// line and column follow — is carried out as its length; the
/// outcome depends on the token values alone, and on no tokens at all it
/// parses zero statements with nothing left over (the statement list is
/// a possibly empty newline-separated list).  The engine's `parse` entry
/// point is this parser followed by a leftover check, but that check can
/// abort the process when the leftover itself starts a statement, so the
/// leftover handling lives in the callers here instead.  The parser
/// converts date, time and datetime literals with unchecked unwraps and
/// aborts on one its calendar rejects, so the callers screen the tokens
/// first; the `requires` states that screen.
#[verifier::external_body]
pub(crate) fn engine_tasks(toks: &Vec<Token<'_>>) -> (r: EngineParse)
    requires
        literals_parse(token_models(toks@)),
    ensures
        match engine_parse_of(token_models(toks@)) {
            ParseKind::Statements(n, k) => r matches EngineParse::Statements(v, left) && v@.len()
                == n && left == k,
            ParseKind::Unclosed(k) => r matches EngineParse::Unclosed(left) && left == k,
            ParseKind::Failed(k) => r matches EngineParse::Failed(left) && left == k,
        },
        match r {
            EngineParse::Statements(v, left) => left <= toks@.len() && (token_models(toks@).len()
                == 0 ==> v@.len() == 0 && left == 0),
            EngineParse::Unclosed(left) => left <= toks@.len() && token_models(toks@).len() > 0,
            EngineParse::Failed(left) => left <= toks@.len() && token_models(toks@).len() > 0,
        },
{
    match nadi_core::parser::tasks::tasks(toks.as_slice()) {
        Ok((rest, v)) => EngineParse::Statements(v, rest.len()),
        Err(nom::Err::Error(e)) | Err(nom::Err::Failure(e)) => match e.ty {
            nadi_core::parser::ParseErrorType::Unclosed(_) => EngineParse::Unclosed(
                e.internal.input.len(),
            ),
            _ => EngineParse::Failed(e.internal.input.len()),
        },
        Err(nom::Err::Incomplete(_)) => EngineParse::Failed(0),
    }
}

} // verus!
