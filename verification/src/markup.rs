//! Markup text for a token, as fed to the terminal pane.
//!
//! A token is rendered as a coloured markup element around its text,
//! with the three characters the markup language reserves escaped.  The
//! colour string comes from the caller (the engine assigns one per token
//! kind); building and escaping the markup is this module's own logic.

use vstd::prelude::*;

use nadi_core::parser::tokenizer::{TaskToken, Token};

use crate::engine::{color_of, engine_tokens_of, token_models, TokModel};

verus! {

/// How one character is escaped in markup text.
pub open spec fn escape_one(c: char) -> Seq<char> {
    if c == '&' {
        seq!['&', 'a', 'm', 'p', ';']
    } else if c == '<' {
        seq!['&', 'l', 't', ';']
    } else if c == '>' {
        seq!['&', 'g', 't', ';']
    } else {
        seq![c]
    }
}

/// The text with every reserved markup character escaped.
pub open spec fn escape_spec(s: Seq<char>) -> Seq<char>
    decreases s.len(),
{
    if s.len() == 0 {
        Seq::empty()
    } else {
        escape_one(s[0]) + escape_spec(s.drop_first())
    }
}

/// Escaping a text one character longer appends that character's
/// escape.
pub proof fn lemma_escape_snoc(s: Seq<char>, i: int)
    requires
        0 <= i < s.len(),
    ensures
        escape_spec(s.take(i + 1)) == escape_spec(s.take(i)) + escape_one(s[i]),
    decreases i,
{
    if i == 0 {
        assert(s.take(1) =~= seq![s[0]]);
        assert(s.take(0) =~= Seq::<char>::empty());
        assert(seq![s[0]].drop_first() =~= Seq::<char>::empty());
        assert(escape_spec(seq![s[0]]) == escape_one(s[0]) + escape_spec(Seq::<char>::empty()));
        assert(escape_one(s[0]) + escape_spec(Seq::<char>::empty()) =~= escape_one(s[0]));
        assert(escape_spec(s.take(0)) + escape_one(s[0]) =~= escape_one(s[0]));
    } else {
        lemma_escape_snoc(s.drop_first(), i - 1);
        assert(s.take(i + 1).drop_first() =~= s.drop_first().take(i));
        assert(s.take(i).drop_first() =~= s.drop_first().take(i - 1));
        assert(s.take(i + 1)[0] == s[0]);
        assert(s.take(i)[0] == s[0]);
        assert(s.drop_first()[i - 1] == s[i]);
        assert(escape_spec(s.take(i + 1)) == escape_one(s[0]) + escape_spec(s.drop_first().take(i)));
        assert(escape_spec(s.take(i)) == escape_one(s[0]) + escape_spec(s.drop_first().take(i - 1)));
        assert(escape_one(s[0]) + (escape_spec(s.drop_first().take(i - 1)) + escape_one(s[i]))
            =~= (escape_one(s[0]) + escape_spec(s.drop_first().take(i - 1))) + escape_one(s[i]));
    }
}

/// The text with `&`, `<` and `>` escaped for markup.
pub fn escape_markup(text: &str) -> (r: String)
    ensures
        r@ == escape_spec(text@),
{
    let ghost s = text@;
    let n = text.unicode_len();
    let mut r = String::new();
    let mut i: usize = 0;
    proof {
        assert(s.take(0) =~= Seq::<char>::empty());
    }
    while i < n
        invariant
            s == text@,
            n == s.len(),
            i <= n,
            r@ == escape_spec(s.take(i as int)),
        decreases n - i,
    {
        proof {
            lemma_escape_snoc(s, i as int);
        }
        let c = text.get_char(i);
        if c == '&' {
            r.append("&amp;");
            proof {
                reveal_strlit("&amp;");
                assert("&amp;"@ =~= escape_one(c));
            }
        } else if c == '<' {
            r.append("&lt;");
            proof {
                reveal_strlit("&lt;");
                assert("&lt;"@ =~= escape_one(c));
            }
        } else if c == '>' {
            r.append("&gt;");
            proof {
                reveal_strlit("&gt;");
                assert("&gt;"@ =~= escape_one(c));
            }
        } else {
            let piece = text.substring_char(i, i + 1);
            r.append(piece);
            proof {
                assert(piece@ =~= escape_one(c));
            }
        }
        i += 1;
    }
    proof {
        assert(s.take(n as int) =~= s);
    }
    r
}

/// The markup text of one token: an element carrying the colour, around
/// the token's escaped text.
pub fn token_markup(color: &str, content: &str) -> (r: String)
    ensures
        r@ == "<span foreground=\""@ + color@ + "\">"@ + escape_spec(content@) + "</span>"@,
{
    let mut r = String::new();
    r.append("<span foreground=\"");
    r.append(color);
    r.append("\">");
    let esc = escape_markup(content);
    r.append(esc.as_str());
    r.append("</span>");
    r
}

/// The markup of one token, in the colour the engine gives its kind.
pub open spec fn token_markup_model(t: TokModel) -> Seq<char> {
    "<span foreground=\""@ + color_of(t.ty) + "\">"@ + escape_spec(t.content) + "</span>"@
}

/// The markup of a token sequence: each token's markup, in order.
pub open spec fn tokens_markup_model(ts: Seq<TokModel>) -> Seq<char>
    decreases ts.len(),
{
    if ts.len() == 0 {
        Seq::empty()
    } else {
        token_markup_model(ts[0]) + tokens_markup_model(ts.drop_first())
    }
}

/// The markup of a sequence one token longer appends that token's
/// markup.
pub proof fn lemma_tokens_markup_snoc(ts: Seq<TokModel>, i: int)
    requires
        0 <= i < ts.len(),
    ensures
        tokens_markup_model(ts.take(i + 1)) == tokens_markup_model(ts.take(i)) + token_markup_model(
            ts[i],
        ),
    decreases i,
{
    if i == 0 {
        assert(ts.take(1) =~= seq![ts[0]]);
        assert(ts.take(0) =~= Seq::<TokModel>::empty());
        assert(seq![ts[0]].drop_first() =~= Seq::<TokModel>::empty());
        assert(tokens_markup_model(seq![ts[0]]) == token_markup_model(ts[0]) + tokens_markup_model(
            Seq::<TokModel>::empty(),
        ));
        assert(token_markup_model(ts[0]) + tokens_markup_model(Seq::<TokModel>::empty())
            =~= token_markup_model(ts[0]));
        assert(tokens_markup_model(ts.take(0)) + token_markup_model(ts[0]) =~= token_markup_model(
            ts[0],
        ));
    } else {
        lemma_tokens_markup_snoc(ts.drop_first(), i - 1);
        assert(ts.take(i + 1).drop_first() =~= ts.drop_first().take(i));
        assert(ts.take(i).drop_first() =~= ts.drop_first().take(i - 1));
        assert(ts.take(i + 1)[0] == ts[0]);
        assert(ts.take(i)[0] == ts[0]);
        assert(ts.drop_first()[i - 1] == ts[i]);
        assert(tokens_markup_model(ts.take(i + 1)) == token_markup_model(ts[0])
            + tokens_markup_model(ts.drop_first().take(i)));
        assert(tokens_markup_model(ts.take(i)) == token_markup_model(ts[0]) + tokens_markup_model(
            ts.drop_first().take(i - 1),
        ));
        assert(token_markup_model(ts[0]) + (tokens_markup_model(ts.drop_first().take(i - 1))
            + token_markup_model(ts[i])) =~= (token_markup_model(ts[0]) + tokens_markup_model(
            ts.drop_first().take(i - 1),
        )) + token_markup_model(ts[i]));
    }
}

/// The markup of every token of a sequence, each in the engine's colour
/// for its kind, as the terminal pane shows a statement being run.
#[allow(deprecated)]
pub fn tokens_markup(toks: &Vec<Token<'_>>) -> (r: String)
    ensures
        r@ == tokens_markup_model(token_models(toks@)),
{
    let ghost ts = token_models(toks@);
    let mut r = String::new();
    let mut i: usize = 0;
    proof {
        assert(ts.take(0) =~= Seq::<TokModel>::empty());
    }
    while i < toks.len()
        invariant
            ts == token_models(toks@),
            ts.len() == toks@.len(),
            i <= toks@.len(),
            r@ == tokens_markup_model(ts.take(i as int)),
        decreases toks@.len() - i,
    {
        proof {
            lemma_tokens_markup_snoc(ts, i as int);
            assert(ts[i as int] == crate::engine::token_model(toks@[i as int]));
        }
        let color = toks[i].ty.syntax_color();
        let piece = token_markup(color, toks[i].content);
        r.append(piece.as_str());
        i += 1;
    }
    proof {
        assert(ts.take(toks@.len() as int) =~= ts);
    }
    r
}

/// The markup of a whole text, token by token.
pub fn text_markup(text: &str) -> (r: String)
    ensures
        r@ == tokens_markup_model(engine_tokens_of(text@)),
{
    let toks = nadi_core::parser::tokenizer::get_tokens(text);
    tokens_markup(&toks)
}

} // verus!
