//! Tokenizing keeps what a text says: the tokens of any text, spelled out
//! again, tokenize to themselves.

use vstd::prelude::*;
use crate::syntax::grammar::{
    first_lexeme, in_string, in_word, is_word_char, lemma_run_length_bounds, lemma_step_bounds,
    run_length, scan, Lexeme,
};
use crate::syntax::laws::{is_word, lemma_digits_lexeme, lemma_quoted_lexeme, lemma_word_lexeme};
use crate::syntax::number::lemma_decimal_round_trip;
use crate::syntax::spelling::{contents, quote_for, spell};
use crate::syntax::token::{
    classify_word, keyword_of, Keyword, LiteralView, TokenDataView, TokenView,
};

verus! {

/// What holds of every token the tokenizer emits: an identifier is a word
/// that is neither reserved nor a boolean; a string has no line break in it
/// and not both kinds of quote; an `Int` is not negative; a `Long` is above
/// the 32-bit range.
pub open spec fn well_formed(data: TokenDataView) -> bool {
    match data {
        TokenDataView::Identifier(name) => {
            &&& is_word(name)
            &&& classify_word(name) == TokenDataView::Identifier(name)
        },
        TokenDataView::Literal(LiteralView::String(body)) => {
            &&& !body.contains('\n')
            &&& !(body.contains('\'') && body.contains('"'))
        },
        TokenDataView::Literal(LiteralView::Int(v)) => v >= 0,
        TokenDataView::Literal(LiteralView::Long(v)) => v > i32::MAX,
        _ => true,
    }
}

/// The reserved words and the two booleans are words, each stands for
/// itself, and no two of them are the same.
pub proof fn lemma_reserved_words()
    ensures
        forall|k: Keyword|
            is_word(#[trigger] k.spelling()) && classify_word(k.spelling())
                == TokenDataView::Keyword(k),
        is_word("true"@) && classify_word("true"@) == TokenDataView::Literal(
            LiteralView::Boolean(true),
        ),
        is_word("false"@) && classify_word("false"@) == TokenDataView::Literal(
            LiteralView::Boolean(false),
        ),
{
    reveal_strlit("fn");
    reveal_strlit("if");
    reveal_strlit("let");
    reveal_strlit("for");
    reveal_strlit("return");
    reveal_strlit("switch");
    reveal_strlit("true");
    reveal_strlit("false");
    assert("if"@[0] != "fn"@[0]);
    assert("for"@[0] != "let"@[0]);
    assert("switch"@[0] != "return"@[0]);
    assert forall|k: Keyword|
        is_word(#[trigger] k.spelling()) && classify_word(k.spelling()) == TokenDataView::Keyword(
            k,
        ) by {
        let w = k.spelling();
        assert(w.len() <= 6);
        assert(keyword_of(w) == Some(k));
    }
}

/// The spelling of a well-formed token, before a space or the end of the
/// text, is one lexeme, and the lexeme is that token.
pub proof fn lemma_spelling_lexeme(data: TokenDataView, rest: Seq<char>)
    requires
        well_formed(data),
        rest.len() == 0 || rest[0] == ' ',
    ensures
        data.spelling().len() > 0,
        first_lexeme(data.spelling() + rest).used == data.spelling().len(),
        first_lexeme(data.spelling() + rest).lexeme matches Lexeme::Token { data: d, extra }
            && d == data,
        (data.spelling() + rest).skip(data.spelling().len() as int) == rest,
{
    let text = data.spelling();
    let s = text + rest;
    match data {
        TokenDataView::Identifier(name) => {
            lemma_word_lexeme(name, rest);
        },
        TokenDataView::Keyword(k) => {
            lemma_reserved_words();
            lemma_word_lexeme(k.spelling(), rest);
        },
        TokenDataView::Literal(LiteralView::Boolean(b)) => {
            lemma_reserved_words();
            lemma_word_lexeme(text, rest);
        },
        TokenDataView::Separator(sep) => {
            assert(s[0] == sep.symbol());
            assert(s.skip(1) =~= rest);
        },
        TokenDataView::Operator(op) => {
            assert(s[0] == op.symbol());
            assert(s.skip(1) =~= rest);
            assert(s.drop_first() =~= rest);
        },
        TokenDataView::Literal(LiteralView::String(body)) => {
            let quote = quote_for(body);
            assert forall|i: int| 0 <= i < body.len() implies body[i] != quote
                && #[trigger] body[i] != '\n' by {
                if body[i] == '\n' {
                    assert(body.contains('\n'));
                }
                if body[i] == quote {
                    assert(body.contains(quote));
                }
            }
            lemma_quoted_lexeme(quote, body, rest);
            assert(seq![quote] + body + seq![quote] + rest =~= s);
        },
        TokenDataView::Literal(LiteralView::Int(v)) => {
            lemma_decimal_round_trip(v as nat);
            lemma_digits_lexeme(text, rest);
        },
        TokenDataView::Literal(LiteralView::Long(v)) => {
            lemma_decimal_round_trip(v as nat);
            lemma_digits_lexeme(text, rest);
        },
    }
}

/// The lexeme at the front of a text, if it is a token, is well formed.
pub proof fn lemma_lexeme_well_formed(s: Seq<char>)
    requires
        s.len() > 0,
    ensures
        first_lexeme(s).lexeme matches Lexeme::Token { data, extra } ==> well_formed(data),
{
    let step = first_lexeme(s);
    let after = s.drop_first();
    if let Lexeme::Token { data, extra } = step.lexeme {
        match data {
            TokenDataView::Identifier(name) => {
                lemma_run_length_bounds(after, in_word());
                let n = 1 + run_length(after, in_word());
                let w = s.take(n as int);
                assert(name == w);
                assert forall|i: int| 0 <= i < w.len() implies is_word_char(#[trigger] w[i]) by {
                    if i > 0 {
                        assert(w[i] == after[i - 1]);
                        assert(in_word()(after[i - 1]));
                    }
                }
            },
            TokenDataView::Literal(LiteralView::String(body)) => {
                let quote = s[0];
                lemma_run_length_bounds(after, in_string(quote));
                let n = run_length(after, in_string(quote));
                assert(body == after.take(n as int));
                assert forall|i: int| 0 <= i < body.len() implies body[i] != quote
                    && #[trigger] body[i] != '\n' by {
                    assert(body[i] == after[i]);
                    assert(in_string(quote)(after[i]));
                }
            },
            _ => {},
        }
    }
}

/// Every token of a run is well formed.
pub proof fn law_tokens_well_formed(s: Seq<char>, line: nat, col: nat)
    ensures
        forall|i: int|
            0 <= i < scan(s, line, col).tokens.len() ==> well_formed(
                #[trigger] scan(s, line, col).tokens[i].data,
            ),
    decreases s.len(),
{
    if s.len() > 0 {
        let step = first_lexeme(s);
        lemma_step_bounds(s);
        lemma_lexeme_well_formed(s);
        let rest = s.skip(step.used as int);
        match step.lexeme {
            Lexeme::Fault { kind } => {},
            Lexeme::Blank => {
                law_tokens_well_formed(rest, line, col + 1);
            },
            Lexeme::LineBreak => {
                law_tokens_well_formed(rest, line + 1, 0);
            },
            Lexeme::Token { data, extra } => {
                law_tokens_well_formed(rest, line, col + 1 + extra);
            },
        }
    }
}

/// Well-formed tokens, spelled out with one space between each two,
/// tokenize to themselves: without fault, to the end of the text, from any
/// position.
pub proof fn law_spelled_tokens(tokens: Seq<TokenDataView>, line: nat, col: nat)
    requires
        forall|i: int| 0 <= i < tokens.len() ==> well_formed(#[trigger] tokens[i]),
    ensures
        scan(spell(tokens), line, col).error is None,
        scan(spell(tokens), line, col).rest.len() == 0,
        contents(scan(spell(tokens), line, col).tokens) == tokens,
    decreases tokens.len(),
{
    if tokens.len() == 0 {
        assert(contents(scan(spell(tokens), line, col).tokens) =~= tokens);
    } else {
        let first = tokens[0];
        let others = tokens.drop_first();
        let rest = if others.len() == 0 {
            Seq::<char>::empty()
        } else {
            seq![' '] + spell(others)
        };
        let text = spell(tokens);
        assert(text =~= first.spelling() + rest);
        lemma_spelling_lexeme(first, rest);
        lemma_step_bounds(text);
        let extra = first_lexeme(text).lexeme->extra;
        let run = scan(text, line, col);
        let then = scan(rest, line, col + 1 + extra);
        assert(run.tokens == seq![TokenView { line, col: col + 1, data: first }] + then.tokens);
        if others.len() == 0 {
            assert(contents(run.tokens) =~= tokens);
        } else {
            assert(rest[0] == ' ');
            assert(rest.skip(1) =~= spell(others));
            lemma_step_bounds(rest);
            assert forall|i: int| 0 <= i < others.len() implies well_formed(
                #[trigger] others[i],
            ) by {
                assert(others[i] == tokens[i + 1]);
            }
            law_spelled_tokens(others, line, col + 1 + extra + 1);
            let last = scan(spell(others), line, col + 1 + extra + 1);
            assert(then.tokens =~= last.tokens);
            assert(contents(run.tokens).len() == tokens.len());
            assert forall|i: int| 0 <= i < tokens.len() implies contents(run.tokens)[i]
                == tokens[i] by {
                if i > 0 {
                    assert(run.tokens[i] == last.tokens[i - 1]);
                    assert(contents(last.tokens)[i - 1] == others[i - 1]);
                }
            }
            assert(contents(run.tokens) =~= tokens);
        }
    }
}

/// Tokenizing keeps what a text says and drops how it was laid out: the
/// tokens of any text, spelled out with one space between each two, tokenize
/// without fault to the same tokens again. This holds of the tokens before a
/// fault too.
pub proof fn law_respelled(s: Seq<char>, line: nat, col: nat, line_again: nat, col_again: nat)
    ensures
        ({
            let tokens = contents(scan(s, line, col).tokens);
            let again = scan(spell(tokens), line_again, col_again);
            &&& again.error is None
            &&& again.rest.len() == 0
            &&& contents(again.tokens) == tokens
        }),
{
    law_tokens_well_formed(s, line, col);
    law_spelled_tokens(contents(scan(s, line, col).tokens), line_again, col_again);
}

} // verus!
