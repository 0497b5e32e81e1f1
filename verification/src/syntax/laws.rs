//! What holds of every text: laws of the grammar, proved from its
//! definition.

use vstd::prelude::*;
use crate::syntax::chars::is_numeral;
use crate::syntax::grammar::{
    col_after, emitted, first_lexeme, in_line, in_number, in_string, in_word, is_quote,
    is_word_char, is_word_start, lemma_run_length_is, lemma_step_bounds, line_after,
    number_literal, scan, LexErrorKind, Lexeme, Scan, Step,
};
use crate::syntax::number::{
    all_digits, decimal, decimal_value, is_canonical, lemma_value_round_trip,
};
use crate::syntax::token::{classify_word, LiteralView, TokenDataView, TokenView};

verus! {

/// The run `tail` with `tokens` put in front of its tokens.
pub open spec fn after_tokens(tokens: Seq<TokenView>, tail: Scan) -> Scan {
    Scan {
        tokens: tokens + tail.tokens,
        line: tail.line,
        col: tail.col,
        rest: tail.rest,
        error: tail.error,
    }
}

/// `a` stands before `b` in the source: on an earlier line, or on the same
/// line at an earlier column.
pub open spec fn precedes(a: TokenView, b: TokenView) -> bool {
    a.line < b.line || (a.line == b.line && a.col < b.col)
}

/// A word: a letter or an underscore first, then letters, numeric characters
/// and underscores.
pub open spec fn is_word(w: Seq<char>) -> bool {
    &&& w.len() > 0
    &&& is_word_start(w[0])
    &&& forall|i: int| 0 <= i < w.len() ==> is_word_char(#[trigger] w[i])
}

/// A text between two quotes of one kind, with neither that quote nor a line
/// break inside, is a string lexeme.
pub proof fn lemma_quoted_lexeme(quote: char, body: Seq<char>, rest: Seq<char>)
    requires
        is_quote(quote),
        forall|i: int| 0 <= i < body.len() ==> body[i] != quote && #[trigger] body[i] != '\n',
    ensures
        first_lexeme(seq![quote] + body + seq![quote] + rest) == (Step {
            used: body.len() + 2,
            lexeme: Lexeme::Token {
                data: TokenDataView::Literal(LiteralView::String(body)),
                extra: body.len() + 1,
            },
        }),
        (seq![quote] + body + seq![quote] + rest).skip(body.len() as int + 2) == rest,
{
    let s = seq![quote] + body + seq![quote] + rest;
    let after = s.drop_first();
    let n = body.len();
    assert(after =~= body + seq![quote] + rest);
    assert forall|i: int| 0 <= i < n implies in_string(quote)(#[trigger] after[i]) by {
        assert(after[i] == body[i]);
    }
    assert(after[n as int] == quote);
    lemma_run_length_is(after, in_string(quote), n);
    assert(after.take(n as int) =~= body);
    assert(s.skip(n as int + 2) =~= rest);
}

/// A run of decimal digits that no numeric character follows is a number
/// lexeme: a literal if its value fits in 64 bits, a fault if not.
pub proof fn lemma_digits_lexeme(digits: Seq<char>, rest: Seq<char>)
    requires
        digits.len() > 0,
        all_digits(digits),
        rest.len() == 0 || !is_numeral(rest[0]),
    ensures
        first_lexeme(digits + rest) == (Step {
            used: digits.len(),
            lexeme: if decimal_value(digits) <= i64::MAX {
                Lexeme::Token {
                    data: TokenDataView::Literal(number_literal(decimal_value(digits) as i64)),
                    extra: digits.len(),
                }
            } else {
                Lexeme::Fault { kind: LexErrorKind::MalformedNumericLiteral }
            },
        }),
        (digits + rest).skip(digits.len() as int) == rest,
{
    let s = digits + rest;
    let after = s.drop_first();
    let n = digits.len();
    assert(s[0] == digits[0]);
    assert forall|i: int| 0 <= i < n - 1 implies in_number()(#[trigger] after[i]) by {
        assert(after[i] == digits[i + 1]);
    }
    if n - 1 < after.len() {
        assert(after[n - 1] == rest[0]);
    }
    lemma_run_length_is(after, in_number(), (n - 1) as nat);
    assert(s.take(n as int) =~= digits);
    assert(s.skip(n as int) =~= rest);
}

/// A word that no word character follows is a word lexeme.
pub proof fn lemma_word_lexeme(word: Seq<char>, rest: Seq<char>)
    requires
        is_word(word),
        rest.len() == 0 || !is_word_char(rest[0]),
    ensures
        first_lexeme(word + rest) == (Step {
            used: word.len(),
            lexeme: Lexeme::Token { data: classify_word(word), extra: word.len() },
        }),
        (word + rest).skip(word.len() as int) == rest,
{
    let s = word + rest;
    let after = s.drop_first();
    let n = word.len();
    assert(s[0] == word[0]);
    assert forall|i: int| 0 <= i < n - 1 implies in_word()(#[trigger] after[i]) by {
        assert(after[i] == word[i + 1]);
    }
    if n - 1 < after.len() {
        assert(after[n - 1] == rest[0]);
    }
    lemma_run_length_is(after, in_word(), (n - 1) as nat);
    assert(s.take(n as int) =~= word);
    assert(s.skip(n as int) =~= rest);
}

/// A text between two quotes of one kind, with neither that quote nor a line
/// break inside, is one string token that holds exactly the enclosed text.
/// The token stands at the opening quote, and tokenizing goes on behind the
/// closing quote, `body.len() + 2` columns further.
pub proof fn law_quoted_text(quote: char, body: Seq<char>, rest: Seq<char>, line: nat, col: nat)
    requires
        is_quote(quote),
        forall|i: int| 0 <= i < body.len() ==> body[i] != quote && #[trigger] body[i] != '\n',
    ensures
        scan(seq![quote] + body + seq![quote] + rest, line, col) == after_tokens(
            seq![
                TokenView {
                    line,
                    col: col + 1,
                    data: TokenDataView::Literal(LiteralView::String(body)),
                },
            ],
            scan(rest, line, col + body.len() + 2),
        ),
{
    lemma_quoted_lexeme(quote, body, rest);
    lemma_step_bounds(seq![quote] + body + seq![quote] + rest);
}

/// A line comment gives no token: what follows its line break is tokenized
/// as the start of the next line.
pub proof fn law_line_comment(comment: Seq<char>, rest: Seq<char>, line: nat, col: nat)
    requires
        forall|i: int| 0 <= i < comment.len() ==> #[trigger] comment[i] != '\n',
    ensures
        scan(seq!['/', '/'] + comment + seq!['\n'] + rest, line, col) == scan(rest, line + 1, 0),
{
    let s = seq!['/', '/'] + comment + seq!['\n'] + rest;
    let after = s.drop_first().drop_first();
    let n = comment.len();
    assert(after =~= comment + seq!['\n'] + rest);
    assert forall|i: int| 0 <= i < n implies in_line()(#[trigger] after[i]) by {
        assert(after[i] == comment[i]);
    }
    assert(after[n as int] == '\n');
    lemma_run_length_is(after, in_line(), n);
    assert(s.skip(n as int + 3) =~= rest);
    lemma_step_bounds(s);
    let then = scan(rest, line + 1, 0);
    assert(emitted(line, col, Lexeme::LineBreak) + then.tokens =~= then.tokens);
}

/// A line comment that the text ends in gives no token and no fault.
pub proof fn law_line_comment_at_end(comment: Seq<char>, line: nat, col: nat)
    requires
        forall|i: int| 0 <= i < comment.len() ==> #[trigger] comment[i] != '\n',
    ensures
        scan(seq!['/', '/'] + comment, line, col) == (Scan {
            tokens: Seq::empty(),
            line,
            col: col + 1,
            rest: Seq::empty(),
            error: None,
        }),
{
    let s = seq!['/', '/'] + comment;
    let after = s.drop_first().drop_first();
    assert(after =~= comment);
    lemma_run_length_is(after, in_line(), comment.len());
    assert(s.skip(2 + comment.len() as int) =~= Seq::<char>::empty());
    lemma_step_bounds(s);
    let then = scan(Seq::<char>::empty(), line, col + 1);
    assert(emitted(line, col, Lexeme::Blank) + then.tokens =~= Seq::<TokenView>::empty());
}

/// A run of decimal digits that no numeric character follows is one number.
/// If its value fits in 64 bits it is one literal: `Int` up to 2147483647,
/// `Long` above. The literal reads as the value in shortest decimal
/// notation, which is the run itself unless the run has leading zeros. If
/// the value does not fit, the run is a malformed number and gives no token.
pub proof fn law_digits(digits: Seq<char>, rest: Seq<char>, line: nat, col: nat)
    requires
        digits.len() > 0,
        all_digits(digits),
        rest.len() == 0 || !is_numeral(rest[0]),
    ensures
        ({
            let run = scan(digits + rest, line, col);
            let v = decimal_value(digits);
            if v <= i64::MAX {
                let literal = number_literal(v as i64);
                &&& run == after_tokens(
                    seq![TokenView { line, col: col + 1, data: TokenDataView::Literal(literal) }],
                    scan(rest, line, col + 1 + digits.len()),
                )
                &&& v <= i32::MAX ==> literal == LiteralView::Int(v as i32)
                &&& v > i32::MAX ==> literal == LiteralView::Long(v as i64)
                &&& literal.text() == decimal(v)
                &&& is_canonical(digits) ==> literal.text() == digits
            } else {
                run == (Scan {
                    tokens: Seq::empty(),
                    line,
                    col: col + 1,
                    rest,
                    error: Some(LexErrorKind::MalformedNumericLiteral),
                })
            }
        }),
{
    lemma_digits_lexeme(digits, rest);
    lemma_step_bounds(digits + rest);
    if is_canonical(digits) {
        lemma_value_round_trip(digits);
    }
}

/// A word that no word character follows is one token: a boolean, a
/// keyword, or an identifier of that name.
pub proof fn law_word(word: Seq<char>, rest: Seq<char>, line: nat, col: nat)
    requires
        is_word(word),
        rest.len() == 0 || !is_word_char(rest[0]),
    ensures
        scan(word + rest, line, col) == after_tokens(
            seq![TokenView { line, col: col + 1, data: classify_word(word) }],
            scan(rest, line, col + 1 + word.len()),
        ),
{
    lemma_word_lexeme(word, rest);
    lemma_step_bounds(word + rest);
}

/// A string that the text ends in before its closing quote is the fault
/// `UnexpectedEndOfInput`. It gives no token and uses the text up.
pub proof fn law_open_string(quote: char, body: Seq<char>, line: nat, col: nat)
    requires
        is_quote(quote),
        forall|i: int| 0 <= i < body.len() ==> body[i] != quote && #[trigger] body[i] != '\n',
    ensures
        scan(seq![quote] + body, line, col) == (Scan {
            tokens: Seq::empty(),
            line,
            col: col + 1,
            rest: Seq::empty(),
            error: Some(LexErrorKind::UnexpectedEndOfInput),
        }),
{
    let s = seq![quote] + body;
    let after = s.drop_first();
    assert(after =~= body);
    lemma_run_length_is(after, in_string(quote), body.len());
    assert(s.skip(1 + body.len() as int) =~= Seq::<char>::empty());
    lemma_step_bounds(s);
}

/// A string with a line break before its closing quote is the fault
/// `UnterminatedString`. It gives no token; the text behind the line break
/// is left.
pub proof fn law_broken_string(quote: char, body: Seq<char>, rest: Seq<char>, line: nat, col: nat)
    requires
        is_quote(quote),
        forall|i: int| 0 <= i < body.len() ==> body[i] != quote && #[trigger] body[i] != '\n',
    ensures
        scan(seq![quote] + body + seq!['\n'] + rest, line, col) == (Scan {
            tokens: Seq::empty(),
            line,
            col: col + 1,
            rest,
            error: Some(LexErrorKind::UnterminatedString),
        }),
{
    let s = seq![quote] + body + seq!['\n'] + rest;
    let after = s.drop_first();
    let n = body.len();
    assert(after =~= body + seq!['\n'] + rest);
    assert forall|i: int| 0 <= i < n implies in_string(quote)(#[trigger] after[i]) by {
        assert(after[i] == body[i]);
    }
    assert(after[n as int] == '\n');
    lemma_run_length_is(after, in_string(quote), n);
    assert(s.skip(n as int + 2) =~= rest);
    lemma_step_bounds(s);
}

/// A run only moves forward: what it leaves is an end piece of the text.
/// And it stops at a fault or at the end of the text: after a run without
/// fault nothing is left.
pub proof fn law_rest(s: Seq<char>, line: nat, col: nat)
    ensures
        scan(s, line, col).rest.len() <= s.len(),
        scan(s, line, col).rest == s.skip(s.len() - scan(s, line, col).rest.len()),
        scan(s, line, col).error is None ==> scan(s, line, col).rest.len() == 0,
    decreases s.len(),
{
    if s.len() > 0 {
        let step = first_lexeme(s);
        lemma_step_bounds(s);
        let rest = s.skip(step.used as int);
        match step.lexeme {
            Lexeme::Fault { kind } => {},
            lexeme => {
                law_rest(rest, line_after(line, lexeme), col_after(col, lexeme));
                let left = scan(s, line, col).rest;
                assert(rest.skip(rest.len() - left.len()) =~= s.skip(s.len() - left.len()));
            },
        }
    } else {
        assert(s.skip(0) =~= s);
    }
}

/// Tokens come out in the order of the source: every token of a run stands
/// behind the position the run started from, and of two tokens the earlier
/// one stands before the later one. The position a run ends at is not
/// before the one it started from.
pub proof fn law_positions(s: Seq<char>, line: nat, col: nat)
    ensures
        ({
            let run = scan(s, line, col);
            &&& forall|i: int|
                0 <= i < run.tokens.len() ==> {
                    let t = #[trigger] run.tokens[i];
                    t.line > line || (t.line == line && t.col > col)
                }
            &&& forall|i: int, j: int|
                0 <= i < j < run.tokens.len() ==> precedes(
                    #[trigger] run.tokens[i],
                    #[trigger] run.tokens[j],
                )
            &&& run.line > line || (run.line == line && run.col >= col)
            &&& forall|i: int|
                0 <= i < run.tokens.len() ==> {
                    let t = #[trigger] run.tokens[i];
                    t.line < run.line || (t.line == run.line && t.col <= run.col)
                }
        }),
    decreases s.len(),
{
    if s.len() > 0 {
        let step = first_lexeme(s);
        lemma_step_bounds(s);
        let rest = s.skip(step.used as int);
        match step.lexeme {
            Lexeme::Fault { kind } => {},
            Lexeme::Blank => {
                law_positions(rest, line, col + 1);
            },
            Lexeme::LineBreak => {
                law_positions(rest, line + 1, 0);
            },
            Lexeme::Token { data, extra } => {
                law_positions(rest, line, col + 1 + extra);
            },
        }
    }
}

} // verus!
