//! The lexical grammar, as mathematics: which lexeme a text starts with, and
//! what a whole text tokenizes to.
//!
//! Recognising a lexeme does not depend on where in the source it stands;
//! positions are laid over the lexemes afterwards, by `advance`.

use vstd::prelude::*;
use crate::syntax::chars::{is_letter, is_numeral};
use crate::syntax::number::parse_long;
use crate::syntax::token::{
    classify_word, LiteralView, Operator, Separator, TokenDataView, TokenView,
};

verus! {

/// Why tokenizing stopped before the end of the source.
#[derive(Debug, Clone, Copy, PartialEq, Eq, Structural)]
pub enum LexErrorKind {
    /// The source ended inside a string or a block comment.
    UnexpectedEndOfInput,
    /// A line ended inside a string.
    UnterminatedString,
    /// A run of numeric characters is not a decimal number that fits in 64
    /// bits.
    MalformedNumericLiteral,
}

pub open spec fn is_quote(c: char) -> bool {
    c == '\'' || c == '"'
}

/// A word starts with a letter or an underscore.
pub open spec fn is_word_start(c: char) -> bool {
    is_letter(c) || c == '_'
}

/// A word goes on with letters, numeric characters and underscores.
pub open spec fn is_word_char(c: char) -> bool {
    is_letter(c) || is_numeral(c) || c == '_'
}

/// The operators that are recognised from one character alone. The division
/// sign is not among them: what follows it decides.
pub open spec fn operator_of(c: char) -> Option<Operator> {
    if c == '+' {
        Some(Operator::Add)
    } else if c == '-' {
        Some(Operator::Subtract)
    } else if c == '*' {
        Some(Operator::Multiply)
    } else if c == '=' {
        Some(Operator::Assignment)
    } else {
        None
    }
}

pub open spec fn separator_of(c: char) -> Option<Separator> {
    if c == '(' {
        Some(Separator::OpeningParen)
    } else if c == ')' {
        Some(Separator::ClosingParen)
    } else if c == '{' {
        Some(Separator::OpeningBlock)
    } else if c == '}' {
        Some(Separator::ClosingBlock)
    } else if c == ';' {
        Some(Separator::Semicolon)
    } else if c == ',' {
        Some(Separator::Comma)
    } else if c == '.' {
        Some(Separator::Dot)
    } else {
        None
    }
}

/// The length of the longest prefix of `s` all of whose characters satisfy
/// `p`.
pub open spec fn run_length(s: Seq<char>, p: spec_fn(char) -> bool) -> nat
    decreases s.len(),
{
    if s.len() > 0 && p(s[0]) {
        1 + run_length(s.drop_first(), p)
    } else {
        0
    }
}

/// Inside a string opened by `quote`, everything but that quote and a line
/// break belongs to the string.
pub open spec fn in_string(quote: char) -> spec_fn(char) -> bool {
    |c: char| c != quote && c != '\n'
}

pub open spec fn in_line() -> spec_fn(char) -> bool {
    |c: char| c != '\n'
}

pub open spec fn in_word() -> spec_fn(char) -> bool {
    |c: char| is_word_char(c)
}

pub open spec fn in_number() -> spec_fn(char) -> bool {
    |c: char| is_numeral(c)
}

/// The number of characters of `s` up to and including the first `*/`, if
/// there is one.
pub open spec fn comment_end(s: Seq<char>) -> Option<nat>
    decreases s.len(),
{
    if s.len() < 2 {
        None
    } else if s[0] == '*' && s[1] == '/' {
        Some(2)
    } else {
        match comment_end(s.drop_first()) {
            Some(n) => Some(n + 1),
            None => None,
        }
    }
}

/// What a lexeme amounts to.
pub enum Lexeme {
    /// Nothing: an ignored character or a comment within a line.
    Blank,
    /// A line break, alone or at the end of a line comment.
    LineBreak,
    /// A token. After it is emitted at the place where its lexeme starts,
    /// the column moves on by `extra`.
    Token { data: TokenDataView, extra: nat },
    /// The text cannot be tokenized.
    Fault { kind: LexErrorKind },
}

/// The lexeme at the front of a text and the number of characters it takes
/// up.
pub struct Step {
    pub used: nat,
    pub lexeme: Lexeme,
}

/// A string, after its opening quote: it runs to the next occurrence of the
/// same quote. There are no escapes. A line break or the end of the text
/// before that quote is a fault; the line break is used up with it.
pub open spec fn string_lexeme(quote: char, after: Seq<char>) -> Step {
    let n = run_length(after, in_string(quote));
    if n >= after.len() {
        Step { used: 1 + after.len(), lexeme: Lexeme::Fault { kind: LexErrorKind::UnexpectedEndOfInput } }
    } else if after[n as int] == quote {
        Step {
            used: n + 2,
            lexeme: Lexeme::Token {
                data: TokenDataView::Literal(LiteralView::String(after.take(n as int))),
                extra: n + 1,
            },
        }
    } else {
        Step { used: n + 2, lexeme: Lexeme::Fault { kind: LexErrorKind::UnterminatedString } }
    }
}

/// A line comment, after its `//`: it runs to the end of the line and takes
/// the line break with it, or runs to the end of the text.
pub open spec fn line_comment(after: Seq<char>) -> Step {
    let n = run_length(after, in_line());
    if n >= after.len() {
        Step { used: 2 + after.len(), lexeme: Lexeme::Blank }
    } else {
        Step { used: n + 3, lexeme: Lexeme::LineBreak }
    }
}

/// A block comment, after its `/*`: it runs to the first `*/` that follows.
/// Line breaks inside it are not counted. Without a `*/` the rest of the
/// text is used up and the comment is a fault.
pub open spec fn block_comment(after: Seq<char>) -> Step {
    match comment_end(after) {
        Some(n) => Step { used: 2 + n, lexeme: Lexeme::Blank },
        None => Step {
            used: 2 + after.len(),
            lexeme: Lexeme::Fault { kind: LexErrorKind::UnexpectedEndOfInput },
        },
    }
}

/// A word: its first character and all the word characters that follow.
pub open spec fn word_lexeme(s: Seq<char>) -> Step {
    let n = 1 + run_length(s.drop_first(), in_word());
    Step { used: n, lexeme: Lexeme::Token { data: classify_word(s.take(n as int)), extra: n } }
}

/// The literal for a number: `Int` up to the largest 32-bit value, `Long`
/// above it.
pub open spec fn number_literal(v: i64) -> LiteralView {
    if v > i32::MAX {
        LiteralView::Long(v)
    } else {
        LiteralView::Int(v as i32)
    }
}

/// A number: its first character and all the numeric characters that follow,
/// read in base ten.
pub open spec fn number_lexeme(s: Seq<char>) -> Step {
    let n = 1 + run_length(s.drop_first(), in_number());
    match parse_long(s.take(n as int)) {
        Some(v) => Step {
            used: n,
            lexeme: Lexeme::Token { data: TokenDataView::Literal(number_literal(v)), extra: n },
        },
        None => Step {
            used: n,
            lexeme: Lexeme::Fault { kind: LexErrorKind::MalformedNumericLiteral },
        },
    }
}

/// What follows a `/` decides between the two kinds of comment and the
/// division sign.
pub open spec fn slash_lexeme(after: Seq<char>) -> Step {
    if after.len() > 0 && after[0] == '/' {
        line_comment(after.drop_first())
    } else if after.len() > 0 && after[0] == '*' {
        block_comment(after.drop_first())
    } else {
        Step {
            used: 1,
            lexeme: Lexeme::Token { data: TokenDataView::Operator(Operator::Divide), extra: 0 },
        }
    }
}

/// The lexeme that a non-empty text starts with. The first character
/// decides, in this order: a quote opens a string; an operator or separator
/// character is a token by itself; a line break; `/`; a word; a number.
/// Any other character is ignored.
pub open spec fn first_lexeme(s: Seq<char>) -> Step
    recommends
        s.len() > 0,
{
    let c = s[0];
    if is_quote(c) {
        string_lexeme(c, s.drop_first())
    } else if let Some(op) = operator_of(c) {
        Step { used: 1, lexeme: Lexeme::Token { data: TokenDataView::Operator(op), extra: 0 } }
    } else if let Some(sep) = separator_of(c) {
        Step { used: 1, lexeme: Lexeme::Token { data: TokenDataView::Separator(sep), extra: 0 } }
    } else if c == '\n' {
        Step { used: 1, lexeme: Lexeme::LineBreak }
    } else if c == '/' {
        slash_lexeme(s.drop_first())
    } else if is_word_start(c) {
        word_lexeme(s)
    } else if is_numeral(c) {
        number_lexeme(s)
    } else {
        Step { used: 1, lexeme: Lexeme::Blank }
    }
}

/// The line after a lexeme that started on `line`.
pub open spec fn line_after(line: nat, lexeme: Lexeme) -> nat {
    match lexeme {
        Lexeme::LineBreak => line + 1,
        _ => line,
    }
}

/// The column after a lexeme that started at column `col`. The first
/// character of every lexeme counts for one column. A token then adds its
/// `extra`; a line break sets the column back to 0; a fault leaves it there.
pub open spec fn col_after(col: nat, lexeme: Lexeme) -> nat {
    match lexeme {
        Lexeme::LineBreak => 0,
        Lexeme::Token { data, extra } => col + 1 + extra,
        _ => col + 1,
    }
}

/// The tokens, none or one, that a lexeme starting at `line` and `col`
/// gives. A token is placed on the column of its first character.
pub open spec fn emitted(line: nat, col: nat, lexeme: Lexeme) -> Seq<TokenView> {
    match lexeme {
        Lexeme::Token { data, extra } => seq![TokenView { line, col: col + 1, data }],
        _ => Seq::empty(),
    }
}

/// The end of a tokenizing run: the tokens it gave, the position it reached,
/// the text it left, and the fault that stopped it, if one did.
pub struct Scan {
    pub tokens: Seq<TokenView>,
    pub line: nat,
    pub col: nat,
    pub rest: Seq<char>,
    pub error: Option<LexErrorKind>,
}

/// Every lexeme takes up at least one character and no more than there are.
pub proof fn lemma_step_bounds(s: Seq<char>)
    requires
        s.len() > 0,
    ensures
        1 <= first_lexeme(s).used <= s.len(),
        first_lexeme(s).lexeme matches Lexeme::Token { data, extra } ==> 1 + extra <= 2
            * first_lexeme(s).used,
{
    let t = s.drop_first();
    lemma_run_length_bounds(t, in_string(s[0]));
    lemma_run_length_bounds(t, in_word());
    lemma_run_length_bounds(t, in_number());
    if t.len() > 0 {
        lemma_run_length_bounds(t.drop_first(), in_line());
        lemma_comment_end_bounds(t.drop_first());
    }
}

/// A run is no longer than the text, and ends where the text ends or at a
/// character that does not belong to it.
pub proof fn lemma_run_length_bounds(s: Seq<char>, p: spec_fn(char) -> bool)
    ensures
        run_length(s, p) <= s.len(),
        forall|i: int| 0 <= i < run_length(s, p) ==> p(#[trigger] s[i]),
        run_length(s, p) < s.len() ==> !p(s[run_length(s, p) as int]),
    decreases s.len(),
{
    if s.len() > 0 && p(s[0]) {
        let t = s.drop_first();
        lemma_run_length_bounds(t, p);
        assert forall|i: int| 0 <= i < run_length(s, p) implies p(#[trigger] s[i]) by {
            if i > 0 {
                assert(s[i] == t[i - 1]);
            }
        }
        if run_length(s, p) < s.len() {
            assert(s[run_length(s, p) as int] == t[run_length(t, p) as int]);
        }
    }
}

/// A length within the text, up to which every character belongs to the run
/// and at which the text ends or a character does not belong, is the length
/// of the run.
pub proof fn lemma_run_length_is(s: Seq<char>, p: spec_fn(char) -> bool, n: nat)
    requires
        n <= s.len(),
        forall|i: int| 0 <= i < n ==> p(#[trigger] s[i]),
        n < s.len() ==> !p(s[n as int]),
    ensures
        run_length(s, p) == n,
    decreases n,
{
    if n > 0 {
        let t = s.drop_first();
        assert(p(s[0]));
        assert forall|i: int| 0 <= i < n - 1 implies p(#[trigger] t[i]) by {
            assert(t[i] == s[i + 1]);
        }
        if n - 1 < t.len() {
            assert(t[n - 1] == s[n as int]);
        }
        lemma_run_length_is(t, p, (n - 1) as nat);
    }
}

/// Where a comment ends there is a `*/`, and none ends before.
pub proof fn lemma_comment_end_bounds(s: Seq<char>)
    ensures
        comment_end(s) matches Some(n) ==> {
            &&& 2 <= n <= s.len()
            &&& s[n - 2] == '*'
            &&& s[n - 1] == '/'
        },
    decreases s.len(),
{
    if s.len() >= 2 && !(s[0] == '*' && s[1] == '/') {
        lemma_comment_end_bounds(s.drop_first());
    }
}

/// No `*/` ends at or before the `n`-th character of `s`.
pub open spec fn open_up_to(s: Seq<char>, n: int) -> bool {
    forall|j: int| 1 <= j < n ==> !(s[j - 1] == '*' && #[trigger] s[j] == '/')
}

/// A comment ends with the first `*/`.
pub proof fn lemma_comment_end_is(s: Seq<char>, n: nat)
    requires
        2 <= n <= s.len(),
        s[n - 2] == '*',
        s[n - 1] == '/',
        open_up_to(s, n - 1),
    ensures
        comment_end(s) == Some(n),
    decreases n,
{
    if s[0] == '*' && s[1] == '/' {
        if n > 2 {
            assert(s[1] == '/');
        }
    } else {
        let t = s.drop_first();
        assert forall|j: int| 1 <= j < n - 2 implies !(t[j - 1] == '*' && #[trigger] t[j] == '/') by {
            assert(t[j] == s[j + 1]);
            assert(t[j - 1] == s[j]);
        }
        lemma_comment_end_is(t, (n - 1) as nat);
    }
}

/// Without a `*/` a comment does not end.
pub proof fn lemma_comment_end_none(s: Seq<char>)
    requires
        open_up_to(s, s.len() as int),
    ensures
        comment_end(s) is None,
    decreases s.len(),
{
    if s.len() >= 2 {
        assert(s[1] == s[1]);
        let t = s.drop_first();
        assert forall|j: int| 1 <= j < t.len() implies !(t[j - 1] == '*' && #[trigger] t[j] == '/') by {
            assert(t[j] == s[j + 1]);
            assert(t[j - 1] == s[j]);
        }
        lemma_comment_end_none(t);
    }
}

/// What tokenizing the text `s` from the position `line`, `col` comes to:
/// lexeme after lexeme to the end of the text, or to the first fault. A
/// fault leaves the tokens before it in place.
pub open spec fn scan(s: Seq<char>, line: nat, col: nat) -> Scan
    decreases s.len(),
{
    if s.len() == 0 {
        Scan { tokens: Seq::empty(), line, col, rest: s, error: None }
    } else {
        let step = first_lexeme(s);
        proof {
            lemma_step_bounds(s);
        }
        let rest = s.skip(step.used as int);
        match step.lexeme {
            Lexeme::Fault { kind } => Scan {
                tokens: Seq::empty(),
                line,
                col: col + 1,
                rest,
                error: Some(kind),
            },
            lexeme => {
                let then = scan(rest, line_after(line, lexeme), col_after(col, lexeme));
                Scan {
                    tokens: emitted(line, col, lexeme) + then.tokens,
                    line: then.line,
                    col: then.col,
                    rest: then.rest,
                    error: then.error,
                }
            },
        }
    }
}

} // verus!
