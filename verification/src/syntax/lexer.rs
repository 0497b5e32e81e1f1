//! The tokenizer: one pass over the source, one character of lookahead.

use vstd::prelude::*;
use vstd::string::StringExecFns;
use crate::syntax::chars::{char_is_letter, char_is_numeral, to_chars};
use crate::syntax::grammar::{
    block_comment, emitted, first_lexeme, in_line, in_number, in_string, in_word,
    lemma_comment_end_bounds, lemma_comment_end_is, lemma_comment_end_none,
    lemma_run_length_bounds, lemma_run_length_is, lemma_step_bounds, line_comment,
    number_lexeme, open_up_to, scan, slash_lexeme, string_lexeme, word_lexeme, LexErrorKind,
    Lexeme, Step,
};
use crate::syntax::number::parse_digits;
use crate::syntax::token::{
    tokens_view, Literal, Operator, Separator, Token, TokenData, TokenView,
};

verus! {

impl LexErrorKind {
    pub open spec fn message(self) -> Seq<char> {
        match self {
            LexErrorKind::UnexpectedEndOfInput => "Reached end of buffer"@,
            LexErrorKind::UnterminatedString => "Reached EOL while parsing string"@,
            LexErrorKind::MalformedNumericLiteral => "Failed to parse number"@,
        }
    }
}

/// The fault that stopped the tokenizer. Where it happened is in the
/// tokenizer's `line` and `col`.
#[derive(Debug, Clone, Copy, PartialEq, Eq, Structural)]
pub struct LexerError {
    pub kind: LexErrorKind,
}

impl LexerError {
    pub fn new(kind: LexErrorKind) -> (e: LexerError)
        ensures
            e.kind == kind,
    {
        LexerError { kind }
    }

    /// The message for the kind of fault.
    pub fn to_string(&self) -> (s: String)
        ensures
            s@ == self.kind.message(),
    {
        match self.kind {
            LexErrorKind::UnexpectedEndOfInput => String::from_str("Reached end of buffer"),
            LexErrorKind::UnterminatedString => String::from_str(
                "Reached EOL while parsing string",
            ),
            LexErrorKind::MalformedNumericLiteral => String::from_str("Failed to parse number"),
        }
    }
}

/// A forward-only position in a text: the next character can be looked at
/// without being taken.
pub struct Cursor {
    chars: Vec<char>,
    at: usize,
}

impl Cursor {
    #[verifier::type_invariant]
    spec fn in_bounds(&self) -> bool {
        self.at <= self.chars.len()
    }

    /// The characters not taken yet.
    pub closed spec fn remaining(&self) -> Seq<char> {
        self.chars@.skip(self.at as int)
    }

    /// A cursor at the start of `source`.
    pub fn new(source: &str) -> (cursor: Cursor)
        ensures
            cursor.remaining() == source@,
    {
        let chars = to_chars(source);
        assert(chars@.skip(0) =~= chars@);
        Cursor { chars, at: 0 }
    }

    /// How many characters are left.
    pub fn left(&self) -> (n: usize)
        ensures
            n == self.remaining().len(),
    {
        proof {
            use_type_invariant(self);
        }
        self.chars.len() - self.at
    }

    /// The next character, if one is left.
    pub fn peek(&self) -> (next: Option<char>)
        ensures
            next == (if self.remaining().len() > 0 {
                Some(self.remaining()[0])
            } else {
                None
            }),
    {
        proof {
            use_type_invariant(self);
        }
        if self.at < self.chars.len() {
            Some(self.chars[self.at])
        } else {
            None
        }
    }

    /// Takes the next character, if one is left.
    pub fn advance(&mut self) -> (next: Option<char>)
        ensures
            next == (if old(self).remaining().len() > 0 {
                Some(old(self).remaining()[0])
            } else {
                None
            }),
            final(self).remaining() == (if old(self).remaining().len() > 0 {
                old(self).remaining().drop_first()
            } else {
                old(self).remaining()
            }),
    {
        proof {
            use_type_invariant(&*self);
        }
        if self.at < self.chars.len() {
            let c = self.chars[self.at];
            self.at = self.at + 1;
            assert(self.remaining() =~= old(self).remaining().drop_first());
            Some(c)
        } else {
            None
        }
    }
}

/// The tokenizer. `tokens` grows as `lex` goes; `line` and `col` are the
/// position reached. Lines count from 1; the column is the number of columns
/// charged on the current line so far.
pub struct Lexer {
    pub tokens: Vec<Token>,
    pub line: usize,
    pub col: usize,
    pub source: Cursor,
}

/// The state of a tokenizer: the tokens so far, the position, and the text
/// still to be read.
pub struct LexerView {
    pub tokens: Seq<TokenView>,
    pub line: nat,
    pub col: nat,
    pub rest: Seq<char>,
}

impl View for Lexer {
    type V = LexerView;

    open spec fn view(&self) -> LexerView {
        LexerView {
            tokens: tokens_view(self.tokens@),
            line: self.line as nat,
            col: self.col as nat,
            rest: self.remaining(),
        }
    }
}

/// `post` and `failed` are what the lexeme of `step` leaves of `mid`, a
/// state in which the first `taken` characters of the lexeme are read and
/// the column of its first character is charged already. A token stands at
/// the column of its first character; after it the column moves on by the
/// token's `extra`. A line break starts a new line at column 0. A fault
/// leaves line and column where they are.
pub open spec fn resumed(
    mid: LexerView,
    taken: nat,
    step: Step,
    post: LexerView,
    failed: Option<LexErrorKind>,
) -> bool {
    &&& taken <= step.used
    &&& post.rest == mid.rest.skip(step.used - taken)
    &&& match step.lexeme {
        Lexeme::Blank => {
            &&& post.tokens == mid.tokens
            &&& post.line == mid.line
            &&& post.col == mid.col
            &&& failed is None
        },
        Lexeme::LineBreak => {
            &&& post.tokens == mid.tokens
            &&& post.line == mid.line + 1
            &&& post.col == 0
            &&& failed is None
        },
        Lexeme::Token { data, extra } => {
            &&& post.tokens == mid.tokens.push(TokenView { line: mid.line, col: mid.col, data })
            &&& post.line == mid.line
            &&& post.col == mid.col + extra
            &&& failed is None
        },
        Lexeme::Fault { kind } => {
            &&& post.tokens == mid.tokens
            &&& post.line == mid.line
            &&& post.col == mid.col
            &&& failed == Some(kind)
        },
    }
}

/// `post` and `failed` are what the lexeme of `step` leaves of `pre`: the
/// first character is charged one column, and then as in `resumed`.
pub open spec fn stepped(
    pre: LexerView,
    step: Step,
    post: LexerView,
    failed: Option<LexErrorKind>,
) -> bool {
    resumed(LexerView { col: pre.col + 1, ..pre }, 0, step, post, failed)
}

/// The kind of fault in a result, if it is one.
pub open spec fn fault_of<T>(result: Result<T, LexerError>) -> Option<LexErrorKind> {
    match result {
        Ok(_) => None,
        Err(e) => Some(e.kind),
    }
}

impl Lexer {
    /// The text not read yet.
    pub open spec fn remaining(&self) -> Seq<char> {
        self.source.remaining()
    }

    /// Line and column stay within the machine's range to the end of the
    /// text: a character moves the line on by one at most and the column by
    /// two at most.
    pub open spec fn fits(&self) -> bool {
        &&& self.line + self.remaining().len() <= usize::MAX
        &&& self.col + 2 * self.remaining().len() <= usize::MAX
    }

    /// Room for one lexeme after its first character has been taken and
    /// charged.
    pub open spec fn fits_lexeme(&self) -> bool {
        &&& self.line < usize::MAX
        &&& self.col + self.remaining().len() + 1 <= usize::MAX
    }

    /// A tokenizer at the start of `source`: line 1, column 0, no tokens.
    /// Nothing is read yet.
    pub fn new(source: &str) -> (lexer: Lexer)
        ensures
            lexer@ == (LexerView { tokens: Seq::empty(), line: 1, col: 0, rest: source@ }),
    {
        let lexer = Lexer { tokens: Vec::new(), line: 1, col: 0, source: Cursor::new(source) };
        assert(lexer@.tokens =~= Seq::empty());
        lexer
    }

    /// Whether `lex` may be called: whether `fits` holds.
    pub fn in_range(&self) -> (ok: bool)
        ensures
            ok == self.fits(),
    {
        let left = self.source.left();
        left <= usize::MAX - self.line && left <= (usize::MAX - self.col) / 2
    }

    /// Appends a token with this content at the current position.
    pub fn push_token(&mut self, td: TokenData)
        ensures
            final(self).tokens@ == old(self).tokens@.push(
                Token { line: old(self).line, col: old(self).col, data: td },
            ),
            final(self)@ == (LexerView {
                tokens: old(self)@.tokens.push(
                    TokenView { line: old(self)@.line, col: old(self)@.col, data: td@ },
                ),
                ..old(self)@
            }),
    {
        let token = Token { line: self.line, col: self.col, data: td };
        self.tokens.push(token);
        assert(tokens_view(self.tokens@) =~= tokens_view(old(self).tokens@).push(token@));
    }

    /// The next character, if one is left; it is not taken.
    pub fn peek_next(&self) -> (next: Option<char>)
        ensures
            next == (if self@.rest.len() > 0 {
                Some(self@.rest[0])
            } else {
                None
            }),
    {
        self.source.peek()
    }

    /// Takes the next character. At the end of the text this is the fault
    /// `UnexpectedEndOfInput`, and nothing changes.
    pub fn next(&mut self) -> (next: Result<char, LexerError>)
        ensures
            match next {
                Ok(c) => {
                    &&& old(self)@.rest.len() > 0
                    &&& c == old(self)@.rest[0]
                    &&& final(self)@ == (LexerView {
                        rest: old(self)@.rest.drop_first(),
                        ..old(self)@
                    })
                },
                Err(e) => {
                    &&& old(self)@.rest.len() == 0
                    &&& e.kind == LexErrorKind::UnexpectedEndOfInput
                    &&& final(self)@ == old(self)@
                },
            },
            final(self).tokens == old(self).tokens,
    {
        match self.source.advance() {
            Some(c) => Ok(c),
            None => Err(LexerError::new(LexErrorKind::UnexpectedEndOfInput)),
        }
    }
}

impl Lexer {
    /// Reads a string whose opening `quote` has been taken: up to the same
    /// quote again. The token holds what stands between the two.
    pub fn lex_string(&mut self, quote: char) -> (result: Result<(), LexerError>)
        requires
            old(self).fits_lexeme(),
        ensures
            resumed(
                old(self)@,
                1,
                string_lexeme(quote, old(self)@.rest),
                final(self)@,
                fault_of(result),
            ),
    {
        let ghost start = self@;
        let ghost after = self@.rest;
        let mut text = String::new();
        let mut count: usize = 0;
        assert(after.skip(0) =~= after);
        assert(text@ =~= after.take(0));
        loop
            invariant
                count <= after.len(),
                start.col + after.len() + 1 <= usize::MAX,
                start == old(self)@,
                after == start.rest,
                self@ == (LexerView { rest: after.skip(count as int), ..start }),
                text@ == after.take(count as int),
                forall|i: int| 0 <= i < count ==> in_string(quote)(#[trigger] after[i]),
            decreases after.len() - count,
        {
            match self.next() {
                Err(e) => {
                    proof {
                        lemma_run_length_is(after, in_string(quote), count as nat);
                    }
                    return Err(e);
                },
                Ok(c) => {
                    assert(c == after[count as int]);
                    assert(after.skip(count as int).drop_first() =~= after.skip(count + 1));
                    if c == quote {
                        proof {
                            lemma_run_length_is(after, in_string(quote), count as nat);
                        }
                        self.push_token(TokenData::Literal(Literal::String(text)));
                        self.col = self.col + count + 1;
                        return Ok(());
                    } else if c == '\n' {
                        proof {
                            lemma_run_length_is(after, in_string(quote), count as nat);
                        }
                        return Err(LexerError::new(LexErrorKind::UnterminatedString));
                    } else {
                        text.push(c);
                        count = count + 1;
                        assert(text@ =~= after.take(count as int));
                    }
                },
            }
        }
    }

    /// Skips a line comment whose `//` has been taken: to the end of the
    /// line, the line break included, or to the end of the text.
    pub fn skip_line_comment(&mut self)
        requires
            old(self).line < usize::MAX,
        ensures
            resumed(old(self)@, 2, line_comment(old(self)@.rest), final(self)@, None),
    {
        let ghost start = self@;
        let ghost after = self@.rest;
        let ghost mut count: nat = 0;
        assert(after.skip(0) =~= after);
        loop
            invariant
                count <= after.len(),
                start.line < usize::MAX,
                start == old(self)@,
                after == start.rest,
                self@ == (LexerView { rest: after.skip(count as int), ..start }),
                forall|i: int| 0 <= i < count ==> in_line()(#[trigger] after[i]),
            decreases after.len() - count,
        {
            match self.next() {
                Err(_) => {
                    proof {
                        lemma_run_length_is(after, in_line(), count);
                    }
                    return;
                },
                Ok(c) => {
                    assert(c == after[count as int]);
                    assert(after.skip(count as int).drop_first() =~= after.skip(count as int + 1));
                    if c == '\n' {
                        proof {
                            lemma_run_length_is(after, in_line(), count);
                        }
                        self.line = self.line + 1;
                        self.col = 0;
                        return;
                    }
                    proof {
                        count = count + 1;
                    }
                },
            }
        }
    }

    /// Skips a block comment whose `/*` has been taken: to the first `*/`
    /// after it. The end of the text before that is a fault.
    pub fn skip_block_comment(&mut self) -> (result: Result<(), LexerError>)
        ensures
            resumed(
                old(self)@,
                2,
                block_comment(old(self)@.rest),
                final(self)@,
                fault_of(result),
            ),
    {
        let ghost start = self@;
        let ghost after = self@.rest;
        let ghost mut count: nat = 0;
        let mut last: char = ' ';
        assert(after.skip(0) =~= after);
        loop
            invariant
                count <= after.len(),
                start == old(self)@,
                after == start.rest,
                self@ == (LexerView { rest: after.skip(count as int), ..start }),
                open_up_to(after, count as int),
                count == 0 ==> last != '*',
                count > 0 ==> last == after[count - 1],
            decreases after.len() - count,
        {
            match self.next() {
                Err(e) => {
                    proof {
                        lemma_comment_end_none(after);
                    }
                    return Err(e);
                },
                Ok(c) => {
                    assert(c == after[count as int]);
                    assert(after.skip(count as int).drop_first() =~= after.skip(count as int + 1));
                    if last == '*' && c == '/' {
                        proof {
                            lemma_comment_end_is(after, count + 1);
                        }
                        return Ok(());
                    }
                    last = c;
                    proof {
                        count = count + 1;
                    }
                },
            }
        }
    }

    /// Decides what a `/` that has been taken starts: a line comment before
    /// another `/`, a block comment before `*`, and else it is the division
    /// sign, with the character after it left in place.
    pub fn lex_slash(&mut self) -> (result: Result<(), LexerError>)
        requires
            old(self).fits_lexeme(),
        ensures
            resumed(old(self)@, 1, slash_lexeme(old(self)@.rest), final(self)@, fault_of(result)),
    {
        let ghost after = self@.rest;
        let comment: u8 = match self.peek_next() {
            Some(c) => if c == '/' {
                1
            } else if c == '*' {
                2
            } else {
                0
            },
            None => 0,
        };
        if comment == 0 {
            self.push_token(TokenData::Operator(Operator::Divide));
            assert(after.skip(0) =~= after);
            Ok(())
        } else {
            let _ = self.next();
            assert(after.drop_first().skip(0) =~= after.skip(1));
            proof {
                let inner = after.drop_first();
                lemma_run_length_bounds(inner, in_line());
                lemma_comment_end_bounds(inner);
                let used = if comment == 1 {
                    line_comment(inner).used
                } else {
                    block_comment(inner).used
                };
                if used >= 2 {
                    assert(inner.skip(used - 2) =~= after.skip(used - 1));
                }
            }
            if comment == 1 {
                self.skip_line_comment();
                Ok(())
            } else {
                self.skip_block_comment()
            }
        }
    }

    /// Reads a word whose first character `first` has been taken, and emits
    /// what the word stands for.
    pub fn lex_word(&mut self, first: char) -> (result: Result<(), LexerError>)
        requires
            old(self).fits_lexeme(),
        ensures
            resumed(
                old(self)@,
                1,
                word_lexeme(seq![first] + old(self)@.rest),
                final(self)@,
                fault_of(result),
            ),
    {
        let ghost start = self@;
        let ghost after = self@.rest;
        let ghost whole = seq![first] + after;
        let mut text = String::new();
        text.push(first);
        let mut count: usize = 1;
        assert(whole.drop_first() =~= after);
        assert(text@ =~= whole.take(1));
        assert(after.skip(0) =~= after);
        loop
            invariant
                1 <= count <= after.len() + 1,
                start.col + after.len() + 1 <= usize::MAX,
                start == old(self)@,
                after == start.rest,
                whole == seq![first] + after,
                whole.drop_first() == after,
                self@ == (LexerView { rest: after.skip(count - 1), ..start }),
                text@ == whole.take(count as int),
                forall|i: int| 0 <= i < count - 1 ==> in_word()(#[trigger] after[i]),
            decreases after.len() + 1 - count,
        {
            let more = match self.peek_next() {
                Some(c) => char_is_letter(c) || char_is_numeral(c) || c == '_',
                None => false,
            };
            if !more {
                proof {
                    lemma_run_length_is(after, in_word(), (count - 1) as nat);
                }
                self.push_token(TokenData::from_word(text));
                self.col = self.col + count;
                return Ok(());
            }
            match self.next() {
                Err(e) => {
                    return Err(e);
                },
                Ok(c) => {
                    assert(c == after[count - 1]);
                    assert(after.skip(count - 1).drop_first() =~= after.skip(count as int));
                    text.push(c);
                    count = count + 1;
                    assert(text@ =~= whole.take(count as int));
                },
            }
        }
    }

    /// Reads a number whose first character `first` has been taken, and
    /// emits its literal. A run that is not a decimal number of 64 bits is a
    /// fault.
    pub fn lex_number(&mut self, first: char) -> (result: Result<(), LexerError>)
        requires
            old(self).fits_lexeme(),
        ensures
            resumed(
                old(self)@,
                1,
                number_lexeme(seq![first] + old(self)@.rest),
                final(self)@,
                fault_of(result),
            ),
    {
        let ghost start = self@;
        let ghost after = self@.rest;
        let ghost whole = seq![first] + after;
        let mut text = String::new();
        text.push(first);
        let mut count: usize = 1;
        assert(whole.drop_first() =~= after);
        assert(text@ =~= whole.take(1));
        assert(after.skip(0) =~= after);
        loop
            invariant
                1 <= count <= after.len() + 1,
                start.col + after.len() + 1 <= usize::MAX,
                start == old(self)@,
                after == start.rest,
                whole == seq![first] + after,
                whole.drop_first() == after,
                self@ == (LexerView { rest: after.skip(count - 1), ..start }),
                text@ == whole.take(count as int),
                forall|i: int| 0 <= i < count - 1 ==> in_number()(#[trigger] after[i]),
            decreases after.len() + 1 - count,
        {
            let more = match self.peek_next() {
                Some(c) => char_is_numeral(c),
                None => false,
            };
            if !more {
                proof {
                    lemma_run_length_is(after, in_number(), (count - 1) as nat);
                }
                return match parse_digits(text.as_str()) {
                    Some(v) => {
                        if v > i32::MAX as i64 {
                            self.push_token(TokenData::Literal(Literal::Long(v)));
                        } else {
                            self.push_token(TokenData::Literal(Literal::Int(v as i32)));
                        }
                        self.col = self.col + count;
                        Ok(())
                    },
                    None => Err(LexerError::new(LexErrorKind::MalformedNumericLiteral)),
                };
            }
            match self.next() {
                Err(e) => {
                    return Err(e);
                },
                Ok(c) => {
                    assert(c == after[count - 1]);
                    assert(after.skip(count - 1).drop_first() =~= after.skip(count as int));
                    text.push(c);
                    count = count + 1;
                    assert(text@ =~= whole.take(count as int));
                },
            }
        }
    }

    /// Reads one lexeme: takes its first character, charges one column for
    /// it, and goes by what the character is. At the end of the text there
    /// is no lexeme to read: that is the fault `UnexpectedEndOfInput`, and
    /// nothing changes.
    pub fn step(&mut self) -> (result: Result<(), LexerError>)
        requires
            old(self).fits(),
        ensures
            old(self)@.rest.len() > 0 ==> stepped(
                old(self)@,
                first_lexeme(old(self)@.rest),
                final(self)@,
                fault_of(result),
            ),
            old(self)@.rest.len() == 0 ==> final(self)@ == old(self)@ && fault_of(result) == Some(
                LexErrorKind::UnexpectedEndOfInput,
            ),
            final(self).fits(),
    {
        let ghost text = self@.rest;
        proof {
            if text.len() > 0 {
                lemma_step_bounds(text);
            }
        }
        let ch = match self.next() {
            Ok(c) => c,
            Err(e) => {
                return Err(e);
            },
        };
        self.col = self.col + 1;
        assert(seq![ch] + text.drop_first() =~= text);
        assert(text.drop_first().skip(first_lexeme(text).used - 1) =~= text.skip(
            first_lexeme(text).used as int,
        ));
        if ch == '\'' || ch == '"' {
            self.lex_string(ch)
        } else if ch == '+' {
            self.push_token(TokenData::Operator(Operator::Add));
            Ok(())
        } else if ch == '-' {
            self.push_token(TokenData::Operator(Operator::Subtract));
            Ok(())
        } else if ch == '*' {
            self.push_token(TokenData::Operator(Operator::Multiply));
            Ok(())
        } else if ch == '=' {
            self.push_token(TokenData::Operator(Operator::Assignment));
            Ok(())
        } else if ch == '(' {
            self.push_token(TokenData::Separator(Separator::OpeningParen));
            Ok(())
        } else if ch == ')' {
            self.push_token(TokenData::Separator(Separator::ClosingParen));
            Ok(())
        } else if ch == '{' {
            self.push_token(TokenData::Separator(Separator::OpeningBlock));
            Ok(())
        } else if ch == '}' {
            self.push_token(TokenData::Separator(Separator::ClosingBlock));
            Ok(())
        } else if ch == ';' {
            self.push_token(TokenData::Separator(Separator::Semicolon));
            Ok(())
        } else if ch == ',' {
            self.push_token(TokenData::Separator(Separator::Comma));
            Ok(())
        } else if ch == '.' {
            self.push_token(TokenData::Separator(Separator::Dot));
            Ok(())
        } else if ch == '\n' {
            self.line = self.line + 1;
            self.col = 0;
            Ok(())
        } else if ch == '/' {
            self.lex_slash()
        } else if char_is_letter(ch) || ch == '_' {
            self.lex_word(ch)
        } else if char_is_numeral(ch) {
            self.lex_number(ch)
        } else {
            Ok(())
        }
    }

    /// Tokenizes the rest of the text. The tokens are appended to `tokens`
    /// and `line` and `col` move along. At the first fault `lex` stops and
    /// returns it; the tokens before the fault stay, `line` and `col` say
    /// where it happened, and the text up to and including the fault is used
    /// up.
    pub fn lex(&mut self) -> (result: Result<(), LexerError>)
        requires
            old(self).fits(),
        ensures
            ({
                let run = scan(old(self)@.rest, old(self)@.line, old(self)@.col);
                &&& final(self)@.tokens == old(self)@.tokens + run.tokens
                &&& final(self)@.line == run.line
                &&& final(self)@.col == run.col
                &&& final(self)@.rest == run.rest
                &&& fault_of(result) == run.error
            }),
    {
        let ghost start = self@;
        let ghost mut done: Seq<TokenView> = Seq::empty();
        assert(start.tokens + done =~= start.tokens);
        assert(done + scan(start.rest, start.line, start.col).tokens =~= scan(
            start.rest,
            start.line,
            start.col,
        ).tokens);
        loop
            invariant
                start == old(self)@,
                self.fits(),
                self@.tokens == start.tokens + done,
                ({
                    let all = scan(start.rest, start.line, start.col);
                    let now = scan(self@.rest, self@.line, self@.col);
                    &&& all.tokens == done + now.tokens
                    &&& all.line == now.line
                    &&& all.col == now.col
                    &&& all.rest == now.rest
                    &&& all.error == now.error
                }),
            decreases self@.rest.len(),
        {
            if self.peek_next().is_none() {
                assert(done + Seq::<TokenView>::empty() =~= done);
                return Ok(());
            }
            let ghost pre = self@;
            let ghost lexeme = first_lexeme(pre.rest).lexeme;
            proof {
                lemma_step_bounds(pre.rest);
            }
            match self.step() {
                Err(e) => {
                    assert(done + Seq::<TokenView>::empty() =~= done);
                    return Err(e);
                },
                Ok(_) => {},
            }
            proof {
                let then = scan(self@.rest, self@.line, self@.col);
                let new = emitted(pre.line, pre.col, lexeme);
                assert((done + new) + then.tokens =~= done + (new + then.tokens));
                assert(start.tokens + (done + new) =~= (start.tokens + done) + new);
                done = done + new;
            }
        }
    }
}

} // verus!
