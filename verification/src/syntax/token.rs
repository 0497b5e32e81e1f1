//! Tokens: the classified, position-tagged units the tokenizer emits.

use vstd::prelude::*;
use vstd::string::StrSliceExecFns;
use vstd::string::StringExecFns;
use crate::syntax::chars::text_equals;
use crate::syntax::number::{decimal, push_decimal, signed_decimal};

verus! {

/// The text is not a keyword.
#[derive(Debug, Clone, Copy, PartialEq, Eq, Structural)]
pub struct KeywordError;

/// The reserved words.
#[derive(Debug, Clone, Copy, PartialEq, Eq, Structural)]
pub enum Keyword {
    Fn,
    If,
    Let,
    For,
    Return,
    Switch,
}

/// Punctuation that marks structure.
#[derive(Debug, Clone, Copy, PartialEq, Eq, Structural)]
pub enum Separator {
    /// `(`
    OpeningParen,
    /// `)`
    ClosingParen,
    /// `{`
    OpeningBlock,
    /// `}`
    ClosingBlock,
    /// `;`
    Semicolon,
    /// `,`
    Comma,
    /// `.`
    Dot,
}

/// The operators of arithmetic and assignment.
#[derive(Debug, Clone, Copy, PartialEq, Eq, Structural)]
pub enum Operator {
    /// `+`
    Add,
    /// `-`
    Subtract,
    /// `*`
    Multiply,
    /// `/`
    Divide,
    /// `=`
    Assignment,
}

/// A value written out in the source. A number is an `Int` if it fits in 32
/// bits and a `Long` if it does not.
#[derive(Debug, Clone, PartialEq, Eq)]
pub enum Literal {
    Boolean(bool),
    String(String),
    Int(i32),
    Long(i64),
}

/// What a token says.
#[derive(Debug, Clone, PartialEq, Eq)]
pub enum TokenData {
    Identifier(String),
    Keyword(Keyword),
    Separator(Separator),
    Literal(Literal),
    Operator(Operator),
}

/// A token and the place where its lexeme starts: the line, counted from 1,
/// and the column that the tokenizer had reached with the first character of
/// the lexeme.
#[derive(Debug, Clone, PartialEq, Eq)]
pub struct Token {
    pub line: usize,
    pub col: usize,
    pub data: TokenData,
}

/// A literal with its text as a sequence of characters.
pub enum LiteralView {
    Boolean(bool),
    String(Seq<char>),
    Int(i32),
    Long(i64),
}

/// What a token says, with text as sequences of characters.
pub enum TokenDataView {
    Identifier(Seq<char>),
    Keyword(Keyword),
    Separator(Separator),
    Literal(LiteralView),
    Operator(Operator),
}

/// A token with its text as sequences of characters.
pub struct TokenView {
    pub line: nat,
    pub col: nat,
    pub data: TokenDataView,
}

impl View for Literal {
    type V = LiteralView;

    open spec fn view(&self) -> LiteralView {
        match *self {
            Literal::Boolean(b) => LiteralView::Boolean(b),
            Literal::String(s) => LiteralView::String(s@),
            Literal::Int(v) => LiteralView::Int(v),
            Literal::Long(v) => LiteralView::Long(v),
        }
    }
}

impl View for TokenData {
    type V = TokenDataView;

    open spec fn view(&self) -> TokenDataView {
        match *self {
            TokenData::Identifier(name) => TokenDataView::Identifier(name@),
            TokenData::Keyword(k) => TokenDataView::Keyword(k),
            TokenData::Separator(s) => TokenDataView::Separator(s),
            TokenData::Literal(l) => TokenDataView::Literal(l@),
            TokenData::Operator(o) => TokenDataView::Operator(o),
        }
    }
}

impl View for Token {
    type V = TokenView;

    open spec fn view(&self) -> TokenView {
        TokenView { line: self.line as nat, col: self.col as nat, data: self.data@ }
    }
}

/// The views of a run of tokens, in order.
pub open spec fn tokens_view(tokens: Seq<Token>) -> Seq<TokenView> {
    tokens.map_values(|t: Token| t@)
}

/// The keyword that `word` spells, if it spells one. The match is exact and
/// case-sensitive.
pub open spec fn keyword_of(word: Seq<char>) -> Option<Keyword> {
    if word == "fn"@ {
        Some(Keyword::Fn)
    } else if word == "if"@ {
        Some(Keyword::If)
    } else if word == "let"@ {
        Some(Keyword::Let)
    } else if word == "for"@ {
        Some(Keyword::For)
    } else if word == "return"@ {
        Some(Keyword::Return)
    } else if word == "switch"@ {
        Some(Keyword::Switch)
    } else {
        None
    }
}

/// What a word stands for: a boolean literal, a keyword, or else an
/// identifier of that name.
pub open spec fn classify_word(word: Seq<char>) -> TokenDataView {
    if word == "true"@ {
        TokenDataView::Literal(LiteralView::Boolean(true))
    } else if word == "false"@ {
        TokenDataView::Literal(LiteralView::Boolean(false))
    } else {
        match keyword_of(word) {
            Some(k) => TokenDataView::Keyword(k),
            None => TokenDataView::Identifier(word),
        }
    }
}

impl KeywordError {
    /// What the error says.
    pub open spec fn message() -> Seq<char> {
        "Token not found"@
    }

    pub fn to_string(&self) -> (s: String)
        ensures
            s@ == Self::message(),
    {
        String::from_str("Token not found")
    }
}

impl Keyword {
    /// The name of the variant.
    pub open spec fn name(self) -> Seq<char> {
        match self {
            Keyword::Fn => "Fn"@,
            Keyword::If => "If"@,
            Keyword::Let => "Let"@,
            Keyword::For => "For"@,
            Keyword::Return => "Return"@,
            Keyword::Switch => "Switch"@,
        }
    }

    /// The keyword that `s` spells; `KeywordError` when it spells none.
    pub fn from_str(s: &str) -> (r: Result<Keyword, KeywordError>)
        ensures
            r == match keyword_of(s@) {
                Some(k) => Ok::<Keyword, KeywordError>(k),
                None => Err::<Keyword, KeywordError>(KeywordError),
            },
    {
        let n = s.unicode_len();
        if text_equals(s, n, "fn") {
            Ok(Keyword::Fn)
        } else if text_equals(s, n, "if") {
            Ok(Keyword::If)
        } else if text_equals(s, n, "let") {
            Ok(Keyword::Let)
        } else if text_equals(s, n, "for") {
            Ok(Keyword::For)
        } else if text_equals(s, n, "return") {
            Ok(Keyword::Return)
        } else if text_equals(s, n, "switch") {
            Ok(Keyword::Switch)
        } else {
            Err(KeywordError)
        }
    }

    pub fn to_string(&self) -> (s: String)
        ensures
            s@ == self.name(),
    {
        match self {
            Keyword::Fn => String::from_str("Fn"),
            Keyword::If => String::from_str("If"),
            Keyword::Let => String::from_str("Let"),
            Keyword::For => String::from_str("For"),
            Keyword::Return => String::from_str("Return"),
            Keyword::Switch => String::from_str("Switch"),
        }
    }
}

impl std::str::FromStr for Keyword {
    type Err = KeywordError;

    /// The keyword that `s` spells; `KeywordError` when it spells none.
    fn from_str(s: &str) -> (r: Result<Keyword, KeywordError>)
        ensures
            r == match keyword_of(s@) {
                Some(k) => Ok::<Keyword, KeywordError>(k),
                None => Err::<Keyword, KeywordError>(KeywordError),
            },
    {
        Keyword::from_str(s)
    }
}

impl Separator {
    /// The name of the variant.
    pub open spec fn name(self) -> Seq<char> {
        match self {
            Separator::OpeningParen => "OpeningParen"@,
            Separator::ClosingParen => "ClosingParen"@,
            Separator::OpeningBlock => "OpeningBlock"@,
            Separator::ClosingBlock => "ClosingBlock"@,
            Separator::Semicolon => "Semicolon"@,
            Separator::Comma => "Comma"@,
            Separator::Dot => "Dot"@,
        }
    }

    pub fn to_string(&self) -> (s: String)
        ensures
            s@ == self.name(),
    {
        match self {
            Separator::OpeningParen => String::from_str("OpeningParen"),
            Separator::ClosingParen => String::from_str("ClosingParen"),
            Separator::OpeningBlock => String::from_str("OpeningBlock"),
            Separator::ClosingBlock => String::from_str("ClosingBlock"),
            Separator::Semicolon => String::from_str("Semicolon"),
            Separator::Comma => String::from_str("Comma"),
            Separator::Dot => String::from_str("Dot"),
        }
    }
}

impl Operator {
    /// The name of the variant.
    pub open spec fn name(self) -> Seq<char> {
        match self {
            Operator::Add => "Add"@,
            Operator::Subtract => "Subtract"@,
            Operator::Multiply => "Multiply"@,
            Operator::Divide => "Divide"@,
            Operator::Assignment => "Assignment"@,
        }
    }

    pub fn to_string(&self) -> (s: String)
        ensures
            s@ == self.name(),
    {
        match self {
            Operator::Add => String::from_str("Add"),
            Operator::Subtract => String::from_str("Subtract"),
            Operator::Multiply => String::from_str("Multiply"),
            Operator::Divide => String::from_str("Divide"),
            Operator::Assignment => String::from_str("Assignment"),
        }
    }
}

impl LiteralView {
    /// The value as text: `true` or `false`, the characters of a string
    /// without quotes, an integer in decimal notation.
    pub open spec fn text(self) -> Seq<char> {
        match self {
            LiteralView::Boolean(b) => if b {
                "true"@
            } else {
                "false"@
            },
            LiteralView::String(s) => s,
            LiteralView::Int(v) => signed_decimal(v as int),
            LiteralView::Long(v) => signed_decimal(v as int),
        }
    }
}

/// Appends the decimal notation of `v` to `out`, with a minus sign in front
/// when `v` is negative.
pub fn push_signed(out: &mut String, v: i64)
    ensures
        final(out)@ == old(out)@ + signed_decimal(v as int),
{
    if v < 0 {
        out.push('-');
        let magnitude: u64 = (-(v + 1)) as u64 + 1;
        push_decimal(out, magnitude);
        assert(final(out)@ =~= old(out)@ + signed_decimal(v as int));
    } else {
        push_decimal(out, v as u64);
    }
}

impl Literal {
    pub fn to_string(&self) -> (s: String)
        ensures
            s@ == self@.text(),
    {
        match self {
            Literal::Boolean(b) => if *b {
                String::from_str("true")
            } else {
                String::from_str("false")
            },
            Literal::String(text) => text.clone(),
            Literal::Int(v) => {
                let mut out = String::new();
                push_signed(&mut out, *v as i64);
                assert(out@ =~= signed_decimal(*v as int));
                out
            },
            Literal::Long(v) => {
                let mut out = String::new();
                push_signed(&mut out, *v);
                assert(out@ =~= signed_decimal(*v as int));
                out
            },
        }
    }
}

impl TokenDataView {
    /// An opening round bracket, the kind of token, a comma, and what the
    /// token holds. Separators and operators are listed under the kind
    /// `Keyword`, by the names of their variants.
    pub open spec fn text(self) -> Seq<char> {
        match self {
            TokenDataView::Identifier(name) => "(Identifier, "@ + name,
            TokenDataView::Keyword(k) => "(Keyword, "@ + k.name(),
            TokenDataView::Separator(s) => "(Keyword, "@ + s.name(),
            TokenDataView::Literal(l) => "(Literal, "@ + l.text(),
            TokenDataView::Operator(o) => "(Keyword, "@ + o.name(),
        }
    }
}

impl TokenData {
    /// What the word `text` stands for: `true` and `false` are boolean
    /// literals, the reserved words are keywords, and any other word is an
    /// identifier.
    pub fn from_word(text: String) -> (data: TokenData)
        ensures
            data@ == classify_word(text@),
    {
        let n = text.as_str().unicode_len();
        if text_equals(text.as_str(), n, "true") {
            TokenData::Literal(Literal::Boolean(true))
        } else if text_equals(text.as_str(), n, "false") {
            TokenData::Literal(Literal::Boolean(false))
        } else {
            match Keyword::from_str(text.as_str()) {
                Ok(k) => TokenData::Keyword(k),
                Err(_) => TokenData::Identifier(text),
            }
        }
    }

    pub fn to_string(&self) -> (s: String)
        ensures
            s@ == self@.text(),
    {
        match self {
            TokenData::Identifier(name) => String::from_str("(Identifier, ").concat(name.as_str()),
            TokenData::Keyword(k) => String::from_str("(Keyword, ").concat(k.to_string().as_str()),
            TokenData::Separator(sep) => String::from_str("(Keyword, ").concat(
                sep.to_string().as_str(),
            ),
            TokenData::Literal(l) => String::from_str("(Literal, ").concat(l.to_string().as_str()),
            TokenData::Operator(o) => String::from_str("(Keyword, ").concat(o.to_string().as_str()),
        }
    }
}

impl TokenView {
    /// Line, column and content, as `line : col :: content`.
    pub open spec fn text(self) -> Seq<char> {
        decimal(self.line) + " : "@ + decimal(self.col) + " :: "@ + self.data.text()
    }
}

impl Token {
    pub fn to_string(&self) -> (s: String)
        ensures
            s@ == self@.text(),
    {
        let mut out = String::new();
        push_decimal(&mut out, self.line as u64);
        out.append(" : ");
        push_decimal(&mut out, self.col as u64);
        out.append(" :: ");
        out.append(self.data.to_string().as_str());
        assert(out@ =~= self@.text());
        out
    }
}

} // verus!
