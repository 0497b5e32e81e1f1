//! Tokens written back as source text.

use vstd::prelude::*;
use vstd::string::StringExecFns;
use crate::syntax::number::signed_decimal;
use crate::syntax::token::{
    push_signed, tokens_view, Keyword, Literal, LiteralView, Operator, Separator, Token,
    TokenData, TokenDataView, TokenView,
};

verus! {

impl Keyword {
    /// The word that is reserved for the keyword.
    pub open spec fn spelling(self) -> Seq<char> {
        match self {
            Keyword::Fn => "fn"@,
            Keyword::If => "if"@,
            Keyword::Let => "let"@,
            Keyword::For => "for"@,
            Keyword::Return => "return"@,
            Keyword::Switch => "switch"@,
        }
    }
}

impl Separator {
    pub open spec fn symbol(self) -> char {
        match self {
            Separator::OpeningParen => '(',
            Separator::ClosingParen => ')',
            Separator::OpeningBlock => '{',
            Separator::ClosingBlock => '}',
            Separator::Semicolon => ';',
            Separator::Comma => ',',
            Separator::Dot => '.',
        }
    }
}

impl Operator {
    pub open spec fn symbol(self) -> char {
        match self {
            Operator::Add => '+',
            Operator::Subtract => '-',
            Operator::Multiply => '*',
            Operator::Divide => '/',
            Operator::Assignment => '=',
        }
    }
}

/// The quote to put round `body`: the single quote, unless `body` holds one.
pub open spec fn quote_for(body: Seq<char>) -> char {
    if body.contains('\'') {
        '"'
    } else {
        '\''
    }
}

impl TokenDataView {
    /// The token as it is written in source text: a word, a symbol, a number
    /// in decimal notation, a string between quotes.
    pub open spec fn spelling(self) -> Seq<char> {
        match self {
            TokenDataView::Identifier(name) => name,
            TokenDataView::Keyword(k) => k.spelling(),
            TokenDataView::Separator(s) => seq![s.symbol()],
            TokenDataView::Operator(o) => seq![o.symbol()],
            TokenDataView::Literal(LiteralView::Boolean(b)) => if b {
                "true"@
            } else {
                "false"@
            },
            TokenDataView::Literal(LiteralView::String(body)) => seq![quote_for(body)] + body
                + seq![quote_for(body)],
            TokenDataView::Literal(LiteralView::Int(v)) => signed_decimal(v as int),
            TokenDataView::Literal(LiteralView::Long(v)) => signed_decimal(v as int),
        }
    }
}

/// What the tokens say, without their positions.
pub open spec fn contents(tokens: Seq<TokenView>) -> Seq<TokenDataView> {
    tokens.map_values(|t: TokenView| t.data)
}

/// The spellings of the tokens, one space between each two.
pub open spec fn spell(tokens: Seq<TokenDataView>) -> Seq<char>
    decreases tokens.len(),
{
    if tokens.len() == 0 {
        Seq::empty()
    } else if tokens.len() == 1 {
        tokens[0].spelling()
    } else {
        tokens[0].spelling() + seq![' '] + spell(tokens.drop_first())
    }
}

/// Spelling one token more adds a space and that token's spelling.
pub proof fn lemma_spell_push(tokens: Seq<TokenDataView>, last: TokenDataView)
    ensures
        spell(tokens.push(last)) == (if tokens.len() == 0 {
            last.spelling()
        } else {
            spell(tokens) + seq![' '] + last.spelling()
        }),
    decreases tokens.len(),
{
    let all = tokens.push(last);
    if tokens.len() == 0 {
        assert(all[0] == last);
    } else {
        assert(all[0] == tokens[0]);
        assert(all.drop_first() =~= tokens.drop_first().push(last));
        lemma_spell_push(tokens.drop_first(), last);
        if tokens.len() == 1 {
            assert(tokens.drop_first().len() == 0);
            assert(spell(all) =~= spell(tokens) + seq![' '] + last.spelling());
        } else {
            assert(spell(all) =~= spell(tokens) + seq![' '] + last.spelling());
        }
    }
}

/// Whether `c` occurs in `s`.
pub fn has_char(s: &str, c: char) -> (found: bool)
    ensures
        found == s@.contains(c),
{
    let mut found = false;
    let ghost mut seen: Seq<char> = Seq::empty();
    for x in it: s.chars()
        invariant
            seen == it.history(),
            found == seen.contains(c),
    {
        proof {
            let now = seen.push(x);
            if seen.contains(c) {
                let i = choose|i: int| 0 <= i < seen.len() && seen[i] == c;
                assert(now[i] == c);
            }
            if x == c {
                assert(now[now.len() - 1] == c);
            }
            if now.contains(c) && x != c {
                let i = choose|i: int| 0 <= i < now.len() && now[i] == c;
                assert(seen[i] == c);
            }
            seen = now;
        }
        if x == c {
            found = true;
        }
    }
    assert(seen == s@);
    found
}

impl Keyword {
    /// The keyword as a word of source text.
    pub fn to_word(&self) -> (s: String)
        ensures
            s@ == self.spelling(),
    {
        match self {
            Keyword::Fn => String::from_str("fn"),
            Keyword::If => String::from_str("if"),
            Keyword::Let => String::from_str("let"),
            Keyword::For => String::from_str("for"),
            Keyword::Return => String::from_str("return"),
            Keyword::Switch => String::from_str("switch"),
        }
    }
}

impl Separator {
    pub fn to_char(&self) -> (c: char)
        ensures
            c == self.symbol(),
    {
        match self {
            Separator::OpeningParen => '(',
            Separator::ClosingParen => ')',
            Separator::OpeningBlock => '{',
            Separator::ClosingBlock => '}',
            Separator::Semicolon => ';',
            Separator::Comma => ',',
            Separator::Dot => '.',
        }
    }
}

impl Operator {
    pub fn to_char(&self) -> (c: char)
        ensures
            c == self.symbol(),
    {
        match self {
            Operator::Add => '+',
            Operator::Subtract => '-',
            Operator::Multiply => '*',
            Operator::Divide => '/',
            Operator::Assignment => '=',
        }
    }
}

impl TokenData {
    /// Appends the token, as it is written in source text, to `out`.
    pub fn push_spelling(&self, out: &mut String)
        ensures
            final(out)@ == old(out)@ + self@.spelling(),
    {
        match self {
            TokenData::Identifier(name) => {
                out.append(name.as_str());
            },
            TokenData::Keyword(k) => {
                out.append(k.to_word().as_str());
            },
            TokenData::Separator(s) => {
                out.push(s.to_char());
            },
            TokenData::Operator(o) => {
                out.push(o.to_char());
            },
            TokenData::Literal(Literal::Boolean(b)) => {
                if *b {
                    out.append("true");
                } else {
                    out.append("false");
                }
            },
            TokenData::Literal(Literal::String(body)) => {
                let quote = if has_char(body.as_str(), '\'') {
                    '"'
                } else {
                    '\''
                };
                out.push(quote);
                out.append(body.as_str());
                out.push(quote);
            },
            TokenData::Literal(Literal::Int(v)) => {
                push_signed(out, *v as i64);
            },
            TokenData::Literal(Literal::Long(v)) => {
                push_signed(out, *v);
            },
        }
        assert(final(out)@ =~= old(out)@ + self@.spelling());
    }

    /// The token as it is written in source text.
    pub fn spelling(&self) -> (s: String)
        ensures
            s@ == self@.spelling(),
    {
        let mut out = String::new();
        self.push_spelling(&mut out);
        assert(out@ =~= self@.spelling());
        out
    }
}

/// The tokens as source text, one space between each two.
pub fn spell_tokens(tokens: &Vec<Token>) -> (s: String)
    ensures
        s@ == spell(contents(tokens_view(tokens@))),
{
    let ghost all = contents(tokens_view(tokens@));
    let mut out = String::new();
    let mut i: usize = 0;
    assert(all.take(0) =~= Seq::<TokenDataView>::empty());
    while i < tokens.len()
        invariant
            i <= tokens.len(),
            all == contents(tokens_view(tokens@)),
            out@ == spell(all.take(i as int)),
        decreases tokens.len() - i,
    {
        if i > 0 {
            out.push(' ');
        }
        proof {
            lemma_spell_push(all.take(i as int), all[i as int]);
            assert(all.take(i as int).push(all[i as int]) =~= all.take(i + 1));
            assert(all[i as int] == tokens@[i as int].data@);
        }
        tokens[i].data.push_spelling(&mut out);
        i = i + 1;
        assert(out@ =~= spell(all.take(i as int)));
    }
    assert(all.take(i as int) =~= all);
    out
}

} // verus!
