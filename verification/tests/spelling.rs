use tokenizer::syntax::lexer::Lexer;
use tokenizer::syntax::spelling::{has_char, spell_tokens};
use tokenizer::syntax::token::{Keyword, Literal, Operator, Separator, Token, TokenData};

fn lex(source: &str) -> Vec<Token> {
    let mut lexer = Lexer::new(source);
    assert_eq!(lexer.lex(), Ok(()));
    lexer.tokens
}

fn data(tokens: &[Token]) -> Vec<TokenData> {
    tokens.iter().map(|t| t.data.clone()).collect()
}

#[test]
fn spelling_of_each_kind() {
    assert_eq!(TokenData::Identifier("foo_1".to_string()).spelling(), "foo_1");
    assert_eq!(TokenData::Keyword(Keyword::Return).spelling(), "return");
    assert_eq!(TokenData::Separator(Separator::OpeningBlock).spelling(), "{");
    assert_eq!(TokenData::Operator(Operator::Divide).spelling(), "/");
    assert_eq!(TokenData::Literal(Literal::Boolean(true)).spelling(), "true");
    assert_eq!(TokenData::Literal(Literal::Boolean(false)).spelling(), "false");
    assert_eq!(TokenData::Literal(Literal::Int(10121)).spelling(), "10121");
    assert_eq!(TokenData::Literal(Literal::Long(2147483648)).spelling(), "2147483648");
    assert_eq!(TokenData::Literal(Literal::String("fish".to_string())).spelling(), "'fish'");
}

#[test]
fn keywords_and_symbols() {
    assert_eq!(Keyword::Fn.to_word(), "fn");
    assert_eq!(Keyword::If.to_word(), "if");
    assert_eq!(Keyword::Let.to_word(), "let");
    assert_eq!(Keyword::For.to_word(), "for");
    assert_eq!(Keyword::Return.to_word(), "return");
    assert_eq!(Keyword::Switch.to_word(), "switch");
    assert_eq!(Operator::Add.to_char(), '+');
    assert_eq!(Operator::Subtract.to_char(), '-');
    assert_eq!(Operator::Multiply.to_char(), '*');
    assert_eq!(Operator::Divide.to_char(), '/');
    assert_eq!(Operator::Assignment.to_char(), '=');
    assert_eq!(Separator::OpeningParen.to_char(), '(');
    assert_eq!(Separator::ClosingParen.to_char(), ')');
    assert_eq!(Separator::OpeningBlock.to_char(), '{');
    assert_eq!(Separator::ClosingBlock.to_char(), '}');
    assert_eq!(Separator::Semicolon.to_char(), ';');
    assert_eq!(Separator::Comma.to_char(), ',');
    assert_eq!(Separator::Dot.to_char(), '.');
}

#[test]
fn every_keyword_spells_a_word_that_reads_as_itself() {
    for k in [Keyword::Fn, Keyword::If, Keyword::Let, Keyword::For, Keyword::Return, Keyword::Switch] {
        assert_eq!(Keyword::from_str(&k.to_word()), Ok(k));
    }
}

#[test]
fn string_with_a_single_quote_goes_between_double_quotes() {
    assert_eq!(TokenData::Literal(Literal::String("it's".to_string())).spelling(), "\"it's\"");
    assert_eq!(
        TokenData::Literal(Literal::String("say \"hi\"".to_string())).spelling(),
        "'say \"hi\"'"
    );
    assert_eq!(TokenData::Literal(Literal::String(String::new())).spelling(), "''");
}

#[test]
fn push_spelling_appends() {
    let mut out = String::from("x ");
    TokenData::Operator(Operator::Assignment).push_spelling(&mut out);
    TokenData::Literal(Literal::Int(3)).push_spelling(&mut out);
    assert_eq!(out, "x =3");
}

#[test]
fn has_char_finds_a_character() {
    assert!(has_char("it's", '\''));
    assert!(has_char("'", '\''));
    assert!(has_char("größe", 'ß'));
    assert!(!has_char("", '\''));
    assert!(!has_char("say \"hi\"", '\''));
}

#[test]
fn spell_tokens_puts_one_space_between() {
    assert_eq!(spell_tokens(&Vec::new()), "");
    assert_eq!(spell_tokens(&lex("x")), "x");
    assert_eq!(spell_tokens(&lex("fn main() {}")), "fn main ( ) { }");
    assert_eq!(
        spell_tokens(&lex("'fish' + 'fish' + foo + 10121")),
        "'fish' + 'fish' + foo + 10121"
    );
}

#[test]
fn spelling_drops_layout_and_comments() {
    let source = "let  x=007 ;// note\n\n/* block\n */ return\t\"it's\"/2 . y";
    assert_eq!(spell_tokens(&lex(source)), "let x = 7 ; return \"it's\" / 2 . y");
}

#[test]
fn respelled_text_gives_the_same_tokens() {
    let sources = [
        "",
        "fn main() {}",
        "'fish' + 'fish' + foo + 10121",
        "let  x=007 ;// note\n\n/* block\n */ return\t\"it's\"/2 . y",
        "switch(a){for;if,true.false}=-*/ 2147483648 _ __x1 größe 'a\\' \"\" ''",
        "a/b//c\n/ /* d */ /e",
        "if0 fnx returns x\u{b2} 9223372036854775807 0",
    ];
    for source in sources {
        let tokens = lex(source);
        let again = lex(&spell_tokens(&tokens));
        assert_eq!(data(&again), data(&tokens), "{:?}", source);
    }
}

#[test]
fn tokens_before_a_fault_respell_too() {
    let mut lexer = Lexer::new("let x = 'abc");
    assert!(lexer.lex().is_err());
    let again = lex(&spell_tokens(&lexer.tokens));
    assert_eq!(data(&again), data(&lexer.tokens));
    assert_eq!(spell_tokens(&lexer.tokens), "let x =");
}

#[test]
fn respelling_twice_changes_nothing_more() {
    let once = spell_tokens(&lex("a  +b\n* ( 'c' )"));
    let twice = spell_tokens(&lex(&once));
    assert_eq!(once, "a + b * ( 'c' )");
    assert_eq!(twice, once);
}
