use tokenizer::syntax::grammar::LexErrorKind;
use tokenizer::syntax::lexer::{Lexer, LexerError};
use tokenizer::syntax::token::{Keyword, Literal, Operator, Separator, Token, TokenData};

fn data_of(lexer: &Lexer) -> Vec<TokenData> {
    lexer.tokens.iter().map(|t| t.data.clone()).collect()
}

fn ident(name: &str) -> TokenData {
    TokenData::Identifier(name.to_string())
}

fn string(text: &str) -> TokenData {
    TokenData::Literal(Literal::String(text.to_string()))
}

#[test]
fn new_starts_at_line_one_column_zero() {
    let lexer = Lexer::new("fn main() {}");
    assert!(lexer.tokens.is_empty());
    assert_eq!(lexer.line, 1);
    assert_eq!(lexer.col, 0);
    assert_eq!(lexer.peek_next(), Some('f'));
}

#[test]
fn empty_function() {
    let mut lexer = Lexer::new("fn main() {}");
    assert_eq!(lexer.lex(), Ok(()));
    assert_eq!(
        data_of(&lexer),
        vec![
            TokenData::Keyword(Keyword::Fn),
            ident("main"),
            TokenData::Separator(Separator::OpeningParen),
            TokenData::Separator(Separator::ClosingParen),
            TokenData::Separator(Separator::OpeningBlock),
            TokenData::Separator(Separator::ClosingBlock),
        ]
    );
}

#[test]
fn empty_function_positions() {
    let mut lexer = Lexer::new("fn main() {}");
    assert_eq!(lexer.lex(), Ok(()));
    let places: Vec<(usize, usize)> = lexer.tokens.iter().map(|t| (t.line, t.col)).collect();
    assert_eq!(places, vec![(1, 1), (1, 5), (1, 10), (1, 11), (1, 13), (1, 14)]);
    assert_eq!((lexer.line, lexer.col), (1, 14));
}

#[test]
fn strings_identifier_and_int() {
    let mut lexer = Lexer::new("'fish' + 'fish' + foo + 10121");
    assert_eq!(lexer.lex(), Ok(()));
    assert_eq!(
        data_of(&lexer),
        vec![
            string("fish"),
            TokenData::Operator(Operator::Add),
            string("fish"),
            TokenData::Operator(Operator::Add),
            ident("foo"),
            TokenData::Operator(Operator::Add),
            TokenData::Literal(Literal::Int(10121)),
        ]
    );
}

#[test]
fn number_beyond_64_bits_is_malformed() {
    let mut lexer = Lexer::new("'fish' + 'fish' + foo + 101868762148313247621");
    assert_eq!(
        lexer.lex(),
        Err(LexerError { kind: LexErrorKind::MalformedNumericLiteral })
    );
    assert_eq!(lexer.tokens.len(), 6);
    assert_eq!(lexer.tokens[5].data, TokenData::Operator(Operator::Add));
}

#[test]
fn string_open_at_end_of_input_keeps_earlier_tokens() {
    let mut lexer = Lexer::new("let x = 'abc");
    assert_eq!(
        lexer.lex(),
        Err(LexerError { kind: LexErrorKind::UnexpectedEndOfInput })
    );
    assert_eq!(
        lexer.tokens,
        vec![
            Token { line: 1, col: 1, data: TokenData::Keyword(Keyword::Let) },
            Token { line: 1, col: 6, data: ident("x") },
            Token { line: 1, col: 9, data: TokenData::Operator(Operator::Assignment) },
        ]
    );
    assert_eq!(lexer.peek_next(), None);
}

#[test]
fn line_comment_gives_no_token_and_counts_the_line() {
    let mut lexer = Lexer::new("let x // the rest is ignored = 'abc\ny = 2;");
    assert_eq!(lexer.lex(), Ok(()));
    assert_eq!(
        lexer.tokens,
        vec![
            Token { line: 1, col: 1, data: TokenData::Keyword(Keyword::Let) },
            Token { line: 1, col: 6, data: ident("x") },
            Token { line: 2, col: 1, data: ident("y") },
            Token { line: 2, col: 4, data: TokenData::Operator(Operator::Assignment) },
            Token { line: 2, col: 6, data: TokenData::Literal(Literal::Int(2)) },
            Token { line: 2, col: 8, data: TokenData::Separator(Separator::Semicolon) },
        ]
    );
    assert_eq!((lexer.line, lexer.col), (2, 8));
}

fn kind_of(result: Result<(), LexerError>) -> Option<LexErrorKind> {
    result.err().map(|e| e.kind)
}

#[test]
fn empty_source_gives_nothing() {
    let mut lexer = Lexer::new("");
    assert!(lexer.in_range());
    assert_eq!(lexer.lex(), Ok(()));
    assert!(lexer.tokens.is_empty());
    assert_eq!((lexer.line, lexer.col), (1, 0));
}

#[test]
fn every_operator_and_separator() {
    let mut lexer = Lexer::new("+-*/=(){};,.");
    assert_eq!(lexer.lex(), Ok(()));
    assert_eq!(
        data_of(&lexer),
        vec![
            TokenData::Operator(Operator::Add),
            TokenData::Operator(Operator::Subtract),
            TokenData::Operator(Operator::Multiply),
            TokenData::Operator(Operator::Divide),
            TokenData::Operator(Operator::Assignment),
            TokenData::Separator(Separator::OpeningParen),
            TokenData::Separator(Separator::ClosingParen),
            TokenData::Separator(Separator::OpeningBlock),
            TokenData::Separator(Separator::ClosingBlock),
            TokenData::Separator(Separator::Semicolon),
            TokenData::Separator(Separator::Comma),
            TokenData::Separator(Separator::Dot),
        ]
    );
    let cols: Vec<usize> = lexer.tokens.iter().map(|t| t.col).collect();
    assert_eq!(cols, vec![1, 2, 3, 4, 5, 6, 7, 8, 9, 10, 11, 12]);
}

#[test]
fn every_keyword_and_both_booleans() {
    let mut lexer = Lexer::new("fn if let for return switch true false");
    assert_eq!(lexer.lex(), Ok(()));
    assert_eq!(
        data_of(&lexer),
        vec![
            TokenData::Keyword(Keyword::Fn),
            TokenData::Keyword(Keyword::If),
            TokenData::Keyword(Keyword::Let),
            TokenData::Keyword(Keyword::For),
            TokenData::Keyword(Keyword::Return),
            TokenData::Keyword(Keyword::Switch),
            TokenData::Literal(Literal::Boolean(true)),
            TokenData::Literal(Literal::Boolean(false)),
        ]
    );
}

#[test]
fn keywords_match_exactly_and_by_case() {
    let mut lexer = Lexer::new("Fn fnx f returns TRUE _let let_ if0");
    assert_eq!(lexer.lex(), Ok(()));
    assert_eq!(
        data_of(&lexer),
        vec![
            ident("Fn"),
            ident("fnx"),
            ident("f"),
            ident("returns"),
            ident("TRUE"),
            ident("_let"),
            ident("let_"),
            ident("if0"),
        ]
    );
}

#[test]
fn word_charges_its_length_after_the_first_column() {
    let mut lexer = Lexer::new("ab cd");
    assert_eq!(lexer.lex(), Ok(()));
    assert_eq!(
        lexer.tokens,
        vec![
            Token { line: 1, col: 1, data: ident("ab") },
            Token { line: 1, col: 5, data: ident("cd") },
        ]
    );
    assert_eq!(lexer.col, 7);
}

#[test]
fn number_charges_its_length_after_the_first_column() {
    let mut lexer = Lexer::new("123+4");
    assert_eq!(lexer.lex(), Ok(()));
    assert_eq!(
        lexer.tokens,
        vec![
            Token { line: 1, col: 1, data: TokenData::Literal(Literal::Int(123)) },
            Token { line: 1, col: 5, data: TokenData::Operator(Operator::Add) },
            Token { line: 1, col: 6, data: TokenData::Literal(Literal::Int(4)) },
        ]
    );
    assert_eq!(lexer.col, 7);
}

#[test]
fn string_charges_body_and_closing_quote() {
    let mut lexer = Lexer::new("'abc'+");
    assert_eq!(lexer.lex(), Ok(()));
    assert_eq!(
        lexer.tokens,
        vec![
            Token { line: 1, col: 1, data: string("abc") },
            Token { line: 1, col: 6, data: TokenData::Operator(Operator::Add) },
        ]
    );
}

#[test]
fn string_column_counts_characters_not_bytes() {
    let mut lexer = Lexer::new("'äö'+");
    assert_eq!(lexer.lex(), Ok(()));
    assert_eq!(lexer.tokens[0], Token { line: 1, col: 1, data: string("äö") });
    assert_eq!(lexer.tokens[1].col, 5);
}

#[test]
fn int_and_long_split_at_the_32_bit_limit() {
    let mut lexer = Lexer::new("0 2147483647 2147483648 9223372036854775807");
    assert_eq!(lexer.lex(), Ok(()));
    assert_eq!(
        data_of(&lexer),
        vec![
            TokenData::Literal(Literal::Int(0)),
            TokenData::Literal(Literal::Int(2147483647)),
            TokenData::Literal(Literal::Long(2147483648)),
            TokenData::Literal(Literal::Long(9223372036854775807)),
        ]
    );
}

#[test]
fn number_one_above_64_bits_is_malformed() {
    let mut lexer = Lexer::new("1 9223372036854775808 2");
    assert_eq!(kind_of(lexer.lex()), Some(LexErrorKind::MalformedNumericLiteral));
    assert_eq!(data_of(&lexer), vec![TokenData::Literal(Literal::Int(1))]);
    assert_eq!((lexer.line, lexer.col), (1, 4));
    assert_eq!(lexer.peek_next(), Some(' '));
}

#[test]
fn leading_zeros_do_not_change_the_value() {
    let mut lexer = Lexer::new("007 00000000000000000000000000012");
    assert_eq!(lexer.lex(), Ok(()));
    assert_eq!(
        data_of(&lexer),
        vec![TokenData::Literal(Literal::Int(7)), TokenData::Literal(Literal::Int(12))]
    );
}

#[test]
fn numeric_character_beyond_ascii_is_malformed() {
    let mut lexer = Lexer::new("x = 1\u{b2}");
    assert_eq!(kind_of(lexer.lex()), Some(LexErrorKind::MalformedNumericLiteral));
    assert_eq!(lexer.tokens.len(), 2);
    assert_eq!(lexer.peek_next(), None);
}

#[test]
fn numeric_character_beyond_ascii_starts_a_number() {
    let mut lexer = Lexer::new("\u{0663}");
    assert_eq!(kind_of(lexer.lex()), Some(LexErrorKind::MalformedNumericLiteral));
    assert!(lexer.tokens.is_empty());
}

#[test]
fn letters_beyond_ascii_make_words() {
    let mut lexer = Lexer::new("größe = naïve_1 + \u{3b1}\u{3b2}");
    assert_eq!(lexer.lex(), Ok(()));
    assert_eq!(
        data_of(&lexer),
        vec![
            ident("größe"),
            TokenData::Operator(Operator::Assignment),
            ident("naïve_1"),
            TokenData::Operator(Operator::Add),
            ident("\u{3b1}\u{3b2}"),
        ]
    );
}

#[test]
fn word_may_hold_numeric_characters_beyond_ascii() {
    let mut lexer = Lexer::new("x\u{b2}");
    assert_eq!(lexer.lex(), Ok(()));
    assert_eq!(data_of(&lexer), vec![ident("x\u{b2}")]);
}

#[test]
fn other_characters_are_ignored() {
    let mut lexer = Lexer::new(" \t\r#@!%^&[]<>?:|~`$\\\u{2603}");
    assert_eq!(lexer.lex(), Ok(()));
    assert!(lexer.tokens.is_empty());
    assert_eq!((lexer.line, lexer.col), (1, 21));
}

#[test]
fn line_break_starts_a_new_line_at_column_zero() {
    let mut lexer = Lexer::new("a\n\n  b\n");
    assert_eq!(lexer.lex(), Ok(()));
    assert_eq!(
        lexer.tokens,
        vec![
            Token { line: 1, col: 1, data: ident("a") },
            Token { line: 3, col: 3, data: ident("b") },
        ]
    );
    assert_eq!((lexer.line, lexer.col), (4, 0));
}

#[test]
fn string_ends_at_the_quote_that_opened_it() {
    let mut lexer = Lexer::new("'say \"hi\"' \"it's\"");
    assert_eq!(lexer.lex(), Ok(()));
    assert_eq!(data_of(&lexer), vec![string("say \"hi\""), string("it's")]);
}

#[test]
fn string_has_no_escapes() {
    let mut lexer = Lexer::new("'a\\' b");
    assert_eq!(lexer.lex(), Ok(()));
    assert_eq!(data_of(&lexer), vec![string("a\\"), ident("b")]);
}

#[test]
fn empty_string() {
    let mut lexer = Lexer::new("''\"\"");
    assert_eq!(lexer.lex(), Ok(()));
    assert_eq!(
        lexer.tokens,
        vec![
            Token { line: 1, col: 1, data: string("") },
            Token { line: 1, col: 3, data: string("") },
        ]
    );
    assert_eq!(lexer.col, 4);
}

#[test]
fn comment_markers_inside_a_string_are_text() {
    let mut lexer = Lexer::new("'/* no */ // way' x");
    assert_eq!(lexer.lex(), Ok(()));
    assert_eq!(data_of(&lexer), vec![string("/* no */ // way"), ident("x")]);
}

#[test]
fn line_break_inside_a_string_is_unterminated() {
    let mut lexer = Lexer::new("let s = 'abc\ndef';");
    assert_eq!(
        lexer.lex(),
        Err(LexerError { kind: LexErrorKind::UnterminatedString })
    );
    assert_eq!(
        data_of(&lexer),
        vec![
            TokenData::Keyword(Keyword::Let),
            ident("s"),
            TokenData::Operator(Operator::Assignment),
        ]
    );
    assert_eq!((lexer.line, lexer.col), (1, 11));
    assert_eq!(lexer.peek_next(), Some('d'));
}

#[test]
fn lone_quote_at_end_of_input() {
    let mut lexer = Lexer::new("\"");
    assert_eq!(kind_of(lexer.lex()), Some(LexErrorKind::UnexpectedEndOfInput));
    assert!(lexer.tokens.is_empty());
    assert_eq!((lexer.line, lexer.col), (1, 1));
}

#[test]
fn slash_before_anything_else_divides() {
    let mut lexer = Lexer::new("a/b / 2");
    assert_eq!(lexer.lex(), Ok(()));
    assert_eq!(
        data_of(&lexer),
        vec![
            ident("a"),
            TokenData::Operator(Operator::Divide),
            ident("b"),
            TokenData::Operator(Operator::Divide),
            TokenData::Literal(Literal::Int(2)),
        ]
    );
}

#[test]
fn slash_at_end_of_input_divides() {
    let mut lexer = Lexer::new("a /");
    assert_eq!(lexer.lex(), Ok(()));
    assert_eq!(
        lexer.tokens,
        vec![
            Token { line: 1, col: 1, data: ident("a") },
            Token { line: 1, col: 4, data: TokenData::Operator(Operator::Divide) },
        ]
    );
}

#[test]
fn slash_before_a_line_break_divides_and_the_line_counts() {
    let mut lexer = Lexer::new("/\nx");
    assert_eq!(lexer.lex(), Ok(()));
    assert_eq!(
        lexer.tokens,
        vec![
            Token { line: 1, col: 1, data: TokenData::Operator(Operator::Divide) },
            Token { line: 2, col: 1, data: ident("x") },
        ]
    );
}

#[test]
fn line_comment_may_end_the_input() {
    let mut lexer = Lexer::new("x // no line break behind this");
    assert_eq!(lexer.lex(), Ok(()));
    assert_eq!(data_of(&lexer), vec![ident("x")]);
    assert_eq!((lexer.line, lexer.col), (1, 4));
    assert_eq!(lexer.peek_next(), None);
}

#[test]
fn empty_line_comment() {
    let mut lexer = Lexer::new("//\n//\nx");
    assert_eq!(lexer.lex(), Ok(()));
    assert_eq!(lexer.tokens, vec![Token { line: 3, col: 1, data: ident("x") }]);
}

#[test]
fn block_comment_is_skipped_within_the_line() {
    let mut lexer = Lexer::new("a /* b * / c */ d");
    assert_eq!(lexer.lex(), Ok(()));
    assert_eq!(
        lexer.tokens,
        vec![
            Token { line: 1, col: 1, data: ident("a") },
            Token { line: 1, col: 6, data: ident("d") },
        ]
    );
}

#[test]
fn block_comment_ends_at_the_first_close() {
    let mut lexer = Lexer::new("/* a */ b */");
    assert_eq!(lexer.lex(), Ok(()));
    assert_eq!(
        data_of(&lexer),
        vec![
            ident("b"),
            TokenData::Operator(Operator::Multiply),
            TokenData::Operator(Operator::Divide),
        ]
    );
}

#[test]
fn block_comment_does_not_count_its_line_breaks() {
    let mut lexer = Lexer::new("/* one\ntwo\n*/x");
    assert_eq!(lexer.lex(), Ok(()));
    assert_eq!(lexer.tokens, vec![Token { line: 1, col: 2, data: ident("x") }]);
}

#[test]
fn block_comment_with_stars() {
    let mut lexer = Lexer::new("/***/x/**/y");
    assert_eq!(lexer.lex(), Ok(()));
    assert_eq!(data_of(&lexer), vec![ident("x"), ident("y")]);
}

#[test]
fn star_of_the_opening_does_not_close() {
    let mut lexer = Lexer::new("/*/ x");
    assert_eq!(kind_of(lexer.lex()), Some(LexErrorKind::UnexpectedEndOfInput));
    assert!(lexer.tokens.is_empty());
    let mut closed = Lexer::new("/*/ x */ y");
    assert_eq!(closed.lex(), Ok(()));
    assert_eq!(data_of(&closed), vec![ident("y")]);
}

#[test]
fn open_block_comment_is_a_fault_and_keeps_earlier_tokens() {
    let mut lexer = Lexer::new("a = 1 /* never closed *");
    assert_eq!(
        lexer.lex(),
        Err(LexerError { kind: LexErrorKind::UnexpectedEndOfInput })
    );
    assert_eq!(lexer.tokens.len(), 3);
    assert_eq!(lexer.peek_next(), None);
}

#[test]
fn lex_after_a_fault_goes_on_behind_it() {
    let mut lexer = Lexer::new("a 99999999999999999999 b");
    assert_eq!(kind_of(lexer.lex()), Some(LexErrorKind::MalformedNumericLiteral));
    assert_eq!(data_of(&lexer), vec![ident("a")]);
    assert!(lexer.in_range());
    assert_eq!(lexer.lex(), Ok(()));
    assert_eq!(data_of(&lexer), vec![ident("a"), ident("b")]);
}

#[test]
fn lex_twice_adds_nothing() {
    let mut lexer = Lexer::new("a b");
    assert_eq!(lexer.lex(), Ok(()));
    let before = lexer.tokens.clone();
    assert_eq!(lexer.lex(), Ok(()));
    assert_eq!(lexer.tokens, before);
}

#[test]
fn small_program() {
    let source = "
fn println() {
    let x = 1;
    //bruh
    return 'this is a test on its intellegence'; '/* no way */
}
";
    let mut lexer = Lexer::new(source);
    assert_eq!(
        lexer.lex(),
        Err(LexerError { kind: LexErrorKind::UnterminatedString })
    );
    assert_eq!(
        lexer.tokens,
        vec![
            Token { line: 2, col: 1, data: TokenData::Keyword(Keyword::Fn) },
            Token { line: 2, col: 5, data: ident("println") },
            Token { line: 2, col: 13, data: TokenData::Separator(Separator::OpeningParen) },
            Token { line: 2, col: 14, data: TokenData::Separator(Separator::ClosingParen) },
            Token { line: 2, col: 16, data: TokenData::Separator(Separator::OpeningBlock) },
            Token { line: 3, col: 5, data: TokenData::Keyword(Keyword::Let) },
            Token { line: 3, col: 10, data: ident("x") },
            Token { line: 3, col: 13, data: TokenData::Operator(Operator::Assignment) },
            Token { line: 3, col: 15, data: TokenData::Literal(Literal::Int(1)) },
            Token { line: 3, col: 17, data: TokenData::Separator(Separator::Semicolon) },
            Token { line: 5, col: 5, data: TokenData::Keyword(Keyword::Return) },
            Token {
                line: 5,
                col: 13,
                data: string("this is a test on its intellegence"),
            },
            Token { line: 5, col: 49, data: TokenData::Separator(Separator::Semicolon) },
        ]
    );
    assert_eq!((lexer.line, lexer.col), (5, 51));
}

#[test]
fn step_reads_one_lexeme() {
    let mut lexer = Lexer::new("ab 'c' 12");
    assert_eq!(lexer.step(), Ok(()));
    assert_eq!(data_of(&lexer), vec![ident("ab")]);
    assert_eq!(lexer.peek_next(), Some(' '));
    assert_eq!(lexer.step(), Ok(()));
    assert_eq!(lexer.tokens.len(), 1);
    assert_eq!(lexer.step(), Ok(()));
    assert_eq!(data_of(&lexer), vec![ident("ab"), string("c")]);
}

#[test]
fn step_at_the_end_is_a_fault() {
    let mut lexer = Lexer::new("a");
    assert_eq!(lexer.step(), Ok(()));
    assert_eq!(
        lexer.step(),
        Err(LexerError { kind: LexErrorKind::UnexpectedEndOfInput })
    );
    assert_eq!(data_of(&lexer), vec![ident("a")]);
    assert_eq!((lexer.line, lexer.col), (1, 2));
}

#[test]
fn next_takes_characters_and_fails_at_the_end() {
    let mut lexer = Lexer::new("ab");
    assert_eq!(lexer.next(), Ok('a'));
    assert_eq!(lexer.peek_next(), Some('b'));
    assert_eq!(lexer.next(), Ok('b'));
    assert_eq!(lexer.peek_next(), None);
    assert_eq!(
        lexer.next(),
        Err(LexerError { kind: LexErrorKind::UnexpectedEndOfInput })
    );
    assert_eq!((lexer.line, lexer.col), (1, 0));
}

#[test]
fn push_token_uses_the_current_position() {
    let mut lexer = Lexer::new("");
    lexer.line = 7;
    lexer.col = 3;
    lexer.push_token(TokenData::Keyword(Keyword::If));
    assert_eq!(
        lexer.tokens,
        vec![Token { line: 7, col: 3, data: TokenData::Keyword(Keyword::If) }]
    );
    assert_eq!((lexer.line, lexer.col), (7, 3));
}

#[test]
fn readers_go_on_after_the_first_character() {
    let mut lexer = Lexer::new("abc' + x1 = 42; // c\n/* d */ /");
    lexer.col = 1;
    assert_eq!(lexer.lex_string('\''), Ok(()));
    assert_eq!(lexer.tokens[0], Token { line: 1, col: 1, data: string("abc") });
    assert_eq!(lexer.col, 5);
    assert_eq!(lexer.next(), Ok(' '));
    assert_eq!(lexer.next(), Ok('+'));
    assert_eq!(lexer.next(), Ok(' '));
    assert_eq!(lexer.next(), Ok('x'));
    assert_eq!(lexer.lex_word('x'), Ok(()));
    assert_eq!(lexer.tokens[1].data, ident("x1"));
    assert_eq!(lexer.col, 7);
    assert_eq!(lexer.next(), Ok(' '));
    assert_eq!(lexer.next(), Ok('='));
    assert_eq!(lexer.next(), Ok(' '));
    assert_eq!(lexer.next(), Ok('4'));
    assert_eq!(lexer.lex_number('4'), Ok(()));
    assert_eq!(lexer.tokens[2].data, TokenData::Literal(Literal::Int(42)));
    assert_eq!(lexer.col, 9);
    assert_eq!(lexer.next(), Ok(';'));
    assert_eq!(lexer.next(), Ok(' '));
    assert_eq!(lexer.next(), Ok('/'));
    assert_eq!(lexer.lex_slash(), Ok(()));
    assert_eq!((lexer.line, lexer.col), (2, 0));
    assert_eq!(lexer.next(), Ok('/'));
    assert_eq!(lexer.next(), Ok('*'));
    assert_eq!(lexer.skip_block_comment(), Ok(()));
    assert_eq!(lexer.next(), Ok(' '));
    assert_eq!(lexer.next(), Ok('/'));
    assert_eq!(lexer.lex_slash(), Ok(()));
    assert_eq!(lexer.tokens[3].data, TokenData::Operator(Operator::Divide));
    assert_eq!(lexer.tokens.len(), 4);
}

#[test]
fn skip_line_comment_stops_behind_the_line_break() {
    let mut lexer = Lexer::new(" rest of it\nx");
    lexer.skip_line_comment();
    assert_eq!((lexer.line, lexer.col), (2, 0));
    assert_eq!(lexer.peek_next(), Some('x'));
}

#[test]
fn error_messages() {
    assert_eq!(
        LexerError::new(LexErrorKind::UnexpectedEndOfInput).to_string(),
        "Reached end of buffer"
    );
    assert_eq!(
        LexerError::new(LexErrorKind::UnterminatedString).to_string(),
        "Reached EOL while parsing string"
    );
    assert_eq!(
        LexerError::new(LexErrorKind::MalformedNumericLiteral).to_string(),
        "Failed to parse number"
    );
}
