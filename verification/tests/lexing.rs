use interpreter::lexing::{LexError, Lexer, Token, TokenKind};

fn tokens_of(source: &str) -> (Vec<Token>, i32, i32) {
    Lexer::new(source).tokenize().expect("no literal overflows")
}

fn kinds_of(source: &str) -> Vec<TokenKind> {
    tokens_of(source).0.into_iter().map(|token| token.kind).collect()
}

fn display(tokens: &[Token]) -> String {
    let words: Vec<String> = tokens.iter().map(|token| token.kind.to_string()).collect();
    words.join(" ")
}

#[test]
fn empty_source_has_no_tokens() {
    assert_eq!(tokens_of(""), (vec![], 1, 1));
}

#[test]
fn print_statement_positions() {
    let (tokens, line, col) = tokens_of("print 1 + 2;");
    assert_eq!(
        tokens,
        vec![
            Token::new(TokenKind::KwPrint, 1, 6, 5),
            Token::new(TokenKind::IntLiteral(1), 1, 8, 1),
            Token::new(TokenKind::Plus, 1, 9, 1),
            Token::new(TokenKind::IntLiteral(2), 1, 11, 1),
            Token::new(TokenKind::Semicolon, 1, 11, 1),
        ]
    );
    assert_eq!((line, col), (1, 11));
}

#[test]
fn literal_column_is_trailing_edge() {
    let (tokens, line, col) = tokens_of("12345");
    assert_eq!(tokens, vec![Token::new(TokenKind::IntLiteral(12345), 1, 6, 5)]);
    assert_eq!((line, col), (1, 6));
}

#[test]
fn punctuation_does_not_move_the_column() {
    let (tokens, _, col) = tokens_of("+-*/();");
    let columns: Vec<i32> = tokens.iter().map(|token| token.col).collect();
    assert_eq!(columns, vec![1; 7]);
    assert_eq!(col, 1);
    assert_eq!(
        kinds_of("+-*/();"),
        vec![
            TokenKind::Plus,
            TokenKind::Subtract,
            TokenKind::Times,
            TokenKind::Divide,
            TokenKind::LParen,
            TokenKind::RParen,
            TokenKind::Semicolon,
        ]
    );
}

#[test]
fn line_feed_resets_the_column_to_zero() {
    let (tokens, line, col) = tokens_of("print 1;\n  print 22;\n");
    assert_eq!(
        tokens,
        vec![
            Token::new(TokenKind::KwPrint, 1, 6, 5),
            Token::new(TokenKind::IntLiteral(1), 1, 8, 1),
            Token::new(TokenKind::Semicolon, 1, 8, 1),
            Token::new(TokenKind::KwPrint, 2, 7, 5),
            Token::new(TokenKind::IntLiteral(22), 2, 10, 2),
            Token::new(TokenKind::Semicolon, 2, 10, 1),
        ]
    );
    assert_eq!((line, col), (3, 0));
}

#[test]
fn literal_on_a_later_line() {
    assert_eq!(
        tokens_of("1\n2"),
        (
            vec![
                Token::new(TokenKind::IntLiteral(1), 1, 2, 1),
                Token::new(TokenKind::IntLiteral(2), 2, 1, 1),
            ],
            2,
            1
        )
    );
}

#[test]
fn single_character_token_that_opens_a_later_line_has_column_zero() {
    assert_eq!(
        tokens_of("\n+\n\n ;"),
        (
            vec![
                Token::new(TokenKind::Plus, 2, 0, 1),
                Token::new(TokenKind::Semicolon, 4, 1, 1),
            ],
            4,
            1
        )
    );
}

#[test]
fn words_are_keywords_or_identifiers() {
    assert_eq!(
        kinds_of("print printer _x1 Print x_2y"),
        vec![
            TokenKind::KwPrint,
            TokenKind::Identifier("printer".to_string()),
            TokenKind::Identifier("_x1".to_string()),
            TokenKind::Identifier("Print".to_string()),
            TokenKind::Identifier("x_2y".to_string()),
        ]
    );
}

#[test]
fn identifier_length_counts_characters() {
    let (tokens, _, _) = tokens_of("  total_9 ");
    assert_eq!(
        tokens,
        vec![Token::new(TokenKind::Identifier("total_9".to_string()), 1, 10, 7)]
    );
}

#[test]
fn digits_end_a_literal_at_a_letter() {
    assert_eq!(
        kinds_of("12ab"),
        vec![TokenKind::IntLiteral(12), TokenKind::Identifier("ab".to_string())]
    );
}

#[test]
fn other_characters_are_skipped_and_counted() {
    let (tokens, line, col) = tokens_of("\t= é 7");
    assert_eq!(tokens, vec![Token::new(TokenKind::IntLiteral(7), 1, 7, 1)]);
    assert_eq!((line, col), (1, 7));
}

#[test]
fn leading_zeros_are_part_of_the_literal() {
    let (tokens, _, _) = tokens_of("007");
    assert_eq!(tokens, vec![Token::new(TokenKind::IntLiteral(7), 1, 4, 3)]);
}

#[test]
fn largest_literal_fits() {
    assert_eq!(
        kinds_of("9223372036854775807"),
        vec![TokenKind::IntLiteral(i64::MAX)]
    );
}

#[test]
fn literal_overflow_is_reported_at_the_literal() {
    let result = Lexer::new("print 1;\nprint  9223372036854775808 + 1;").tokenize();
    assert_eq!(result, Err(LexError { line_number: 2, col: 26, length: 19 }));
}

#[test]
fn very_long_literal_overflows() {
    let result = Lexer::new("123456789012345678901234567890").tokenize();
    assert_eq!(result, Err(LexError { line_number: 1, col: 31, length: 30 }));
}

#[test]
fn second_tokenize_finds_nothing_left() {
    let mut lexer = Lexer::new("1 + 2");
    assert_eq!(lexer.tokenize().map(|scanned| scanned.0.len()), Ok(3));
    assert_eq!(lexer.tokenize(), Ok((vec![], 1, 1)));
}

#[test]
fn lexer_is_exhausted_after_an_overflow() {
    let mut lexer = Lexer::new("99999999999999999999 7");
    assert!(lexer.tokenize().is_err());
    assert_eq!(lexer.tokenize(), Ok((vec![], 1, 1)));
}

#[test]
fn token_kind_display() {
    assert_eq!(TokenKind::IntLiteral(42).to_string(), "42");
    assert_eq!(TokenKind::IntLiteral(0).to_string(), "0");
    assert_eq!(TokenKind::IntLiteral(-7).to_string(), "-7");
    assert_eq!(TokenKind::IntLiteral(i64::MIN).to_string(), "-9223372036854775808");
    assert_eq!(TokenKind::IntLiteral(i64::MAX).to_string(), "9223372036854775807");
    assert_eq!(TokenKind::Identifier("x".to_string()).to_string(), "x");
    assert_eq!(TokenKind::Plus.to_string(), "+");
    assert_eq!(TokenKind::Times.to_string(), "*");
    assert_eq!(TokenKind::Divide.to_string(), "/");
    assert_eq!(TokenKind::Subtract.to_string(), "-");
    assert_eq!(TokenKind::LParen.to_string(), "(");
    assert_eq!(TokenKind::RParen.to_string(), ")");
    assert_eq!(TokenKind::KwPrint.to_string(), "print");
    assert_eq!(TokenKind::Semicolon.to_string(), ";");
    assert_eq!(TokenKind::Eof.to_string(), "EOF");
}

#[test]
fn token_clone_is_equal() {
    let token = Token::new(TokenKind::Identifier("abc".to_string()), 3, 4, 3);
    assert_eq!(token.clone(), token);
}

#[test]
fn displayed_tokens_scan_to_the_same_kinds() {
    for source in ["1+2*3", " ( 10 -4)/ 2 ;", "\n\n7\n*\n8", "--5", "print x1 + print_ - 03;"] {
        let (tokens, _, _) = tokens_of(source);
        let again = kinds_of(&display(&tokens));
        let kinds: Vec<TokenKind> = tokens.into_iter().map(|token| token.kind).collect();
        assert_eq!(again, kinds);
    }
}

#[test]
fn displayed_tokens_are_normalised() {
    let (tokens, _, _) = tokens_of("  007+ ( 2 )");
    assert_eq!(display(&tokens), "7 + ( 2 )");
}
