use interpreter::error::{Error, ErrorKind};
use interpreter::lexing::{Lexer, Token, TokenKind};
use interpreter::parsing::Parser;
use interpreter::TokenStream;

fn parse_error(name: &str, source: &str) -> Error {
    let (tokens, line, col) = Lexer::new(source).tokenize().expect("no literal overflows");
    let mut parser = Parser::new(name.to_string());
    parser.set_tokens(TokenStream::new(tokens, line, col));
    parser.parse().expect_err("the source is malformed")
}

#[test]
fn wrong_token_carries_the_token() {
    let token = Token::new(TokenKind::Identifier("abc".to_string()), 12, 7, 3);
    let error = Error::wrong_token("main.txt".to_string(), token);
    assert_eq!(error.filename(), "main.txt");
    assert_eq!(
        error.kind(),
        &ErrorKind::UnexpectedToken {
            provided: TokenKind::Identifier("abc".to_string()),
            token_length: 3
        }
    );
    assert_eq!(error.line, 12);
    assert_eq!(error.line(), 12);
    assert_eq!(error.col(), 7);
}

#[test]
fn caret_stands_under_the_plus() {
    let error = parse_error("main.txt", "print +;");
    let message = error.format_err("print +;");
    assert_eq!(
        message,
        "unexpected token '+' in 'main.txt' at line 1, column 7\n  |\n1 | print +;\n  |       ^"
    );
    let lines: Vec<&str> = message.lines().collect();
    assert_eq!(lines[3].matches('^').count(), 1);
    assert_eq!(lines[3].find('^'), lines[2].find('+'));
}

#[test]
fn caret_run_ends_at_the_recorded_column() {
    let token = Token::new(TokenKind::Identifier("total".to_string()), 1, 6, 5);
    let error = Error::wrong_token("a".to_string(), token);
    assert_eq!(
        error.format_err("total 1;"),
        "unexpected token 'total' in 'a' at line 1, column 6\n  |\n1 | total 1;\n  |  ^^^^^"
    );
}

#[test]
fn gutter_is_as_wide_as_the_line_number() {
    let token = Token::new(TokenKind::IntLiteral(42), 120, 9, 2);
    let error = Error::wrong_token("prog".to_string(), token);
    assert_eq!(
        error.format_err("print 1 42;"),
        "unexpected token '42' in 'prog' at line 120, column 9\n    |\n120 | print 1 42;\n    |        ^^"
    );
}

#[test]
fn end_of_input_is_rendered_as_eof() {
    let error = parse_error("f", "print 1");
    assert_eq!(
        error.format_err("print 1"),
        "unexpected token 'EOF' in 'f' at line 1, column 8\n  |\n1 | print 1\n  |        ^"
    );
}

#[test]
fn caret_run_longer_than_the_column_starts_the_line() {
    let token = Token::new(TokenKind::Plus, 3, 1, 4);
    let error = Error::wrong_token("f".to_string(), token);
    assert_eq!(
        error.format_err("+"),
        "unexpected token '+' in 'f' at line 3, column 1\n  |\n3 | +\n  | ^^^^"
    );
}

#[test]
fn length_below_one_gives_no_caret() {
    let token = Token::new(TokenKind::Plus, 3, 2, -1);
    let error = Error::wrong_token("f".to_string(), token);
    assert_eq!(
        error.format_err("+"),
        "unexpected token '+' in 'f' at line 3, column 2\n  |\n3 | +\n  |   "
    );
}

#[test]
fn negative_line_widens_the_gutter() {
    let token = Token::new(TokenKind::Plus, -5, 0, 1);
    let error = Error::wrong_token("f".to_string(), token);
    assert_eq!(
        error.format_err(""),
        "unexpected token '+' in 'f' at line -5, column 0\n   |\n-5 | \n   | ^"
    );
}

#[test]
fn zero_division_has_no_source_context() {
    let error = Error::zero_division("f".to_string(), 3, 4);
    assert_eq!(error.kind(), &ErrorKind::ZeroDivision);
    assert_eq!(error.format_err("print 1 / 0;"), "Can't divide by zero lmao");
    assert_eq!(error.to_string(), "Cannot divide by zero");
}

#[test]
fn literal_overflow_is_rendered_like_a_token() {
    let error = Error::literal_overflow("big".to_string(), 2, 26, 19);
    assert_eq!(error.kind(), &ErrorKind::LiteralOverflow { token_length: 19 });
    assert_eq!(
        error.format_err("print  9223372036854775808 + 1;"),
        "integer literal out of range in 'big' at line 2, column 26\n  |\n2 | print  9223372036854775808 + 1;\n  |        ^^^^^^^^^^^^^^^^^^^"
    );
    assert_eq!(error.to_string(), "Integer literal of length 19 is out of range.");
}

#[test]
fn description_names_token_and_length() {
    let token = Token::new(TokenKind::KwPrint, 1, 6, 5);
    let error = Error::wrong_token("f".to_string(), token);
    assert_eq!(error.to_string(), "Unexpected token print of length 5 found.");
}

#[test]
fn error_kind_clone_is_equal() {
    let kind = ErrorKind::UnexpectedToken {
        provided: TokenKind::Identifier("q".to_string()),
        token_length: 1,
    };
    assert_eq!(kind.clone(), kind);
}
