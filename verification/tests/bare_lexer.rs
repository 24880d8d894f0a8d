use interpreter::lexer::{Lexer, Token};

fn drain(lexer: &mut Lexer) -> Vec<Token> {
    let mut tokens = Vec::new();
    loop {
        let token = lexer.next();
        if token == Token::Eof {
            return tokens;
        }
        tokens.push(token);
    }
}

#[test]
fn bare_tokens_come_in_source_order() {
    let mut lexer = Lexer::tokenize("12+(3 * 4)/5 - 6".to_string()).expect("no literal overflows");
    assert_eq!(
        drain(&mut lexer),
        vec![
            Token::IntLiteral(12),
            Token::Plus,
            Token::LParen,
            Token::IntLiteral(3),
            Token::Times,
            Token::IntLiteral(4),
            Token::RParen,
            Token::Divide,
            Token::IntLiteral(5),
            Token::Subtract,
            Token::IntLiteral(6),
        ]
    );
}

#[test]
fn bare_tokens_are_held_last_first() {
    let lexer = Lexer::tokenize("1 + 2".to_string()).expect("no literal overflows");
    assert_eq!(
        lexer.tokens,
        vec![Token::IntLiteral(2), Token::Plus, Token::IntLiteral(1)]
    );
}

#[test]
fn bare_lexer_skips_everything_else() {
    let mut lexer = Lexer::tokenize("a1;b 22\n=".to_string()).expect("no literal overflows");
    assert_eq!(drain(&mut lexer), vec![Token::IntLiteral(1), Token::IntLiteral(22)]);
}

#[test]
fn bare_peek_does_not_consume() {
    let mut lexer = Lexer::tokenize("7 *".to_string()).expect("no literal overflows");
    assert_eq!(lexer.peek(), Token::IntLiteral(7));
    assert_eq!(lexer.peek(), Token::IntLiteral(7));
    assert_eq!(lexer.next(), Token::IntLiteral(7));
    assert_eq!(lexer.peek(), Token::Times);
    assert_eq!(lexer.next(), Token::Times);
    assert_eq!(lexer.peek(), Token::Eof);
    assert_eq!(lexer.next(), Token::Eof);
    assert_eq!(lexer.next(), Token::Eof);
}

#[test]
fn bare_lexer_of_empty_text_is_at_the_end() {
    let mut lexer = Lexer::tokenize(String::new()).expect("no literal overflows");
    assert_eq!(lexer.tokens, vec![]);
    assert_eq!(lexer.peek(), Token::Eof);
    assert_eq!(lexer.next(), Token::Eof);
}

#[test]
fn bare_literal_bounds() {
    let mut lexer =
        Lexer::tokenize("9223372036854775807 0009".to_string()).expect("no literal overflows");
    assert_eq!(drain(&mut lexer), vec![Token::IntLiteral(i64::MAX), Token::IntLiteral(9)]);
    assert!(Lexer::tokenize("1 + 9223372036854775808".to_string()).is_none());
}
