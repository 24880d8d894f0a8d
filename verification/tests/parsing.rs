use interpreter::error::{Error, ErrorKind};
use interpreter::lexing::{Lexer, Token, TokenKind};
use interpreter::parsing::{Expr, Op, Parser, Program, Statement};
use interpreter::TokenStream;

fn parser_for(source: &str) -> Parser {
    let (tokens, line, col) = Lexer::new(source).tokenize().expect("no literal overflows");
    let mut parser = Parser::new("input".to_string());
    parser.set_tokens(TokenStream::new(tokens, line, col));
    parser
}

fn parse(source: &str) -> Result<Program, Error> {
    parser_for(source).parse()
}

fn expression(source: &str) -> Result<Expr, Error> {
    parser_for(source).parse_expression(0)
}

fn lit(n: i64) -> Expr {
    Expr::IntLiteral(n)
}

fn name(text: &str) -> Expr {
    Expr::Identifier(text.to_string())
}

fn binary(op: Op, left: Expr, right: Expr) -> Expr {
    Expr::BinaryOp { op, left: Box::new(left), right: Box::new(right) }
}

fn negate(value: Expr) -> Expr {
    Expr::UnaryOp { op: Op::Negate, value: Box::new(value) }
}

fn unexpected(error: &Error) -> (TokenKind, i32, i32, i32) {
    match error.kind() {
        ErrorKind::UnexpectedToken { provided, token_length } => {
            (provided.clone(), *token_length, error.line(), error.col())
        }
        other => panic!("not an unexpected token: {other:?}"),
    }
}

#[test]
fn subtraction_is_left_associative() {
    assert_eq!(
        expression("1 - 2 - 3;"),
        Ok(binary(Op::Subtract, binary(Op::Subtract, lit(1), lit(2)), lit(3)))
    );
}

#[test]
fn division_is_left_associative() {
    assert_eq!(
        expression("8 / 4 / 2;"),
        Ok(binary(Op::Divide, binary(Op::Divide, lit(8), lit(4)), lit(2)))
    );
}

#[test]
fn equal_precedence_mixes_left_to_right() {
    assert_eq!(
        expression("1 - 2 + 3 - 4;"),
        Ok(binary(
            Op::Subtract,
            binary(Op::Add, binary(Op::Subtract, lit(1), lit(2)), lit(3)),
            lit(4)
        ))
    );
}

#[test]
fn multiplication_binds_tighter_than_addition() {
    assert_eq!(
        expression("1 + 2 * 3;"),
        Ok(binary(Op::Add, lit(1), binary(Op::Mult, lit(2), lit(3))))
    );
}

#[test]
fn multiplication_before_addition_keeps_order() {
    assert_eq!(
        expression("1 * 2 + 3;"),
        Ok(binary(Op::Add, binary(Op::Mult, lit(1), lit(2)), lit(3)))
    );
}

#[test]
fn products_nest_inside_sums() {
    assert_eq!(
        expression("1 + 2 * 3 - 4 / 5;"),
        Ok(binary(
            Op::Subtract,
            binary(Op::Add, lit(1), binary(Op::Mult, lit(2), lit(3))),
            binary(Op::Divide, lit(4), lit(5))
        ))
    );
}

#[test]
fn parentheses_override_precedence() {
    assert_eq!(
        expression("(1 + 2) * 3;"),
        Ok(binary(Op::Mult, binary(Op::Add, lit(1), lit(2)), lit(3)))
    );
}

#[test]
fn nested_parentheses() {
    assert_eq!(
        expression("((1)) - (2 - (3 - 4));"),
        Ok(binary(
            Op::Subtract,
            lit(1),
            binary(Op::Subtract, lit(2), binary(Op::Subtract, lit(3), lit(4)))
        ))
    );
}

#[test]
fn prefix_negation_binds_tighter_than_infix() {
    assert_eq!(expression("-1 + 2;"), Ok(binary(Op::Add, negate(lit(1)), lit(2))));
}

#[test]
fn prefix_negation_takes_one_operand() {
    assert_eq!(expression("-2 * 3;"), Ok(binary(Op::Mult, negate(lit(2)), lit(3))));
    assert_eq!(expression("- - x;"), Ok(negate(negate(name("x")))));
    assert_eq!(
        expression("-(1 + 2) * 3;"),
        Ok(binary(Op::Mult, negate(binary(Op::Add, lit(1), lit(2))), lit(3)))
    );
}

#[test]
fn infix_minus_then_prefix_minus() {
    assert_eq!(expression("1 - -2;"), Ok(binary(Op::Subtract, lit(1), negate(lit(2)))));
}

#[test]
fn identifiers_are_operands() {
    assert_eq!(
        expression("a * b1 + _c;"),
        Ok(binary(Op::Add, binary(Op::Mult, name("a"), name("b1")), name("_c")))
    );
}

#[test]
fn minimum_binding_power_stops_the_expression() {
    let mut parser = parser_for("1 + 2;");
    assert_eq!(parser.parse_expression(11), Ok(lit(1)));
    let mut parser = parser_for("1 * 2 + 3;");
    assert_eq!(parser.parse_expression(11), Ok(binary(Op::Mult, lit(1), lit(2))));
    let mut parser = parser_for("1 * 2 + 3;");
    assert_eq!(parser.parse_expression(21), Ok(lit(1)));
    let mut parser = parser_for("1 + 2;");
    assert_eq!(
        parser.parse_expression(10),
        Ok(binary(Op::Add, lit(1), lit(2)))
    );
}

#[test]
fn expression_leaves_its_terminator() {
    let mut parser = parser_for("1 + 2; 3");
    assert_eq!(parser.parse_expression(0), Ok(binary(Op::Add, lit(1), lit(2))));
    assert_eq!(parser.parse_expression(0).map_err(|e| unexpected(&e)),
        Err((TokenKind::Semicolon, 1, 1, 5)));
}

#[test]
fn print_statement_parses() {
    assert_eq!(
        parse("print 1 + 2;"),
        Ok(Program { statements: vec![Statement::Print(binary(Op::Add, lit(1), lit(2)))] })
    );
}

#[test]
fn end_of_input_ends_the_program() {
    assert_eq!(parse(""), Ok(Program { statements: vec![] }));
    assert_eq!(parse(";;\n;"), Ok(Program { statements: vec![] }));
    assert_eq!(
        parse("print 1;"),
        parse("print 1;;;")
    );
}

#[test]
fn statements_keep_source_order() {
    assert_eq!(
        parse("print 1;\nprint 2 * x;\n;print (3);"),
        Ok(Program {
            statements: vec![
                Statement::Print(lit(1)),
                Statement::Print(binary(Op::Mult, lit(2), name("x"))),
                Statement::Print(lit(3)),
            ]
        })
    );
}

#[test]
fn expression_must_end_before_end_of_input() {
    let error = parse("print 1 + 2").unwrap_err();
    assert_eq!(unexpected(&error), (TokenKind::Eof, 1, 1, 11));
}

#[test]
fn end_of_input_is_reported_at_end_of_source() {
    let error = parse("print 1;\nprint (2 +\n").unwrap_err();
    assert_eq!(unexpected(&error), (TokenKind::Eof, 1, 3, 0));
}

#[test]
fn operator_cannot_start_an_expression() {
    let error = parse("print +;").unwrap_err();
    assert_eq!(unexpected(&error), (TokenKind::Plus, 1, 1, 7));
    assert_eq!(error.filename(), "input");
    assert_eq!(error.line, 1);
}

#[test]
fn unclosed_parenthesis_fails() {
    let error = parse("print (1;").unwrap_err();
    assert_eq!(unexpected(&error), (TokenKind::Semicolon, 1, 1, 8));
}

#[test]
fn stray_closing_parenthesis_fails() {
    let error = parse("print 1);").unwrap_err();
    assert_eq!(unexpected(&error), (TokenKind::RParen, 1, 1, 8));
}

#[test]
fn statement_cannot_start_with_an_identifier() {
    let error = parse("total 1;").unwrap_err();
    assert_eq!(
        unexpected(&error),
        (TokenKind::Identifier("total".to_string()), 5, 1, 6)
    );
}

#[test]
fn statement_cannot_start_with_a_literal() {
    let error = parse("print 1; 23;").unwrap_err();
    assert_eq!(unexpected(&error), (TokenKind::IntLiteral(23), 2, 1, 11));
}

#[test]
fn two_operands_in_a_row_fail() {
    let error = parse("print 1 2;").unwrap_err();
    assert_eq!(unexpected(&error), (TokenKind::IntLiteral(2), 1, 1, 10));
}

#[test]
fn print_without_expression_fails() {
    let error = parse("print;").unwrap_err();
    assert_eq!(unexpected(&error), (TokenKind::Semicolon, 1, 1, 6));
}

#[test]
fn keyword_inside_expression_fails() {
    let error = parse("print 1 + print;").unwrap_err();
    assert_eq!(unexpected(&error), (TokenKind::KwPrint, 5, 1, 15));
}

#[test]
fn parser_without_tokens_yields_empty_program() {
    let mut parser = Parser::new("nothing".to_string());
    assert_eq!(parser.parse(), Ok(Program::new()));
    assert_eq!(parser.filename(), "nothing");
}

#[test]
fn parser_without_tokens_reports_end_at_origin() {
    let mut parser = Parser::new("nothing".to_string());
    let error = parser.parse_expression(0).unwrap_err();
    assert_eq!(unexpected(&error), (TokenKind::Eof, 1, 0, 0));
}

#[test]
fn null_denotation_resolves_a_given_token() {
    let mut parser = parser_for("5 + 1;");
    let minus = Token::new(TokenKind::Subtract, 1, 1, 1);
    assert_eq!(parser.null_denotation(minus), Ok(negate(lit(5))));
    assert_eq!(parser.parse_expression(0).map_err(|e| unexpected(&e)),
        Err((TokenKind::Plus, 1, 1, 3)));
}

#[test]
fn token_stream_next_and_peek() {
    let tokens = vec![
        Token::new(TokenKind::IntLiteral(1), 1, 2, 1),
        Token::new(TokenKind::Plus, 1, 3, 1),
    ];
    let mut stream = TokenStream::new(tokens.clone(), 4, 9);
    assert_eq!(stream.peek(), tokens[0]);
    assert_eq!(stream.peek(), tokens[0]);
    assert_eq!(stream.next(), tokens[0]);
    assert_eq!(stream.peek(), tokens[1]);
    assert_eq!(stream.next(), tokens[1]);
    let end = Token::new(TokenKind::Eof, 4, 9, 1);
    assert_eq!(stream.peek(), end);
    assert_eq!(stream.next(), end);
    assert_eq!(stream.next(), end);
    assert_eq!(stream.peek(), end);
}

#[test]
fn program_add_statement_appends() {
    let mut program = Program::new();
    assert_eq!(program.statements, vec![]);
    program.add_statement(Statement::Print(lit(1)));
    program.add_statement(Statement::Assignment { identifier: "x".to_string(), value: lit(2) });
    assert_eq!(
        program.statements,
        vec![
            Statement::Print(lit(1)),
            Statement::Assignment { identifier: "x".to_string(), value: lit(2) },
        ]
    );
}

#[test]
fn operator_display() {
    assert_eq!(Op::Add.to_string(), "+");
    assert_eq!(Op::Mult.to_string(), "*");
    assert_eq!(Op::Divide.to_string(), "/");
    assert_eq!(Op::Subtract.to_string(), "-");
    assert_eq!(Op::Negate.to_string(), "-");
    assert_eq!(Op::LParen.to_string(), "(");
    assert_eq!(Op::RParen.to_string(), ")");
    assert_eq!(Op::Equals.to_string(), "=");
}

#[test]
fn expression_clone_is_equal() {
    let tree = binary(Op::Add, negate(name("a")), binary(Op::Mult, lit(2), lit(3)));
    assert_eq!(tree.clone(), tree);
    let statement = Statement::Assignment { identifier: "x".to_string(), value: tree };
    assert_eq!(statement.clone(), statement);
}
