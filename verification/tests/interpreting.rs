use interpreter::error::ErrorKind;
use interpreter::lexing::TokenKind;
use interpreter::parsing::{Expr, Op, Program, Statement};
use interpreter::text::{chars_of, source_line};
use interpreter::{evaluate_expr, EvalError, Interpreter};

fn lit(n: i64) -> Expr {
    Expr::IntLiteral(n)
}

fn binary(op: Op, left: Expr, right: Expr) -> Expr {
    Expr::BinaryOp { op, left: Box::new(left), right: Box::new(right) }
}

fn unary(op: Op, value: Expr) -> Expr {
    Expr::UnaryOp { op, value: Box::new(value) }
}

fn run(source: &str) -> (Vec<i64>, Option<EvalError>) {
    let mut interpreter = Interpreter::new("run".to_string(), source);
    interpreter.build_ast().expect("the source is well-formed");
    interpreter.run()
}

#[test]
fn arithmetic_values() {
    assert_eq!(evaluate_expr(&lit(7)), Ok(7));
    assert_eq!(evaluate_expr(&binary(Op::Add, lit(1), lit(2))), Ok(3));
    assert_eq!(evaluate_expr(&binary(Op::Subtract, lit(1), lit(2))), Ok(-1));
    assert_eq!(evaluate_expr(&binary(Op::Mult, lit(6), lit(7))), Ok(42));
    assert_eq!(evaluate_expr(&binary(Op::Divide, lit(7), lit(2))), Ok(3));
    assert_eq!(evaluate_expr(&unary(Op::Negate, lit(5))), Ok(-5));
}

#[test]
fn division_rounds_towards_zero() {
    let minus = |n: i64| unary(Op::Negate, lit(n));
    assert_eq!(evaluate_expr(&binary(Op::Divide, minus(7), lit(2))), Ok(-3));
    assert_eq!(evaluate_expr(&binary(Op::Divide, lit(7), minus(2))), Ok(-3));
    assert_eq!(evaluate_expr(&binary(Op::Divide, minus(7), minus(2))), Ok(3));
    assert_eq!(evaluate_expr(&binary(Op::Divide, lit(0), minus(2))), Ok(0));
}

#[test]
fn operand_order_is_kept() {
    assert_eq!(run("print 1 - 2 - 3;"), (vec![-4], None));
    assert_eq!(run("print 8 / 4 / 2;"), (vec![1], None));
    assert_eq!(run("print 1 + 2 * 3;"), (vec![7], None));
    assert_eq!(run("print (1 + 2) * 3;"), (vec![9], None));
    assert_eq!(run("print -1 + 2;"), (vec![1], None));
}

#[test]
fn division_by_zero_is_reported() {
    assert_eq!(
        evaluate_expr(&binary(Op::Divide, lit(1), lit(0))),
        Err(EvalError::DivisionByZero)
    );
    assert_eq!(
        evaluate_expr(&binary(Op::Divide, lit(0), binary(Op::Subtract, lit(2), lit(2)))),
        Err(EvalError::DivisionByZero)
    );
}

#[test]
fn overflow_is_reported() {
    assert_eq!(
        evaluate_expr(&binary(Op::Add, lit(i64::MAX), lit(1))),
        Err(EvalError::Overflow)
    );
    assert_eq!(
        evaluate_expr(&binary(Op::Subtract, lit(i64::MIN), lit(1))),
        Err(EvalError::Overflow)
    );
    assert_eq!(
        evaluate_expr(&binary(Op::Mult, lit(i64::MAX), lit(2))),
        Err(EvalError::Overflow)
    );
    assert_eq!(
        evaluate_expr(&binary(Op::Divide, lit(i64::MIN), lit(-1))),
        Err(EvalError::Overflow)
    );
    assert_eq!(evaluate_expr(&unary(Op::Negate, lit(i64::MIN))), Err(EvalError::Overflow));
    assert_eq!(evaluate_expr(&unary(Op::Negate, lit(i64::MAX))), Ok(-i64::MAX));
}

#[test]
fn unsupported_nodes_are_reported() {
    assert_eq!(
        evaluate_expr(&Expr::Identifier("x".to_string())),
        Err(EvalError::Unsupported)
    );
    assert_eq!(
        evaluate_expr(&binary(Op::Equals, lit(1), lit(2))),
        Err(EvalError::Unsupported)
    );
    assert_eq!(evaluate_expr(&unary(Op::Add, lit(1))), Err(EvalError::Unsupported));
}

#[test]
fn first_failure_in_evaluation_order_wins() {
    let zero_division = binary(Op::Divide, lit(1), lit(0));
    let overflow = binary(Op::Add, lit(i64::MAX), lit(1));
    assert_eq!(
        evaluate_expr(&binary(Op::Add, zero_division.clone(), overflow.clone())),
        Err(EvalError::DivisionByZero)
    );
    assert_eq!(
        evaluate_expr(&binary(Op::Add, overflow.clone(), zero_division.clone())),
        Err(EvalError::Overflow)
    );
    assert_eq!(
        evaluate_expr(&binary(Op::Negate, zero_division.clone(), lit(1))),
        Err(EvalError::Unsupported)
    );
    assert_eq!(
        evaluate_expr(&unary(Op::Add, zero_division)),
        Err(EvalError::DivisionByZero)
    );
}

#[test]
fn run_yields_values_in_order() {
    assert_eq!(run("print 1;\nprint 2 * 3;\nprint 10 / 3;"), (vec![1, 6, 3], None));
    assert_eq!(run(""), (vec![], None));
}

#[test]
fn run_stops_at_the_first_failure() {
    assert_eq!(
        run("print 1; print 2 / 0; print 3;"),
        (vec![1], Some(EvalError::DivisionByZero))
    );
    assert_eq!(run("print x;"), (vec![], Some(EvalError::Unsupported)));
    assert_eq!(
        run("print 9223372036854775807 + 1;"),
        (vec![], Some(EvalError::Overflow))
    );
}

#[test]
fn build_ast_stores_the_program() {
    let mut interpreter = Interpreter::new("prog".to_string(), "print 1 + 2;");
    assert_eq!(interpreter.ast(), &Program::new());
    assert_eq!(interpreter.build_ast(), Ok(()));
    assert_eq!(
        interpreter.ast(),
        &Program { statements: vec![Statement::Print(binary(Op::Add, lit(1), lit(2)))] }
    );
}

#[test]
fn build_ast_again_finds_nothing_left() {
    let mut interpreter = Interpreter::new("prog".to_string(), "print 1;");
    assert_eq!(interpreter.build_ast(), Ok(()));
    assert_eq!(interpreter.build_ast(), Ok(()));
    assert_eq!(interpreter.ast(), &Program::new());
}

#[test]
fn build_ast_reports_against_the_offending_line() {
    let source = "print 1;\nprint 2 +;\nprint 3;";
    let mut interpreter = Interpreter::new("prog".to_string(), source);
    let error = interpreter.build_ast().expect_err("line two is malformed");
    assert_eq!(
        error.kind(),
        &ErrorKind::UnexpectedToken { provided: TokenKind::Semicolon, token_length: 1 }
    );
    assert_eq!((error.line(), error.col()), (2, 8));
    assert_eq!(
        interpreter.report(&error),
        "unexpected token ';' in 'prog' at line 2, column 8\n  |\n2 | print 2 +;\n  |        ^"
    );
    assert_eq!(interpreter.ast(), &Program::new());
}

#[test]
fn build_ast_reports_end_of_input_after_a_final_newline() {
    let mut interpreter = Interpreter::new("prog".to_string(), "print 1\n");
    let error = interpreter.build_ast().expect_err("the expression is not terminated");
    assert_eq!((error.line(), error.col()), (2, 0));
    assert_eq!(
        interpreter.report(&error),
        "unexpected token 'EOF' in 'prog' at line 2, column 0\n  |\n2 | \n  | ^"
    );
}

#[test]
fn build_ast_reports_literal_overflow() {
    let mut interpreter = Interpreter::new("prog".to_string(), "print 99999999999999999999;");
    let error = interpreter.build_ast().expect_err("the literal is too large");
    assert_eq!(error.kind(), &ErrorKind::LiteralOverflow { token_length: 20 });
    assert_eq!((error.line(), error.col()), (1, 27));
    assert_eq!(
        interpreter.report(&error),
        "integer literal out of range in 'prog' at line 1, column 27\n  |\n1 | print 99999999999999999999;\n  |        ^^^^^^^^^^^^^^^^^^^^"
    );
}

#[test]
fn source_lines_are_split_at_line_feeds() {
    let chars = chars_of("one\ntwo\r\n\nfour\r");
    assert_eq!(source_line(&chars, 1), "one");
    assert_eq!(source_line(&chars, 2), "two");
    assert_eq!(source_line(&chars, 3), "");
    assert_eq!(source_line(&chars, 4), "four\r");
    assert_eq!(source_line(&chars, 5), "");
    assert_eq!(source_line(&chars, 0), "");
    assert_eq!(source_line(&chars, -1), "");
    assert_eq!(source_line(&chars_of(""), 1), "");
    assert_eq!(source_line(&chars_of("\r\n"), 1), "");
}

#[test]
fn chars_of_keeps_every_character() {
    assert_eq!(chars_of("a é\n"), vec!['a', ' ', 'é', '\n']);
}
