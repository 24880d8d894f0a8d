//! A small statement and expression language: lexing, precedence-climbing
//! parsing, diagnostics and evaluation.

pub mod error;
pub mod grammar;
pub mod laws;
pub mod lexer;
pub mod lexing;
pub mod parsing;
pub mod text;

use error::{overflowing, rendered, unexpected, Error, ErrorView};
use grammar::{is_infix, statements};
use lexing::{scan_source, KindView, Lexer, Token, TokenKind, TokenView};
use parsing::{Expr, ExprView, Op, Parser, Program, Statement, StatementView};
use text::{chars_of, line_text, source_line};
use vstd::prelude::*;

verus! {

/// Mathematical model of a [`TokenStream`]: the tokens that are still to
/// come, and the line and column at which the input ends.
pub struct StreamView {
    pub rest: Seq<TokenView>,
    pub end_line: int,
    pub end_col: int,
}

impl StreamView {
    /// The token that stands for the end of the input. It has length one.
    pub open spec fn end_token(self) -> TokenView {
        TokenView { kind: KindView::Eof, line: self.end_line, col: self.end_col, length: 1 }
    }

    /// The token at the front, or the end token when none is left.
    pub open spec fn peek(self) -> TokenView {
        if self.rest.len() > 0 {
            self.rest[0]
        } else {
            self.end_token()
        }
    }

    /// The stream behind the token at the front. At the end of the input
    /// the stream stays as it is.
    pub open spec fn advance(self) -> StreamView {
        if self.rest.len() > 0 {
            StreamView { rest: self.rest.skip(1), ..self }
        } else {
            self
        }
    }
}

/// A forward-only reader over a token sequence, with one token of
/// lookahead.
pub struct TokenStream {
    tokens: Vec<Token>,
    index: usize,
    line_number: i32,
    col: i32,
}

impl View for TokenStream {
    type V = StreamView;

    closed spec fn view(&self) -> StreamView {
        StreamView {
            rest: self.tokens.deep_view().skip(self.index as int),
            end_line: self.line_number as int,
            end_col: self.col as int,
        }
    }
}

impl TokenStream {
    #[verifier::type_invariant]
    spec fn inv(&self) -> bool {
        self.index <= self.tokens.len()
    }

    /// A stream at the start of `tokens`. `line_number` and `col` say where
    /// the input ends: the end token is reported there.
    pub fn new(tokens: Vec<Token>, line_number: i32, col: i32) -> (stream: Self)
        ensures
            stream@ == (StreamView {
                rest: tokens.deep_view(),
                end_line: line_number as int,
                end_col: col as int,
            }),
    {
        assert(tokens.deep_view().skip(0) == tokens.deep_view());
        Self { tokens, index: 0, line_number, col }
    }

    /// Returns the token at the front and moves past it.
    pub fn next(&mut self) -> (token: Token)
        ensures
            token@ == old(self)@.peek(),
            final(self)@ == old(self)@.advance(),
    {
        proof {
            use_type_invariant(&*self);
        }
        if self.index < self.tokens.len() {
            let token = self.tokens[self.index].clone();
            self.index += 1;
            assert(self@.rest == old(self)@.rest.skip(1));
            token
        } else {
            Token::new(TokenKind::Eof, self.line_number, self.col, 1)
        }
    }

    /// Returns the token at the front and leaves the stream as it is.
    pub fn peek(&mut self) -> (token: Token)
        ensures
            token@ == old(self)@.peek(),
            *final(self) == *old(self),
    {
        proof {
            use_type_invariant(&*self);
        }
        if self.index < self.tokens.len() {
            self.tokens[self.index].clone()
        } else {
            Token::new(TokenKind::Eof, self.line_number, self.col, 1)
        }
    }
}

/// Why an expression or a statement has no value.
#[derive(Debug, Copy, Clone, PartialEq, Eq, Structural)]
pub enum EvalError {
    /// A division whose divisor is zero.
    DivisionByZero,
    /// A result that does not fit in 64 signed bits.
    Overflow,
    /// An identifier, an assignment, or an operator that has no meaning
    /// where it stands.
    Unsupported,
}

/// The quotient of `dividend` by `divisor`, rounded towards zero.
pub open spec fn quotient(dividend: int, divisor: int) -> int
    recommends
        divisor != 0,
{
    if dividend >= 0 && divisor > 0 {
        dividend / divisor
    } else if dividend < 0 && divisor < 0 {
        (-dividend) / (-divisor)
    } else if dividend < 0 {
        -((-dividend) / divisor)
    } else {
        -(dividend / (-divisor))
    }
}

/// `value` as a 64-bit result.
pub open spec fn fitted(value: int) -> Result<i64, EvalError> {
    if i64::MIN <= value <= i64::MAX {
        Ok(value as i64)
    } else {
        Err(EvalError::Overflow)
    }
}

/// What a binary operator makes of two values.
pub open spec fn combined(op: Op, left: int, right: int) -> Result<i64, EvalError> {
    match op {
        Op::Add => fitted(left + right),
        Op::Subtract => fitted(left - right),
        Op::Mult => fitted(left * right),
        Op::Divide => if right == 0 {
            Err(EvalError::DivisionByZero)
        } else {
            fitted(quotient(left, right))
        },
        _ => Err(EvalError::Unsupported),
    }
}

/// The value of an expression in 64-bit integer arithmetic.
///
/// The left operand is evaluated before the right one, and the first
/// failure is the result. A binary node whose operator is none of
/// `+ - * /` fails before its operands are looked at; a unary node whose
/// operator is not the negation fails after its operand was evaluated.
pub open spec fn value(expr: ExprView) -> Result<i64, EvalError>
    decreases expr,
{
    match expr {
        ExprView::IntLiteral(n) => Ok(n),
        ExprView::Identifier(_) => Err(EvalError::Unsupported),
        ExprView::BinaryOp { op, left, right } => if !is_infix(op) {
            Err(EvalError::Unsupported)
        } else {
            match value(*left) {
                Err(failure) => Err(failure),
                Ok(l) => match value(*right) {
                    Err(failure) => Err(failure),
                    Ok(r) => combined(op, l as int, r as int),
                },
            }
        },
        ExprView::UnaryOp { op, value: operand } => match value(*operand) {
            Err(failure) => Err(failure),
            Ok(v) => if op == Op::Negate {
                fitted(-v)
            } else {
                Err(EvalError::Unsupported)
            },
        },
    }
}

/// Evaluates an expression.
pub fn evaluate_expr(expr: &Expr) -> (result: Result<i64, EvalError>)
    ensures
        result == value(expr@),
    decreases expr,
{
    match expr {
        Expr::IntLiteral(n) => Ok(*n),
        Expr::BinaryOp { op, left, right } => {
            match op {
                Op::Add | Op::Subtract | Op::Mult | Op::Divide => {},
                _ => {
                    return Err(EvalError::Unsupported);
                },
            }
            let l = match evaluate_expr(left) {
                Ok(l) => l,
                Err(failure) => {
                    return Err(failure);
                },
            };
            let r = match evaluate_expr(right) {
                Ok(r) => r,
                Err(failure) => {
                    return Err(failure);
                },
            };
            let outcome = match op {
                Op::Add => l.checked_add(r),
                Op::Subtract => l.checked_sub(r),
                Op::Mult => l.checked_mul(r),
                _ => {
                    if r == 0 {
                        return Err(EvalError::DivisionByZero);
                    }
                    l.checked_div(r)
                },
            };
            match outcome {
                Some(v) => Ok(v),
                None => Err(EvalError::Overflow),
            }
        },
        Expr::UnaryOp { op, value } => {
            let v = match evaluate_expr(value) {
                Ok(v) => v,
                Err(failure) => {
                    return Err(failure);
                },
            };
            match op {
                Op::Negate => match v.checked_mul(-1) {
                    Some(negated) => Ok(negated),
                    None => Err(EvalError::Overflow),
                },
                _ => Err(EvalError::Unsupported),
            }
        },
        Expr::Identifier(_) => Err(EvalError::Unsupported),
    }
}

/// What running a program yields: the values of its print statements in
/// order, up to the first statement that has no value, and why that one has
/// none.
pub struct Run {
    pub printed: Seq<i64>,
    pub failure: Option<EvalError>,
}

/// Puts the values `done` in front of those of `rest`.
pub open spec fn after(done: Seq<i64>, rest: Run) -> Run {
    Run { printed: done + rest.printed, failure: rest.failure }
}

/// Runs the statements in order. A print statement yields the value of its
/// expression; an assignment has no meaning yet and stops the run.
pub open spec fn run_of(program: Seq<StatementView>) -> Run
    decreases program.len(),
{
    if program.len() == 0 {
        Run { printed: Seq::empty(), failure: None }
    } else {
        match program[0] {
            StatementView::Print(expr) => match value(expr) {
                Ok(v) => after(seq![v], run_of(program.skip(1))),
                Err(failure) => Run { printed: Seq::empty(), failure: Some(failure) },
            },
            StatementView::Assignment { .. } => Run {
                printed: Seq::empty(),
                failure: Some(EvalError::Unsupported),
            },
        }
    }
}

/// The program of a source text called `name`, or the diagnostic for the
/// first thing wrong with it: a literal that is too large, or else a token
/// that the grammar refuses.
pub open spec fn built(name: Seq<char>, source: Seq<char>) -> Result<
    Seq<StatementView>,
    ErrorView,
> {
    match scan_source(source) {
        Err(overflow) => Err(overflowing(name, overflow.line, overflow.col, overflow.length)),
        Ok(scanned) => {
            let input = StreamView {
                rest: scanned.tokens,
                end_line: scanned.line,
                end_col: scanned.col,
            };
            match statements(input).outcome {
                Ok(list) => Ok(list),
                Err(refused) => Err(unexpected(name, refused)),
            }
        },
    }
}

/// One source text on its way from characters to values.
pub struct Interpreter {
    source: Vec<char>,
    lexer: Lexer,
    parser: Parser,
    ast: Program,
}

impl Interpreter {
    /// The name of the source, as diagnostics give it.
    pub closed spec fn source_name(&self) -> Seq<char> {
        self.parser.source_name()
    }

    /// The whole source text.
    pub closed spec fn source(&self) -> Seq<char> {
        self.source@
    }

    /// The part of the source text that has not been scanned yet.
    pub closed spec fn unscanned(&self) -> Seq<char> {
        self.lexer.remaining()
    }

    /// The program built so far.
    pub closed spec fn program(&self) -> Seq<StatementView> {
        self.ast@
    }

    /// An interpreter for `source`, with an empty program. Lines and
    /// columns are counted in `i32`, which bounds the length of the text.
    pub fn new(filename: String, source: &str) -> (interpreter: Self)
        requires
            source@.len() < i32::MAX,
        ensures
            interpreter.source_name() == filename@,
            interpreter.source() == source@,
            interpreter.unscanned() == source@,
            interpreter.program() == Seq::<StatementView>::empty(),
    {
        let lexer = Lexer::new(source);
        let parser = Parser::new(filename);
        let ast = Program::new();
        Self { source: chars_of(source), lexer, parser, ast }
    }

    /// Scans and parses what has not been scanned yet. On success the result
    /// replaces the program; on failure the program stays as it was.
    pub fn build_ast(&mut self) -> (result: Result<(), Error>)
        ensures
            match built(old(self).source_name(), old(self).unscanned()) {
                Ok(list) => result is Ok && final(self).program() == list,
                Err(diagnostic) => {
                    &&& result matches Err(error)
                    &&& error@ == diagnostic
                    &&& final(self).program() == old(self).program()
                },
            },
            final(self).unscanned().len() == 0,
            final(self).source_name() == old(self).source_name(),
            final(self).source() == old(self).source(),
    {
        let (tokens, line_number, col) = match self.lexer.tokenize() {
            Ok(scanned) => scanned,
            Err(overflow) => {
                return Err(
                    Error::literal_overflow(
                        self.parser.filename().clone(),
                        overflow.line_number,
                        overflow.col,
                        overflow.length,
                    ),
                );
            },
        };
        let token_stream = TokenStream::new(tokens, line_number, col);
        self.parser.set_tokens(token_stream);
        match self.parser.parse() {
            Ok(ast) => {
                self.ast = ast;
                Ok(())
            },
            Err(error) => Err(error),
        }
    }

    /// The program built so far.
    pub fn ast(&self) -> (program: &Program)
        ensures
            program@ == self.program(),
    {
        &self.ast
    }

    /// Renders `error` against the line of the source that it points at.
    pub fn report(&self, error: &Error) -> (message: String)
        ensures
            message@ == rendered(error@, line_text(self.source(), error@.line)),
    {
        let line = source_line(&self.source, error.line());
        error.format_err(line.as_str())
    }

    /// Evaluates the statements of the program in order, up to the first one
    /// that has no value.
    pub fn run(&self) -> (outcome: (Vec<i64>, Option<EvalError>))
        ensures
            outcome.0@ == run_of(self.program()).printed,
            outcome.1 == run_of(self.program()).failure,
    {
        let mut printed: Vec<i64> = Vec::new();
        let mut i: usize = 0;
        let ghost all = self.ast@;
        assert(all.skip(0) == all);
        while i < self.ast.statements.len()
            invariant
                i <= self.ast.statements.len(),
                all == self.ast@,
                all.len() == self.ast.statements.len(),
                run_of(all) == after(printed@, run_of(all.skip(i as int))),
            decreases self.ast.statements.len() - i,
        {
            let ghost rest = all.skip(i as int);
            assert(rest.skip(1) == all.skip(i + 1));
            match &self.ast.statements[i] {
                Statement::Print(expr) => {
                    match evaluate_expr(expr) {
                        Ok(v) => {
                            let ghost done = printed@;
                            printed.push(v);
                            assert(done + (seq![v] + run_of(rest.skip(1)).printed) == printed@
                                + run_of(rest.skip(1)).printed);
                        },
                        Err(failure) => {
                            return (printed, Some(failure));
                        },
                    }
                },
                _ => {
                    return (printed, Some(EvalError::Unsupported));
                },
            }
            i += 1;
        }
        (printed, None)
    }
}

} // verus!
