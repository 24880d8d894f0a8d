//! The syntax tree and the parser that builds it.

use crate::error::{unexpected, Error};
use crate::grammar::{
    binding_power, climb, expression, infix_operator, is_infix, lemma_progress_expression,
    lemma_progress_null_denotation, null_denotation, opens_operand, prepend_all, statements,
};
use crate::lexing::{Token, TokenKind, TokenView};
use crate::{StreamView, TokenStream};
use vstd::prelude::*;

verus! {

/// The operators of the syntax tree. The parser yields the four binary
/// operators and the negation; the others are reserved.
#[derive(Debug, Copy, Clone, PartialEq, Eq, Structural)]
pub enum Op {
    Add,
    Mult,
    Divide,
    Subtract,
    Negate,
    LParen,
    RParen,
    Equals,
}

/// The text that an operator is displayed as.
pub open spec fn op_text(op: Op) -> Seq<char> {
    match op {
        Op::Add => seq!['+'],
        Op::Mult => seq!['*'],
        Op::Divide => seq!['/'],
        Op::Subtract | Op::Negate => seq!['-'],
        Op::LParen => seq!['('],
        Op::RParen => seq![')'],
        Op::Equals => seq!['='],
    }
}

impl Op {
    /// The display form of the operator.
    pub fn to_string(&self) -> (text: String)
        ensures
            text@ == op_text(*self),
    {
        let mut text = String::new();
        text.push(
            match self {
                Op::Add => '+',
                Op::Mult => '*',
                Op::Divide => '/',
                Op::Subtract | Op::Negate => '-',
                Op::LParen => '(',
                Op::RParen => ')',
                Op::Equals => '=',
            },
        );
        text
    }
}

/// An expression. Every node owns its operands.
#[derive(Debug, PartialEq, Eq)]
pub enum Expr {
    IntLiteral(i64),
    Identifier(String),
    BinaryOp { op: Op, left: Box<Expr>, right: Box<Expr> },
    UnaryOp { op: Op, value: Box<Expr> },
}

/// Mathematical model of an [`Expr`].
pub enum ExprView {
    IntLiteral(i64),
    Identifier(Seq<char>),
    BinaryOp { op: Op, left: Box<ExprView>, right: Box<ExprView> },
    UnaryOp { op: Op, value: Box<ExprView> },
}

impl Expr {
    /// The tree as a mathematical value.
    pub open spec fn model(&self) -> ExprView
        decreases self,
    {
        match self {
            Expr::IntLiteral(n) => ExprView::IntLiteral(*n),
            Expr::Identifier(name) => ExprView::Identifier(name@),
            Expr::BinaryOp { op, left, right } => ExprView::BinaryOp {
                op: *op,
                left: Box::new(left.model()),
                right: Box::new(right.model()),
            },
            Expr::UnaryOp { op, value } => ExprView::UnaryOp {
                op: *op,
                value: Box::new(value.model()),
            },
        }
    }
}

impl View for Expr {
    type V = ExprView;

    open spec fn view(&self) -> ExprView {
        self.model()
    }
}

impl DeepView for Expr {
    type V = ExprView;

    open spec fn deep_view(&self) -> ExprView {
        self@
    }
}

impl Clone for Expr {
    fn clone(&self) -> (copy: Self)
        ensures
            copy@ == self@,
        decreases self,
    {
        match self {
            Expr::IntLiteral(n) => Expr::IntLiteral(*n),
            Expr::Identifier(name) => Expr::Identifier(name.clone()),
            Expr::BinaryOp { op, left, right } => Expr::BinaryOp {
                op: *op,
                left: Box::new((&**left).clone()),
                right: Box::new((&**right).clone()),
            },
            Expr::UnaryOp { op, value } => Expr::UnaryOp {
                op: *op,
                value: Box::new((&**value).clone()),
            },
        }
    }
}

/// A statement. The parser yields print statements only; the assignment is
/// reserved.
#[derive(Debug, PartialEq, Eq)]
pub enum Statement {
    Print(Expr),
    Assignment { identifier: String, value: Expr },
}

/// Mathematical model of a [`Statement`].
pub enum StatementView {
    Print(ExprView),
    Assignment { identifier: Seq<char>, value: ExprView },
}

impl View for Statement {
    type V = StatementView;

    open spec fn view(&self) -> StatementView {
        match self {
            Statement::Print(expr) => StatementView::Print(expr@),
            Statement::Assignment { identifier, value } => StatementView::Assignment {
                identifier: identifier@,
                value: value@,
            },
        }
    }
}

impl DeepView for Statement {
    type V = StatementView;

    open spec fn deep_view(&self) -> StatementView {
        self@
    }
}

impl Clone for Statement {
    fn clone(&self) -> (copy: Self)
        ensures
            copy@ == self@,
    {
        match self {
            Statement::Print(expr) => Statement::Print(expr.clone()),
            Statement::Assignment { identifier, value } => Statement::Assignment {
                identifier: identifier.clone(),
                value: value.clone(),
            },
        }
    }
}

/// The statements of a source text, in source order.
#[derive(Debug, PartialEq, Eq)]
pub struct Program {
    pub statements: Vec<Statement>,
}

impl View for Program {
    type V = Seq<StatementView>;

    open spec fn view(&self) -> Seq<StatementView> {
        self.statements.deep_view()
    }
}

impl Program {
    /// The empty program.
    pub fn new() -> (program: Self)
        ensures
            program@ == Seq::<StatementView>::empty(),
    {
        Self { statements: Vec::new() }
    }

    /// Appends `statement` to the program.
    pub fn add_statement(&mut self, statement: Statement)
        ensures
            final(self)@ == old(self)@.push(statement@),
    {
        self.statements.push(statement);
    }
}

/// Whether `result` is what the parser returns for `outcome`: the tree
/// itself, or the unexpected-token diagnostic for the refused token, in the
/// source called `name`.
pub open spec fn expr_reported(
    result: Result<Expr, Error>,
    outcome: Result<ExprView, TokenView>,
    name: Seq<char>,
) -> bool {
    match outcome {
        Ok(tree) => result matches Ok(expr) && expr@ == tree,
        Err(refused) => result matches Err(error) && error@ == unexpected(name, refused),
    }
}

/// Whether `result` is what the parser returns for `outcome`: the program
/// itself, or the unexpected-token diagnostic for the refused token, in the
/// source called `name`.
pub open spec fn program_reported(
    result: Result<Program, Error>,
    outcome: Result<Seq<StatementView>, TokenView>,
    name: Seq<char>,
) -> bool {
    match outcome {
        Ok(list) => result matches Ok(program) && program@ == list,
        Err(refused) => result matches Err(error) && error@ == unexpected(name, refused),
    }
}

/// The binary operator that a token kind denotes between two operands.
fn infix_op(kind: &TokenKind) -> (op: Option<Op>)
    ensures
        op == infix_operator(kind@),
{
    match kind {
        TokenKind::Plus => Some(Op::Add),
        TokenKind::Subtract => Some(Op::Subtract),
        TokenKind::Times => Some(Op::Mult),
        TokenKind::Divide => Some(Op::Divide),
        _ => None,
    }
}

/// Left and right binding power of a binary operator, in tenths.
fn infix_binding_power(op: Op) -> (powers: (u32, u32))
    requires
        is_infix(op),
    ensures
        powers.0 == binding_power(op).0,
        powers.1 == binding_power(op).1,
{
    match op {
        Op::Add => (10, 11),
        Op::Subtract => (10, 11),
        _ => (20, 21),
    }
}

/// A parser over one token stream. Its diagnostics name the source that it
/// was made for.
pub struct Parser {
    filename: String,
    tokens: TokenStream,
}

impl Parser {
    /// The name of the source, as diagnostics give it.
    pub closed spec fn source_name(&self) -> Seq<char> {
        self.filename@
    }

    /// The tokens that the parser has not consumed yet.
    pub closed spec fn stream(&self) -> StreamView {
        self.tokens@
    }

    /// A parser with no tokens, whose input ends at line zero, column zero.
    pub fn new(filename: String) -> (parser: Self)
        ensures
            parser.source_name() == filename@,
            parser.stream() == (StreamView {
                rest: Seq::<TokenView>::empty(),
                end_line: 0,
                end_col: 0,
            }),
    {
        let tokens: Vec<Token> = Vec::new();
        assert(tokens.deep_view() == Seq::<TokenView>::empty());
        Self { filename, tokens: TokenStream::new(tokens, 0, 0) }
    }

    /// The name of the source, as diagnostics give it.
    pub fn filename(&self) -> (name: &String)
        ensures
            name@ == self.source_name(),
    {
        &self.filename
    }

    /// Replaces the tokens to parse.
    pub fn set_tokens(&mut self, tokens: TokenStream)
        ensures
            final(self).stream() == tokens@,
            final(self).source_name() == old(self).source_name(),
    {
        self.tokens = tokens;
    }

    /// Parses a program: statements up to the end token. The first token
    /// that the grammar refuses ends the parse with its diagnostic.
    pub fn parse(&mut self) -> (result: Result<Program, Error>)
        ensures
            program_reported(
                result,
                statements(old(self).stream()).outcome,
                old(self).source_name(),
            ),
            final(self).stream() == statements(old(self).stream()).rest,
            final(self).source_name() == old(self).source_name(),
    {
        let mut ast = Program::new();
        loop
            invariant
                self.source_name() == old(self).source_name(),
                statements(old(self).stream()) == prepend_all(ast@, statements(self.stream())),
            decreases self.stream().rest.len(),
        {
            let ghost here = self.stream();
            let ghost done = ast@;
            let current_token = self.tokens.next();
            match &current_token.kind {
                TokenKind::KwPrint => {
                    proof {
                        lemma_progress_expression(here.advance(), 0);
                    }
                    let expr = match self.parse_expression(0) {
                        Ok(expr) => expr,
                        Err(error) => {
                            return Err(error);
                        },
                    };
                    ast.add_statement(Statement::Print(expr));
                    proof {
                        let more = statements(self.stream());
                        if let Ok(list) = more.outcome {
                            assert(done + (seq![StatementView::Print(expr@)] + list) == done.push(
                                StatementView::Print(expr@),
                            ) + list);
                        }
                    }
                    continue ;
                },
                TokenKind::Eof => {
                    return Ok(ast);
                },
                TokenKind::Semicolon => {
                    continue ;
                },
                _ => {
                    return Err(Error::wrong_token(self.filename.clone(), current_token));
                },
            }
        }
    }

    /// Parses the expression at the front of the stream whose operators all
    /// bind at least as strongly as `min_bp`, a binding power in tenths, on
    /// their left.
    pub fn parse_expression(&mut self, min_bp: u32) -> (result: Result<Expr, Error>)
        ensures
            expr_reported(
                result,
                expression(old(self).stream(), min_bp as int).outcome,
                old(self).source_name(),
            ),
            final(self).stream() == expression(old(self).stream(), min_bp as int).rest,
            final(self).source_name() == old(self).source_name(),
        decreases old(self).stream().rest.len(), 1nat,
    {
        let ghost start = self.stream();
        let next_token = self.tokens.next();
        proof {
            lemma_progress_null_denotation(start.peek(), start.advance());
        }
        let mut left = match self.null_denotation(next_token) {
            Ok(left) => left,
            Err(error) => {
                return Err(error);
            },
        };
        loop
            invariant
                self.source_name() == old(self).source_name(),
                self.stream().rest.len() < start.rest.len(),
                start == old(self).stream(),
                expression(start, min_bp as int) == climb(left@, self.stream(), min_bp as int),
            decreases self.stream().rest.len(),
        {
            let ghost here = self.stream();
            let next_token = self.tokens.peek();
            match &next_token.kind {
                TokenKind::Semicolon | TokenKind::RParen => {
                    return Ok(left);
                },
                _ => {},
            }
            let op = match infix_op(&next_token.kind) {
                Some(op) => op,
                None => {
                    return Err(Error::wrong_token(self.filename.clone(), next_token));
                },
            };
            let (l_bp, r_bp) = infix_binding_power(op);
            if l_bp < min_bp {
                return Ok(left);
            }
            self.tokens.next();
            proof {
                lemma_progress_expression(here.advance(), r_bp as int);
            }
            let right = match self.parse_expression(r_bp) {
                Ok(right) => right,
                Err(error) => {
                    return Err(error);
                },
            };
            left = Expr::BinaryOp { op, left: Box::new(left), right: Box::new(right) };
        }
    }

    /// Resolves `token`, the first token of an expression, reading on from
    /// the stream where the token asks for it.
    pub fn null_denotation(&mut self, token: Token) -> (result: Result<Expr, Error>)
        ensures
            expr_reported(
                result,
                null_denotation(token@, old(self).stream()).outcome,
                old(self).source_name(),
            ),
            final(self).stream() == null_denotation(token@, old(self).stream()).rest,
            final(self).source_name() == old(self).source_name(),
        decreases old(self).stream().rest.len(),
            if opens_operand(token@.kind) {
                2nat
            } else {
                0nat
            },
    {
        match &token.kind {
            TokenKind::IntLiteral(i) => Ok(Expr::IntLiteral(*i)),
            TokenKind::Identifier(i) => Ok(Expr::Identifier(i.clone())),
            TokenKind::Subtract => {
                let next_token = self.tokens.next();
                match self.null_denotation(next_token) {
                    Ok(value) => Ok(Expr::UnaryOp { op: Op::Negate, value: Box::new(value) }),
                    Err(error) => Err(error),
                }
            },
            TokenKind::LParen => {
                let lhs = match self.parse_expression(0) {
                    Ok(lhs) => lhs,
                    Err(error) => {
                        return Err(error);
                    },
                };
                let closing = self.tokens.next();
                match &closing.kind {
                    TokenKind::RParen => Ok(lhs),
                    _ => Err(Error::wrong_token(self.filename.clone(), closing)),
                }
            },
            _ => Err(Error::wrong_token(self.filename.clone(), token)),
        }
    }
}

} // verus!
