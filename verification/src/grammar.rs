//! The grammar, as functions from tokens to syntax trees.
//!
//! These functions say what the parser returns for every token sequence,
//! well-formed or not. A failure is described by the token that the grammar
//! refuses; the parser reports it as an unexpected-token diagnostic.

use crate::lexing::{KindView, TokenView};
use crate::parsing::{ExprView, Op, StatementView};
use crate::StreamView;
use vstd::prelude::*;

verus! {

/// What a parsing step yields: an expression or the token that was refused,
/// and the stream that the step leaves behind.
pub struct Parsed {
    pub outcome: Result<ExprView, TokenView>,
    pub rest: StreamView,
}

/// What parsing a whole program yields.
pub struct ParsedProgram {
    pub outcome: Result<Seq<StatementView>, TokenView>,
    pub rest: StreamView,
}

/// The binary operator that a token kind denotes between two operands.
pub open spec fn infix_operator(kind: KindView) -> Option<Op> {
    match kind {
        KindView::Plus => Some(Op::Add),
        KindView::Subtract => Some(Op::Subtract),
        KindView::Times => Some(Op::Mult),
        KindView::Divide => Some(Op::Divide),
        _ => None,
    }
}

/// Whether `op` is one of the four binary operators.
pub open spec fn is_infix(op: Op) -> bool {
    op == Op::Add || op == Op::Subtract || op == Op::Mult || op == Op::Divide
}

/// Left and right binding power of a binary operator, in tenths: 1.0 and 1.1
/// for `+` and `-`, 2.0 and 2.1 for `*` and `/`.
pub open spec fn binding_power(op: Op) -> (int, int)
    recommends
        is_infix(op),
{
    match op {
        Op::Add | Op::Subtract => (10, 11),
        _ => (20, 21),
    }
}

/// Whether a token ends an expression: a `;` or a `)`.
pub open spec fn ends_expression(token: TokenView) -> bool {
    token.kind is Semicolon || token.kind is RParen
}

/// Whether resolving a token of this kind reads further tokens.
pub open spec fn opens_operand(kind: KindView) -> bool {
    kind is Subtract || kind is LParen
}

/// The meaning of `token` at the start of an expression, `input` being what
/// follows it.
///
/// A literal or an identifier is itself. A `-` negates the meaning of the
/// single token after it, not a whole expression. A `(` encloses an
/// expression of minimum binding power zero, after which a `)` must follow;
/// the token found in its place is refused and consumed. Any other token is
/// refused.
pub open spec fn null_denotation(token: TokenView, input: StreamView) -> Parsed
    decreases input.rest.len(),
        if opens_operand(token.kind) {
            2nat
        } else {
            0nat
        },
{
    match token.kind {
        KindView::IntLiteral(n) => Parsed { outcome: Ok(ExprView::IntLiteral(n)), rest: input },
        KindView::Identifier(name) => Parsed {
            outcome: Ok(ExprView::Identifier(name)),
            rest: input,
        },
        KindView::Subtract => {
            let operand = null_denotation(input.peek(), input.advance());
            match operand.outcome {
                Ok(value) => Parsed {
                    outcome: Ok(ExprView::UnaryOp { op: Op::Negate, value: Box::new(value) }),
                    rest: operand.rest,
                },
                Err(_) => operand,
            }
        },
        KindView::LParen => {
            let inner = expression(input, 0);
            match inner.outcome {
                Ok(enclosed) => {
                    let closing = inner.rest.peek();
                    Parsed {
                        outcome: if closing.kind is RParen {
                            Ok(enclosed)
                        } else {
                            Err(closing)
                        },
                        rest: inner.rest.advance(),
                    }
                },
                Err(_) => inner,
            }
        },
        _ => Parsed { outcome: Err(token), rest: input },
    }
}

/// The expression at the front of `input` whose operators all bind at
/// least as strongly as `min_bp` on their left.
///
/// The first token is resolved by [`null_denotation`]; [`climb`] then takes
/// the operators that follow. The comparison of lengths only serves the
/// proof that the definition is well-founded: a resolved operand always
/// leaves a shorter stream, by [`lemma_progress_null_denotation`], and so
/// does a parsed right operand, by [`lemma_progress_expression`].
pub open spec fn expression(input: StreamView, min_bp: int) -> Parsed
    decreases input.rest.len(), 1nat,
{
    let first = null_denotation(input.peek(), input.advance());
    match first.outcome {
        Ok(left) => if first.rest.rest.len() < input.rest.len() {
            climb(left, first.rest, min_bp)
        } else {
            first
        },
        Err(_) => first,
    }
}

/// Continues an expression whose left operand `left` has been read.
///
/// A `;` or a `)` at the front ends the expression and stays in the stream.
/// A binary operator whose left binding power is below `min_bp` ends it too:
/// that operator belongs to an enclosing expression. Any other operator is
/// consumed, its right operand is the expression of the operator's right
/// binding power, and the two operands form the new left operand. A token
/// that is none of these is refused and stays in the stream.
pub open spec fn climb(left: ExprView, input: StreamView, min_bp: int) -> Parsed
    decreases input.rest.len(), 0nat,
{
    let next = input.peek();
    if ends_expression(next) {
        Parsed { outcome: Ok(left), rest: input }
    } else {
        match infix_operator(next.kind) {
            None => Parsed { outcome: Err(next), rest: input },
            Some(op) => if binding_power(op).0 < min_bp {
                Parsed { outcome: Ok(left), rest: input }
            } else {
                let right = expression(input.advance(), binding_power(op).1);
                match right.outcome {
                    Ok(operand) => if right.rest.rest.len() < input.rest.len() {
                        climb(
                            ExprView::BinaryOp {
                                op,
                                left: Box::new(left),
                                right: Box::new(operand),
                            },
                            right.rest,
                            min_bp,
                        )
                    } else {
                        right
                    },
                    Err(_) => right,
                }
            },
        }
    }
}

/// Whether `after` is what is left of `before` when some of its tokens
/// have been consumed.
pub open spec fn follows(after: StreamView, before: StreamView) -> bool {
    &&& after.rest.len() <= before.rest.len()
    &&& after.rest == before.rest.skip(before.rest.len() - after.rest.len())
    &&& after.end_line == before.end_line
    &&& after.end_col == before.end_col
}

/// A stream follows itself, and so does the stream behind its first token.
pub proof fn lemma_follows_self(input: StreamView)
    ensures
        follows(input, input),
        follows(input.advance(), input),
{
    assert(input.rest.skip(0) == input.rest);
}

/// What is left of what is left is left.
pub proof fn lemma_follows_chain(last: StreamView, middle: StreamView, first: StreamView)
    requires
        follows(last, middle),
        follows(middle, first),
    ensures
        follows(last, first),
{
    let a = first.rest.len() - middle.rest.len();
    let b = middle.rest.len() - last.rest.len();
    assert(first.rest.skip(a).skip(b) == first.rest.skip(a + b));
}

/// Resolving a token only ever consumes tokens from the front.
pub proof fn lemma_progress_null_denotation(token: TokenView, input: StreamView)
    ensures
        follows(null_denotation(token, input).rest, input),
    decreases input.rest.len(),
        if opens_operand(token.kind) {
            2nat
        } else {
            0nat
        },
{
    lemma_follows_self(input);
    match token.kind {
        KindView::Subtract => {
            let operand = null_denotation(input.peek(), input.advance());
            lemma_progress_null_denotation(input.peek(), input.advance());
            lemma_follows_chain(operand.rest, input.advance(), input);
        },
        KindView::LParen => {
            let inner = expression(input, 0);
            lemma_progress_expression(input, 0);
            lemma_follows_self(inner.rest);
            lemma_follows_chain(inner.rest.advance(), inner.rest, input);
        },
        _ => {},
    }
}

/// An expression only ever consumes tokens from the front, and one that
/// was parsed consumed at least one.
pub proof fn lemma_progress_expression(input: StreamView, min_bp: int)
    ensures
        follows(expression(input, min_bp).rest, input),
        expression(input, min_bp).outcome is Ok ==> expression(input, min_bp).rest.rest.len()
            < input.rest.len(),
    decreases input.rest.len(), 1nat,
{
    let first = null_denotation(input.peek(), input.advance());
    lemma_progress_null_denotation(input.peek(), input.advance());
    lemma_follows_chain(first.rest, input.advance(), input);
    if first.outcome is Ok && first.rest.rest.len() < input.rest.len() {
        let last = climb(first.outcome->Ok_0, first.rest, min_bp);
        lemma_progress_climb(first.outcome->Ok_0, first.rest, min_bp);
        lemma_follows_chain(last.rest, first.rest, input);
    }
}

/// Continuing an expression only ever consumes tokens from the front.
pub proof fn lemma_progress_climb(left: ExprView, input: StreamView, min_bp: int)
    ensures
        follows(climb(left, input, min_bp).rest, input),
    decreases input.rest.len(), 0nat,
{
    lemma_follows_self(input);
    let next = input.peek();
    if !ends_expression(next) {
        if let Some(op) = infix_operator(next.kind) {
            if binding_power(op).0 >= min_bp {
                let right = expression(input.advance(), binding_power(op).1);
                lemma_progress_expression(input.advance(), binding_power(op).1);
                lemma_follows_chain(right.rest, input.advance(), input);
                if let Ok(operand) = right.outcome {
                    if right.rest.rest.len() < input.rest.len() {
                        let node = ExprView::BinaryOp {
                            op,
                            left: Box::new(left),
                            right: Box::new(operand),
                        };
                        lemma_progress_climb(node, right.rest, min_bp);
                        lemma_follows_chain(
                            climb(node, right.rest, min_bp).rest,
                            right.rest,
                            input,
                        );
                    }
                }
            }
        }
    }
}

/// Puts `first` in front of the statements of `rest`; a failure stays a
/// failure.
pub open spec fn prepend(first: StatementView, rest: ParsedProgram) -> ParsedProgram {
    prepend_all(seq![first], rest)
}

/// Puts the statements `done` in front of those of `rest`.
pub open spec fn prepend_all(done: Seq<StatementView>, rest: ParsedProgram) -> ParsedProgram {
    match rest.outcome {
        Ok(more) => ParsedProgram { outcome: Ok(done + more), rest: rest.rest },
        Err(_) => rest,
    }
}

/// The program at the front of `input`.
///
/// Each statement starts with one token. `print` is followed by an
/// expression of minimum binding power zero and yields a print statement; a
/// `;` is skipped; the end token ends the program; any other token is
/// refused. The token that starts a statement is always consumed.
pub open spec fn statements(input: StreamView) -> ParsedProgram
    decreases input.rest.len(),
{
    let token = input.peek();
    match token.kind {
        KindView::KwPrint => {
            let printed = expression(input.advance(), 0);
            proof {
                lemma_progress_expression(input.advance(), 0);
            }
            match printed.outcome {
                Ok(expr) => prepend(StatementView::Print(expr), statements(printed.rest)),
                Err(refused) => ParsedProgram { outcome: Err(refused), rest: printed.rest },
            }
        },
        KindView::Semicolon => statements(input.advance()),
        KindView::Eof => ParsedProgram {
            outcome: Ok(Seq::<StatementView>::empty()),
            rest: input.advance(),
        },
        _ => ParsedProgram { outcome: Err(token), rest: input.advance() },
    }
}

} // verus!
