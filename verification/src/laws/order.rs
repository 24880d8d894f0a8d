//! A tree keeps the order of the tokens it was parsed from.

use crate::grammar::{
    binding_power, climb, ends_expression, expression, follows, infix_operator,
    lemma_follows_chain, lemma_progress_climb, lemma_progress_expression,
    lemma_progress_null_denotation, null_denotation, Parsed,
};
use crate::lexing::{KindView, TokenView};
use crate::parsing::{ExprView, Op};
use crate::StreamView;
use vstd::prelude::*;

verus! {

/// The token kind that a binary operator is written as.
pub open spec fn operator_kind(op: Op) -> KindView {
    match op {
        Op::Add => KindView::Plus,
        Op::Mult => KindView::Times,
        Op::Divide => KindView::Divide,
        _ => KindView::Subtract,
    }
}

/// The token kinds that a tree is written as, from left to right, without
/// parentheses.
pub open spec fn spelled(expr: ExprView) -> Seq<KindView>
    decreases expr,
{
    match expr {
        ExprView::IntLiteral(n) => seq![KindView::IntLiteral(n)],
        ExprView::Identifier(name) => seq![KindView::Identifier(name)],
        ExprView::BinaryOp { op, left, right } => spelled(*left) + seq![operator_kind(op)]
            + spelled(*right),
        ExprView::UnaryOp { op, value } => seq![operator_kind(op)] + spelled(*value),
    }
}

/// The kinds of the tokens that are no parentheses, in order.
pub open spec fn plain(tokens: Seq<TokenView>) -> Seq<KindView>
    decreases tokens.len(),
{
    if tokens.len() == 0 {
        Seq::empty()
    } else if tokens[0].kind is LParen || tokens[0].kind is RParen {
        plain(tokens.skip(1))
    } else {
        seq![tokens[0].kind] + plain(tokens.skip(1))
    }
}

/// The tokens that were consumed between the stream `before` and the
/// stream `after`.
pub open spec fn read(before: StreamView, after: StreamView) -> Seq<TokenView> {
    before.rest.take(before.rest.len() - after.rest.len())
}

proof fn lemma_plain_concat(front: Seq<TokenView>, back: Seq<TokenView>)
    ensures
        plain(front + back) == plain(front) + plain(back),
    decreases front.len(),
{
    if front.len() > 0 {
        lemma_plain_concat(front.skip(1), back);
        assert((front + back).skip(1) == front.skip(1) + back);
    }
}

proof fn lemma_plain_one(token: TokenView)
    ensures
        plain(seq![token]) == if token.kind is LParen || token.kind is RParen {
            Seq::<KindView>::empty()
        } else {
            seq![token.kind]
        },
{
    assert(plain(seq![token].skip(1)) == Seq::<KindView>::empty());
}

proof fn lemma_read_chain(first: StreamView, middle: StreamView, last: StreamView)
    requires
        follows(middle, first),
        follows(last, middle),
    ensures
        read(first, last) == read(first, middle) + read(middle, last),
{
}

proof fn lemma_read_one(input: StreamView)
    requires
        input.rest.len() > 0,
    ensures
        read(input, input.advance()) == seq![input.peek()],
        read(input, input) == Seq::<TokenView>::empty(),
{
}

proof fn lemma_spelled_null_denotation(token: TokenView, input: StreamView)
    ensures
        null_denotation(token, input) matches Parsed { outcome: Ok(tree), rest } ==> spelled(tree)
            == plain(seq![token] + read(input, rest)),
    decreases input.rest.len(),
        if token.kind is Subtract || token.kind is LParen {
            2nat
        } else {
            0nat
        },
{
    let found = null_denotation(token, input);
    if let Ok(tree) = found.outcome {
        lemma_plain_one(token);
        match token.kind {
            KindView::Subtract => {
                lemma_spelled_null_denotation(input.peek(), input.advance());
                lemma_progress_null_denotation(input.peek(), input.advance());
                lemma_read_one(input);
                lemma_read_chain(input, input.advance(), found.rest);
                lemma_plain_concat(seq![token], read(input, found.rest));
            },
            KindView::LParen => {
                let inner = expression(input, 0);
                lemma_spelled_expression(input, 0);
                lemma_progress_expression(input, 0);
                lemma_read_one(inner.rest);
                lemma_read_chain(input, inner.rest, found.rest);
                lemma_plain_one(inner.rest.peek());
                lemma_plain_concat(read(input, inner.rest), seq![inner.rest.peek()]);
                lemma_plain_concat(seq![token], read(input, found.rest));
            },
            _ => {},
        }
    }
}

proof fn lemma_spelled_expression(input: StreamView, min_bp: int)
    ensures
        expression(input, min_bp) matches Parsed { outcome: Ok(tree), rest } ==> spelled(tree)
            == plain(read(input, rest)),
    decreases input.rest.len(), 1nat,
{
    let whole = expression(input, min_bp);
    if let Ok(tree) = whole.outcome {
        let first = null_denotation(input.peek(), input.advance());
        let left = first.outcome->Ok_0;
        lemma_spelled_null_denotation(input.peek(), input.advance());
        lemma_progress_null_denotation(input.peek(), input.advance());
        lemma_follows_chain(first.rest, input.advance(), input);
        lemma_spelled_climb(left, first.rest, min_bp);
        lemma_progress_climb(left, first.rest, min_bp);
        lemma_read_one(input);
        lemma_read_chain(input, input.advance(), first.rest);
        lemma_read_chain(input, first.rest, whole.rest);
        lemma_plain_concat(read(input, first.rest), read(first.rest, whole.rest));
    }
}

proof fn lemma_spelled_climb(left: ExprView, input: StreamView, min_bp: int)
    ensures
        climb(left, input, min_bp) matches Parsed { outcome: Ok(tree), rest } ==> spelled(tree)
            == spelled(left) + plain(read(input, rest)),
    decreases input.rest.len(), 0nat,
{
    let whole = climb(left, input, min_bp);
    if let Ok(tree) = whole.outcome {
        let next = input.peek();
        let op = infix_operator(next.kind)->Some_0;
        if !ends_expression(next) && binding_power(op).0 >= min_bp {
            let right = expression(input.advance(), binding_power(op).1);
            let node = ExprView::BinaryOp {
                op,
                left: Box::new(left),
                right: Box::new(right.outcome->Ok_0),
            };
            lemma_spelled_expression(input.advance(), binding_power(op).1);
            lemma_progress_expression(input.advance(), binding_power(op).1);
            lemma_follows_chain(right.rest, input.advance(), input);
            lemma_spelled_climb(node, right.rest, min_bp);
            lemma_progress_climb(node, right.rest, min_bp);
            lemma_read_one(input);
            lemma_plain_one(next);
            lemma_read_chain(input, input.advance(), right.rest);
            lemma_read_chain(input, right.rest, whole.rest);
            lemma_plain_concat(seq![next], read(input.advance(), right.rest));
            lemma_plain_concat(read(input, right.rest), read(right.rest, whole.rest));
        }
    }
}

/// A tree keeps the order of what was parsed: written out from left to
/// right, the tree of an expression gives the kinds of the tokens that
/// the parse consumed, parentheses left out.
pub proof fn law_tree_spells_its_tokens(input: StreamView, min_bp: int)
    ensures
        expression(input, min_bp) matches Parsed { outcome: Ok(tree), rest } ==> spelled(tree)
            == plain(read(input, rest)),
{
    lemma_spelled_expression(input, min_bp);
}

} // verus!
