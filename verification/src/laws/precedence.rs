//! Associativity, precedence and where an expression ends.
//!
//! The laws speak of chains: an operand followed by links, each link a
//! binary operator with the operand to its right. Operands are single
//! tokens here, literals or identifiers.

use crate::grammar::{
    binding_power, climb, ends_expression, expression, infix_operator, lemma_progress_expression,
    lemma_progress_null_denotation, null_denotation, Parsed,
};
use crate::lexing::{KindView, TokenView};
use crate::parsing::{ExprView, Op};
use crate::StreamView;
use vstd::prelude::*;

verus! {

/// The expression that a single token is as an operand: a literal or an
/// identifier.
pub open spec fn atom(token: TokenView) -> Option<ExprView> {
    match token.kind {
        KindView::IntLiteral(n) => Some(ExprView::IntLiteral(n)),
        KindView::Identifier(name) => Some(ExprView::Identifier(name)),
        _ => None,
    }
}

/// Whether a token is `+` or `-`.
pub open spec fn is_additive(token: TokenView) -> bool {
    token.kind is Plus || token.kind is Subtract
}

/// Whether a token is `*` or `/`.
pub open spec fn is_multiplicative(token: TokenView) -> bool {
    token.kind is Times || token.kind is Divide
}

/// Whether every link is a binary operator followed by a one-token operand.
pub open spec fn well_linked(links: Seq<(TokenView, TokenView)>) -> bool {
    forall|i: int|
        0 <= i < links.len() ==> infix_operator((#[trigger] links[i]).0.kind) is Some && atom(
            links[i].1,
        ) is Some
}

/// Whether the links are well linked and all their operators have the left
/// binding power `level`.
pub open spec fn links_at_level(links: Seq<(TokenView, TokenView)>, level: int) -> bool {
    forall|i: int|
        0 <= i < links.len() ==> {
            &&& infix_operator((#[trigger] links[i]).0.kind) matches Some(op)
            &&& binding_power(op).0 == level
            &&& atom(links[i].1) is Some
        }
}

/// Whether the links are well linked and all their operators have the same
/// precedence.
pub open spec fn links_of_equal_precedence(links: Seq<(TokenView, TokenView)>) -> bool {
    &&& well_linked(links)
    &&& forall|i: int, j: int|
        0 <= i < links.len() && 0 <= j < links.len() ==> binding_power(
            infix_operator((#[trigger] links[i]).0.kind)->Some_0,
        ).0 == binding_power(infix_operator((#[trigger] links[j]).0.kind)->Some_0).0
}

/// The tokens of the links, in order.
pub open spec fn link_tokens(links: Seq<(TokenView, TokenView)>) -> Seq<TokenView>
    decreases links.len(),
{
    if links.len() == 0 {
        Seq::empty()
    } else {
        seq![links[0].0, links[0].1] + link_tokens(links.skip(1))
    }
}

/// The stream that has `tokens` in front of `tail`.
pub open spec fn before(tokens: Seq<TokenView>, tail: StreamView) -> StreamView {
    StreamView { rest: tokens + tail.rest, ..tail }
}

/// The tree of a binary operator token between two operands.
pub open spec fn joined(operator: TokenView, left: ExprView, right: ExprView) -> ExprView {
    ExprView::BinaryOp {
        op: infix_operator(operator.kind)->Some_0,
        left: Box::new(left),
        right: Box::new(right),
    }
}

/// The tree that applies the links to `left` one after the other, each
/// time with all that came before as the left operand.
pub open spec fn left_nested(left: ExprView, links: Seq<(TokenView, TokenView)>) -> ExprView
    decreases links.len(),
{
    if links.len() == 0 {
        left
    } else {
        left_nested(joined(links[0].0, left, atom(links[0].1)->Some_0), links.skip(1))
    }
}

/// Number of links at the front whose operator is `*` or `/`.
pub open spec fn product_run(links: Seq<(TokenView, TokenView)>) -> nat
    decreases links.len(),
{
    if links.len() > 0 && is_multiplicative(links[0].0) {
        1 + product_run(links.skip(1))
    } else {
        0
    }
}

/// The sum of `left` and the links, which start with a `+` or a `-` if there
/// are any: the right operand of each `+` or `-` is the product of the
/// operand behind it and the `*` and `/` links that follow, and the sums
/// nest to the left.
pub open spec fn sum_of_products(left: ExprView, links: Seq<(TokenView, TokenView)>) -> ExprView
    decreases links.len(),
{
    if links.len() == 0 {
        left
    } else {
        let factors = product_run(links.skip(1)) as int;
        proof {
            lemma_product_run(links.skip(1));
        }
        sum_of_products(
            joined(
                links[0].0,
                left,
                left_nested(atom(links[0].1)->Some_0, links.skip(1).take(factors)),
            ),
            links.skip(1 + factors),
        )
    }
}

/// The tree of a chain by precedence: the leading product first, then the
/// sum of the products that follow.
pub open spec fn by_precedence(first: TokenView, links: Seq<(TokenView, TokenView)>) -> ExprView {
    let factors = product_run(links) as int;
    sum_of_products(
        left_nested(atom(first)->Some_0, links.take(factors)),
        links.skip(factors),
    )
}

/// Whether a climb with minimum binding power `min_bp` ends in front of
/// `token`: it ends the expression or is an operator that binds too weakly
/// on its left.
pub open spec fn stops_climb(token: TokenView, min_bp: int) -> bool {
    ||| ends_expression(token)
    ||| (infix_operator(token.kind) matches Some(op) && binding_power(op).0 < min_bp)
}

/// The product run lies within the links and consists of `*` and `/` links.
pub proof fn lemma_product_run(links: Seq<(TokenView, TokenView)>)
    ensures
        product_run(links) <= links.len(),
        forall|i: int| 0 <= i < product_run(links) ==> is_multiplicative((#[trigger] links[i]).0),
        product_run(links) < links.len() ==> !is_multiplicative(links[product_run(links) as int].0),
    decreases links.len(),
{
    if links.len() > 0 && is_multiplicative(links[0].0) {
        let more = links.skip(1);
        lemma_product_run(more);
        assert forall|i: int| 0 <= i < product_run(links) implies is_multiplicative(
            (#[trigger] links[i]).0,
        ) by {
            if i > 0 {
                assert(links[i] == more[i - 1]);
            }
        }
    }
}

/// The tokens of links are those of a front part followed by those of the
/// rest.
proof fn lemma_link_tokens_split(links: Seq<(TokenView, TokenView)>, k: int)
    requires
        0 <= k <= links.len(),
    ensures
        link_tokens(links) == link_tokens(links.take(k)) + link_tokens(links.skip(k)),
    decreases k,
{
    if k == 0 {
        assert(links.skip(0) == links);
    } else {
        lemma_link_tokens_split(links.skip(1), k - 1);
        assert(links.take(k).skip(1) == links.skip(1).take(k - 1));
        assert(links.skip(1).skip(k - 1) == links.skip(k));
    }
}

/// A climb takes the links of one precedence level that follow the left
/// operand, nests them to the left and goes on behind them. What follows
/// the links must end the expression or be an operator of that level or
/// below.
proof fn lemma_climb_takes_links(
    left: ExprView,
    links: Seq<(TokenView, TokenView)>,
    tail: StreamView,
    min_bp: int,
    level: int,
)
    requires
        links_at_level(links, level),
        min_bp <= level,
        stops_climb(tail.peek(), level + 1),
    ensures
        climb(left, before(link_tokens(links), tail), min_bp) == climb(
            left_nested(left, links),
            tail,
            min_bp,
        ),
    decreases links.len(),
{
    let input = before(link_tokens(links), tail);
    if links.len() == 0 {
        assert(input.rest == tail.rest);
    } else {
        let (operator, operand) = links[0];
        let more = links.skip(1);
        let behind = before(link_tokens(more), tail);
        assert(input.advance().advance().rest == behind.rest);
        assert(links_at_level(more, level)) by {
            assert forall|i: int| 0 <= i < more.len() implies {
                &&& infix_operator((#[trigger] more[i]).0.kind) matches Some(op)
                &&& binding_power(op).0 == level
                &&& atom(more[i].1) is Some
            } by {
                assert(more[i] == links[i + 1]);
            }
        }
        // The right operand is the one token: what follows it binds too
        // weakly on its left, or ends the expression.
        assert(stops_climb(behind.peek(), level + 1)) by {
            if more.len() == 0 {
                assert(behind.rest == tail.rest);
            } else {
                assert(behind.peek() == more[0].0);
            }
        }
        assert(expression(input.advance(), level + 1) == Parsed {
            outcome: Ok(atom(operand)->Some_0),
            rest: behind,
        });
        lemma_climb_takes_links(
            joined(operator, left, atom(operand)->Some_0),
            more,
            tail,
            min_bp,
            level,
        );
    }
}

/// Operators of one precedence level that follow a left operand nest to the
/// left, up to the token that stops the climb.
proof fn lemma_climb_nests_left(
    left: ExprView,
    links: Seq<(TokenView, TokenView)>,
    tail: StreamView,
    min_bp: int,
    level: int,
)
    requires
        links_at_level(links, level),
        min_bp <= level,
        stops_climb(tail.peek(), min_bp),
    ensures
        climb(left, before(link_tokens(links), tail), min_bp) == (Parsed {
            outcome: Ok(left_nested(left, links)),
            rest: tail,
        }),
{
    lemma_climb_takes_links(left, links, tail, min_bp, level);
}

/// One link after `left` is the operator between `left` and its operand.
proof fn lemma_single_link(left: ExprView, operator: TokenView, operand: TokenView)
    ensures
        link_tokens(seq![(operator, operand)]) == seq![operator, operand],
        left_nested(left, seq![(operator, operand)]) == joined(
            operator,
            left,
            atom(operand)->Some_0,
        ),
{
    let links = seq![(operator, operand)];
    let tree = joined(operator, left, atom(operand)->Some_0);
    assert(link_tokens(links.skip(1)) == Seq::<TokenView>::empty());
    assert(left_nested(tree, links.skip(1)) == tree);
}

/// Operators of equal precedence associate to the left: an operand followed
/// by any number of operators of one precedence level, each with its
/// operand, and then by a `;` or a `)`, parses to the tree that nests to
/// the left, and the parse stops in front of that last token.
pub proof fn law_equal_precedence_nests_left(
    first: TokenView,
    links: Seq<(TokenView, TokenView)>,
    tail: StreamView,
)
    requires
        atom(first) is Some,
        links_of_equal_precedence(links),
        ends_expression(tail.peek()),
    ensures
        expression(before(seq![first] + link_tokens(links), tail), 0) == (Parsed {
            outcome: Ok(left_nested(atom(first)->Some_0, links)),
            rest: tail,
        }),
{
    let input = before(seq![first] + link_tokens(links), tail);
    let behind = before(link_tokens(links), tail);
    let level = if links.len() > 0 {
        binding_power(infix_operator(links[0].0.kind)->Some_0).0
    } else {
        10
    };
    assert(input.advance().rest == behind.rest);
    lemma_climb_nests_left(atom(first)->Some_0, links, tail, 0, level);
}

/// A climb from minimum binding power zero turns links that start with a
/// `+` or a `-` into the sum of their products.
proof fn lemma_climb_sums_products(
    left: ExprView,
    links: Seq<(TokenView, TokenView)>,
    tail: StreamView,
)
    requires
        well_linked(links),
        links.len() > 0 ==> is_additive(links[0].0),
        ends_expression(tail.peek()),
    ensures
        climb(left, before(link_tokens(links), tail), 0) == (Parsed {
            outcome: Ok(sum_of_products(left, links)),
            rest: tail,
        }),
    decreases links.len(),
{
    let input = before(link_tokens(links), tail);
    if links.len() == 0 {
        assert(input.rest == tail.rest);
    } else {
        let (operator, operand) = links[0];
        let more = links.skip(1);
        let factors = product_run(more) as int;
        lemma_product_run(more);
        let product_links = more.take(factors);
        let later = more.skip(factors);
        let behind = before(link_tokens(later), tail);
        let product = left_nested(atom(operand)->Some_0, product_links);

        assert(later == links.skip(1 + factors));
        assert(well_linked(later)) by {
            assert forall|i: int| 0 <= i < later.len() implies infix_operator(
                (#[trigger] later[i]).0.kind,
            ) is Some && atom(later[i].1) is Some by {
                assert(later[i] == links[1 + factors + i]);
            }
        }
        assert(links_at_level(product_links, 20)) by {
            assert forall|i: int| 0 <= i < product_links.len() implies {
                &&& infix_operator((#[trigger] product_links[i]).0.kind) matches Some(op)
                &&& binding_power(op).0 == 20
                &&& atom(product_links[i].1) is Some
            } by {
                assert(product_links[i] == more[i]);
                assert(more[i] == links[i + 1]);
            }
        }
        // Behind the product stands a `+` or a `-`, or the end of the
        // expression.
        if later.len() > 0 {
            assert(later[0] == more[factors]);
            assert(more[factors] == links[1 + factors]);
            assert(behind.peek() == later[0].0);
            assert(is_additive(later[0].0));
        } else {
            assert(behind.rest == tail.rest);
        }
        // The right operand of the first operator is the product.
        lemma_link_tokens_split(more, factors);
        let after_operand = before(link_tokens(product_links), behind);
        assert(input.advance().advance().rest == after_operand.rest);
        lemma_climb_nests_left(atom(operand)->Some_0, product_links, behind, 11, 20);
        assert(expression(input.advance(), 11) == Parsed { outcome: Ok(product), rest: behind });
        lemma_climb_sums_products(joined(operator, left, product), later, tail);
    }
}

/// Multiplication and division bind tighter than addition and subtraction,
/// and each level associates to the left: an operand followed by any number
/// of binary operators, each with its operand, and then by a `;` or a `)`,
/// parses to the sum of its products, and the parse stops in front of that
/// last token.
pub proof fn law_products_bind_tighter_than_sums(
    first: TokenView,
    links: Seq<(TokenView, TokenView)>,
    tail: StreamView,
)
    requires
        atom(first) is Some,
        well_linked(links),
        ends_expression(tail.peek()),
    ensures
        expression(before(seq![first] + link_tokens(links), tail), 0) == (Parsed {
            outcome: Ok(by_precedence(first, links)),
            rest: tail,
        }),
{
    let input = before(seq![first] + link_tokens(links), tail);
    let factors = product_run(links) as int;
    lemma_product_run(links);
    let product_links = links.take(factors);
    let later = links.skip(factors);
    let behind = before(link_tokens(later), tail);

    assert(well_linked(later)) by {
        assert forall|i: int| 0 <= i < later.len() implies infix_operator(
            (#[trigger] later[i]).0.kind,
        ) is Some && atom(later[i].1) is Some by {
            assert(later[i] == links[factors + i]);
        }
    }
    assert(links_at_level(product_links, 20)) by {
        assert forall|i: int| 0 <= i < product_links.len() implies {
            &&& infix_operator((#[trigger] product_links[i]).0.kind) matches Some(op)
            &&& binding_power(op).0 == 20
            &&& atom(product_links[i].1) is Some
        } by {
            assert(product_links[i] == links[i]);
        }
    }
    if later.len() > 0 {
        assert(later[0] == links[factors]);
        assert(behind.peek() == later[0].0);
        assert(is_additive(later[0].0));
    } else {
        assert(behind.rest == tail.rest);
    }
    lemma_link_tokens_split(links, factors);
    let after_first = before(link_tokens(product_links), behind);
    assert(input.advance().rest == after_first.rest);
    lemma_climb_takes_links(atom(first)->Some_0, product_links, behind, 0, 20);
    lemma_climb_sums_products(left_nested(atom(first)->Some_0, product_links), later, tail);
}

/// `a + b * c` is `a + (b * c)`, for all operands, every `+` or `-` and every
/// `*` or `/`.
pub proof fn law_product_binds_tighter(
    a: TokenView,
    plus: TokenView,
    b: TokenView,
    times: TokenView,
    c: TokenView,
    tail: StreamView,
)
    requires
        atom(a) is Some,
        atom(b) is Some,
        atom(c) is Some,
        is_additive(plus),
        is_multiplicative(times),
        ends_expression(tail.peek()),
    ensures
        expression(before(seq![a, plus, b, times, c], tail), 0) == (Parsed {
            outcome: Ok(
                joined(
                    plus,
                    atom(a)->Some_0,
                    joined(times, atom(b)->Some_0, atom(c)->Some_0),
                ),
            ),
            rest: tail,
        }),
{
    let input = before(seq![a, plus, b, times, c], tail);
    let after_a = before(seq![plus, b, times, c], tail);
    let after_plus = before(seq![b, times, c], tail);
    let after_b = before(seq![times, c], tail);
    assert(input.advance().rest == after_a.rest);
    assert(after_a.advance().rest == after_plus.rest);
    assert(after_plus.advance().rest == after_b.rest);
    // The product: `b * c`, read with the right binding power of `+`.
    let product = joined(times, atom(b)->Some_0, atom(c)->Some_0);
    lemma_single_link(atom(b)->Some_0, times, c);
    lemma_climb_nests_left(atom(b)->Some_0, seq![(times, c)], tail, 11, 20);
    assert(expression(after_plus, 11) == Parsed { outcome: Ok(product), rest: tail });
    assert(climb(joined(plus, atom(a)->Some_0, product), tail, 0) == Parsed {
        outcome: Ok(joined(plus, atom(a)->Some_0, product)),
        rest: tail,
    });
}

/// Parentheses override precedence: `(a + b) * c` is `(a + b) * c`, for all
/// operands and all binary operators.
pub proof fn law_parentheses_group(
    open: TokenView,
    a: TokenView,
    inner: TokenView,
    b: TokenView,
    close: TokenView,
    outer: TokenView,
    c: TokenView,
    tail: StreamView,
)
    requires
        open.kind is LParen,
        close.kind is RParen,
        atom(a) is Some,
        atom(b) is Some,
        atom(c) is Some,
        infix_operator(inner.kind) is Some,
        infix_operator(outer.kind) is Some,
        ends_expression(tail.peek()),
    ensures
        expression(before(seq![open, a, inner, b, close, outer, c], tail), 0) == (Parsed {
            outcome: Ok(
                joined(
                    outer,
                    joined(inner, atom(a)->Some_0, atom(b)->Some_0),
                    atom(c)->Some_0,
                ),
            ),
            rest: tail,
        }),
{
    let input = before(seq![open, a, inner, b, close, outer, c], tail);
    let after_open = before(seq![a, inner, b, close, outer, c], tail);
    let after_b = before(seq![close, outer, c], tail);
    let after_close = before(seq![outer, c], tail);
    assert(input.advance().rest == after_open.rest);
    let outer_level = binding_power(infix_operator(outer.kind)->Some_0).0;
    // The group: `a + b`, read up to the closing parenthesis.
    let group = joined(inner, atom(a)->Some_0, atom(b)->Some_0);
    lemma_single_link(atom(a)->Some_0, inner, b);
    law_equal_precedence_nests_left(a, seq![(inner, b)], after_b);
    assert(before(seq![a] + seq![inner, b], after_b).rest == after_open.rest);
    assert(after_b.advance().rest == after_close.rest);
    // The group is the left operand of what follows.
    lemma_single_link(group, outer, c);
    lemma_climb_nests_left(group, seq![(outer, c)], tail, 0, outer_level);
}

/// Prefix negation binds tighter than any binary operator: `-a + b` is
/// `(-a) + b`, for all operands and all binary operators.
pub proof fn law_negation_binds_tightest(
    minus: TokenView,
    a: TokenView,
    operator: TokenView,
    b: TokenView,
    tail: StreamView,
)
    requires
        minus.kind is Subtract,
        atom(a) is Some,
        atom(b) is Some,
        infix_operator(operator.kind) is Some,
        ends_expression(tail.peek()),
    ensures
        expression(before(seq![minus, a, operator, b], tail), 0) == (Parsed {
            outcome: Ok(
                joined(
                    operator,
                    ExprView::UnaryOp { op: Op::Negate, value: Box::new(atom(a)->Some_0) },
                    atom(b)->Some_0,
                ),
            ),
            rest: tail,
        }),
{
    let input = before(seq![minus, a, operator, b], tail);
    let after_minus = before(seq![a, operator, b], tail);
    let after_a = before(seq![operator, b], tail);
    assert(input.advance().rest == after_minus.rest);
    assert(after_minus.advance().rest == after_a.rest);
    let negated = ExprView::UnaryOp { op: Op::Negate, value: Box::new(atom(a)->Some_0) };
    assert(null_denotation(a, after_a) == Parsed { outcome: Ok(atom(a)->Some_0), rest: after_a });
    let level = binding_power(infix_operator(operator.kind)->Some_0).0;
    lemma_single_link(negated, operator, b);
    lemma_climb_nests_left(negated, seq![(operator, b)], tail, 0, level);
}

/// An expression that was parsed ends in front of a `;`, of a `)`, or of
/// an operator that binds too weakly on its left. With a minimum binding
/// power of zero only the first two are left: no expression reaches the
/// end of the input.
pub proof fn law_expression_ends_before_terminator(input: StreamView, min_bp: int)
    ensures
        expression(input, min_bp).outcome is Ok ==> stops_climb(
            expression(input, min_bp).rest.peek(),
            min_bp,
        ),
        expression(input, 0).outcome is Ok ==> ends_expression(expression(input, 0).rest.peek()),
{
    lemma_expression_stops(input, min_bp);
    lemma_expression_stops(input, 0);
}

proof fn lemma_expression_stops(input: StreamView, min_bp: int)
    ensures
        expression(input, min_bp).outcome is Ok ==> stops_climb(
            expression(input, min_bp).rest.peek(),
            min_bp,
        ),
{
    let first = null_denotation(input.peek(), input.advance());
    lemma_progress_null_denotation(input.peek(), input.advance());
    if first.outcome is Ok && first.rest.rest.len() < input.rest.len() {
        lemma_climb_stops(first.outcome->Ok_0, first.rest, min_bp);
    }
}

proof fn lemma_climb_stops(left: ExprView, input: StreamView, min_bp: int)
    ensures
        climb(left, input, min_bp).outcome is Ok ==> stops_climb(
            climb(left, input, min_bp).rest.peek(),
            min_bp,
        ),
    decreases input.rest.len(),
{
    let next = input.peek();
    if !ends_expression(next) {
        if let Some(op) = infix_operator(next.kind) {
            if binding_power(op).0 >= min_bp {
                let right = expression(input.advance(), binding_power(op).1);
                lemma_progress_expression(input.advance(), binding_power(op).1);
                if let Ok(operand) = right.outcome {
                    lemma_climb_stops(
                        ExprView::BinaryOp {
                            op,
                            left: Box::new(left),
                            right: Box::new(operand),
                        },
                        right.rest,
                        min_bp,
                    );
                }
            }
        }
    }
}

} // verus!
