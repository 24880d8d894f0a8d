//! Where tokens and diagnostics point.

use crate::built;
use crate::error::marked_length;
use crate::grammar::{
    binding_power, climb, ends_expression, expression, infix_operator,
    lemma_progress_expression, lemma_progress_null_denotation, null_denotation, statements,
};
use crate::lexing::{punctuation, scan, scan_source, KindView, TokenView};
use crate::parsing::ExprView;
use crate::text::{
    digit_run, digits_value, is_digit, lemma_digit_run_bound, lemma_line_feeds_skip,
    lemma_word_run_bound, line_feeds, starts_word, word_run,
};
use crate::StreamView;
use vstd::prelude::*;

verus! {

/// Whether `token` is one that the stream can hand out: one of its tokens,
/// or its end token.
pub open spec fn offered(input: StreamView, token: TokenView) -> bool {
    input.rest.contains(token) || token == input.end_token()
}

proof fn lemma_refused_null_denotation(token: TokenView, input: StreamView)
    ensures
        null_denotation(token, input).outcome matches Err(refused) ==> refused == token
            || offered(input, refused),
    decreases input.rest.len(),
        if token.kind is Subtract || token.kind is LParen {
            2nat
        } else {
            0nat
        },
{
    match token.kind {
        KindView::Subtract => {
            lemma_refused_null_denotation(input.peek(), input.advance());
        },
        KindView::LParen => {
            lemma_refused_expression(input, 0);
            lemma_progress_expression(input, 0);
        },
        _ => {},
    }
}

proof fn lemma_refused_expression(input: StreamView, min_bp: int)
    ensures
        expression(input, min_bp).outcome matches Err(refused) ==> offered(input, refused),
    decreases input.rest.len(), 1nat,
{
    let first = null_denotation(input.peek(), input.advance());
    lemma_refused_null_denotation(input.peek(), input.advance());
    lemma_progress_null_denotation(input.peek(), input.advance());
    if let Ok(left) = first.outcome {
        if first.rest.rest.len() < input.rest.len() {
            lemma_refused_climb(left, first.rest, min_bp);
        }
    }
}

proof fn lemma_refused_climb(left: ExprView, input: StreamView, min_bp: int)
    ensures
        climb(left, input, min_bp).outcome matches Err(refused) ==> offered(input, refused),
    decreases input.rest.len(), 0nat,
{
    let next = input.peek();
    if !ends_expression(next) {
        if let Some(op) = infix_operator(next.kind) {
            if binding_power(op).0 >= min_bp {
                let right = expression(input.advance(), binding_power(op).1);
                lemma_refused_expression(input.advance(), binding_power(op).1);
                lemma_progress_expression(input.advance(), binding_power(op).1);
                if let Ok(operand) = right.outcome {
                    if right.rest.rest.len() < input.rest.len() {
                        lemma_refused_climb(
                            ExprView::BinaryOp {
                                op,
                                left: Box::new(left),
                                right: Box::new(operand),
                            },
                            right.rest,
                            min_bp,
                        );
                    }
                }
            }
        }
    }
}

/// The token that a parse refuses is one that the stream handed out: one of
/// its tokens, or its end token.
pub proof fn law_refused_token_was_offered(input: StreamView)
    ensures
        statements(input).outcome matches Err(refused) ==> offered(input, refused),
    decreases input.rest.len(),
{
    match input.peek().kind {
        KindView::KwPrint => {
            let printed = expression(input.advance(), 0);
            lemma_refused_expression(input.advance(), 0);
            lemma_progress_expression(input.advance(), 0);
            if printed.outcome is Ok {
                law_refused_token_was_offered(printed.rest);
            }
        },
        KindView::Semicolon => {
            law_refused_token_was_offered(input.advance());
        },
        _ => {},
    }
}

/// Where a scan puts its tokens: with a line counter that starts at one or
/// above and a column counter that is not negative, every token is well
/// formed and lies between the line the scan started on and the line it
/// stopped on, which is as many lines further as the text has line feeds. A
/// literal that is too large is reported within the same lines, at a column
/// of one or above. Column zero occurs on later lines only, when the scan
/// started at column one or above.
pub proof fn law_scan_positions(s: Seq<char>, line: int, col: int)
    requires
        line >= 1,
        col >= 0,
    ensures
        match scan(s, line, col) {
            Ok(scanned) => {
                &&& scanned.line == line + line_feeds(s)
                &&& scanned.col >= 0
                &&& col >= 1 && scanned.col == 0 ==> scanned.line > line
                &&& forall|i: int|
                    0 <= i < scanned.tokens.len() ==> {
                        &&& (#[trigger] scanned.tokens[i]).well_formed()
                        &&& line <= scanned.tokens[i].line <= scanned.line
                        &&& col >= 1 && scanned.tokens[i].col == 0 ==> scanned.tokens[i].line
                            > line
                    }
            },
            Err(overflow) => {
                &&& line <= overflow.line <= line + line_feeds(s)
                &&& overflow.col >= 1
                &&& overflow.length >= 1
            },
        },
    decreases s.len(),
{
    if s.len() == 0 {
    } else if is_digit(s[0]) {
        let n = digit_run(s);
        lemma_digit_run_bound(s);
        lemma_line_feeds_skip(s, n as int);
        if digits_value(s.take(n as int)) <= i64::MAX {
            law_scan_positions(s.skip(n as int), line, col + n);
        }
    } else if starts_word(s[0]) {
        let n = word_run(s);
        lemma_word_run_bound(s);
        lemma_line_feeds_skip(s, n as int);
        law_scan_positions(s.skip(n as int), line, col + n);
    } else if s[0] == '\n' {
        law_scan_positions(s.skip(1), line + 1, 0);
    } else {
        match punctuation(s[0]) {
            Some(_) => law_scan_positions(s.skip(1), line, col),
            None => law_scan_positions(s.skip(1), line, col + 1),
        }
    }
}

/// Every diagnostic for a source text points into that text: at one of its
/// lines, at a column that is not negative, with at least one caret. The
/// column is zero only behind the first line: for a single-character token
/// that opens a later line, and for the end of input behind a final line
/// feed.
pub proof fn law_diagnostic_points_into_source(name: Seq<char>, source: Seq<char>)
    ensures
        built(name, source) matches Err(diagnostic) ==> {
            &&& 1 <= diagnostic.line <= 1 + line_feeds(source)
            &&& diagnostic.col >= 0
            &&& diagnostic.col == 0 ==> diagnostic.line > 1
            &&& marked_length(diagnostic.kind) >= 1
        },
{
    law_scan_positions(source, 1, 1);
    if let Ok(scanned) = scan_source(source) {
        let input = StreamView {
            rest: scanned.tokens,
            end_line: scanned.line,
            end_col: scanned.col,
        };
        law_refused_token_was_offered(input);
    }
}

} // verus!
