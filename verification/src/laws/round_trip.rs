//! Displaying tokens and scanning the display.

use crate::lexing::{
    emit, kind_text, punctuation, scan, scan_source, word_kind, KindView, TokenView,
};
use crate::text::{
    continues_word, digit_run, digits_value, is_digit, lemma_decimal_denotes,
    lemma_digit_run_bound, lemma_digit_run_is, lemma_word_run_bound, lemma_word_run_is,
    starts_word, word_run,
};
use vstd::prelude::*;

verus! {

/// The kinds of a token sequence, positions left out.
pub open spec fn kinds(tokens: Seq<TokenView>) -> Seq<KindView> {
    Seq::new(tokens.len(), |i: int| tokens[i].kind)
}

/// The display forms of the kinds, with one blank between neighbours.
pub open spec fn displayed(kinds: Seq<KindView>) -> Seq<char>
    decreases kinds.len(),
{
    if kinds.len() == 0 {
        Seq::empty()
    } else if kinds.len() == 1 {
        kind_text(kinds[0])
    } else {
        kind_text(kinds[0]) + seq![' '] + displayed(kinds.skip(1))
    }
}

/// Whether a scan can yield a token of this kind: a literal is not
/// negative, an identifier is a word other than the keyword, and the end
/// token never comes out of a scan.
pub open spec fn scannable(kind: KindView) -> bool {
    match kind {
        KindView::IntLiteral(n) => n >= 0,
        KindView::Identifier(word) => {
            &&& word.len() > 0
            &&& starts_word(word[0])
            &&& forall|i: int| 0 <= i < word.len() ==> continues_word(#[trigger] word[i])
            &&& word_kind(word) == kind
        },
        KindView::Eof => false,
        _ => true,
    }
}

/// Every token that a scan yields is of a scannable kind.
pub proof fn law_scanned_kinds_are_scannable(s: Seq<char>, line: int, col: int)
    ensures
        scan(s, line, col) matches Ok(scanned) ==> forall|i: int|
            0 <= i < scanned.tokens.len() ==> scannable(#[trigger] scanned.tokens[i].kind),
    decreases s.len(),
{
    if s.len() == 0 {
    } else if is_digit(s[0]) {
        let n = digit_run(s);
        lemma_digit_run_bound(s);
        if digits_value(s.take(n as int)) <= i64::MAX {
            law_scanned_kinds_are_scannable(s.skip(n as int), line, col + n);
        }
    } else if starts_word(s[0]) {
        let n = word_run(s);
        lemma_word_run_bound(s);
        law_scanned_kinds_are_scannable(s.skip(n as int), line, col + n);
    } else if s[0] == '\n' {
        law_scanned_kinds_are_scannable(s.skip(1), line + 1, 0);
    } else {
        match punctuation(s[0]) {
            Some(_) => law_scanned_kinds_are_scannable(s.skip(1), line, col),
            None => law_scanned_kinds_are_scannable(s.skip(1), line, col + 1),
        }
    }
}

/// What follows a displayed kind: nothing, or a blank and more text.
spec fn ends_word(rest: Seq<char>) -> bool {
    rest.len() == 0 || rest[0] == ' '
}

/// A scannable kind, displayed and followed by a blank or by nothing, scans
/// to one token of that kind and leaves what follows.
proof fn lemma_scan_displayed_kind(kind: KindView, rest: Seq<char>, line: int, col: int) -> (token:
    TokenView)
    requires
        scannable(kind),
        ends_word(rest),
    ensures
        token.kind == kind,
        scan(kind_text(kind) + rest, line, col) == emit(token, scan(rest, token.line, token.col)),
{
    let text = kind_text(kind);
    let s = text + rest;
    match kind {
        KindView::IntLiteral(v) => {
            lemma_decimal_denotes(v as nat);
            let n = text.len() as int;
            lemma_digit_run_is(s, n);
            assert(s.take(n) == text);
            assert(s.skip(n) == rest);
            TokenView { kind, line, col: col + n, length: n }
        },
        KindView::Identifier(word) => {
            let n = word.len() as int;
            lemma_word_run_is(s, n);
            assert(s.take(n) == word);
            assert(s.skip(n) == rest);
            TokenView { kind, line, col: col + n, length: n }
        },
        KindView::KwPrint => {
            let n = 5int;
            lemma_word_run_is(s, n);
            assert(s.take(n) == text);
            assert(s.skip(n) == rest);
            TokenView { kind, line, col: col + n, length: n }
        },
        _ => {
            assert(s.skip(1) == rest);
            TokenView { kind, line, col, length: 1 }
        },
    }
}

/// Scannable kinds, displayed with single blanks between them, scan to
/// tokens of exactly these kinds, wherever the counters start.
pub proof fn law_displayed_kinds_scan_back(wanted: Seq<KindView>, line: int, col: int)
    requires
        forall|i: int| 0 <= i < wanted.len() ==> scannable(#[trigger] wanted[i]),
    ensures
        scan(displayed(wanted), line, col) matches Ok(scanned) && kinds(scanned.tokens) == wanted,
    decreases wanted.len(),
{
    if wanted.len() > 0 {
        let more = wanted.skip(1);
        let rest = if wanted.len() == 1 {
            Seq::<char>::empty()
        } else {
            seq![' '] + displayed(more)
        };
        assert(displayed(wanted) == kind_text(wanted[0]) + rest);
        let token = lemma_scan_displayed_kind(wanted[0], rest, line, col);
        if wanted.len() > 1 {
            law_displayed_kinds_scan_back(more, token.line, token.col + 1);
            assert(rest.skip(1) == displayed(more));
            let tail = scan(displayed(more), token.line, token.col + 1)->Ok_0;
            assert(kinds(seq![token] + tail.tokens) == wanted) by {
                assert forall|i: int| 0 <= i < wanted.len() implies kinds(
                    seq![token] + tail.tokens,
                )[i] == wanted[i] by {
                    if i > 0 {
                        assert(kinds(tail.tokens)[i - 1] == more[i - 1]);
                    }
                }
            }
        }
    }
}

/// Scanning is stable under display: when a source text scans to some
/// tokens, the text that shows these tokens with single blanks between them
/// scans to tokens of the same kinds, in the same order.
pub proof fn law_display_then_scan_keeps_kinds(source: Seq<char>)
    requires
        scan_source(source) is Ok,
    ensures
        ({
            let first = scan_source(source)->Ok_0;
            scan_source(displayed(kinds(first.tokens))) matches Ok(second) && kinds(second.tokens)
                == kinds(first.tokens)
        }),
{
    let first = scan_source(source)->Ok_0;
    law_scanned_kinds_are_scannable(source, 1, 1);
    law_displayed_kinds_scan_back(kinds(first.tokens), 1, 1);
}

} // verus!
