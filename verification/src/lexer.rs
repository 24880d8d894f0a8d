//! A scanner for bare arithmetic: integer literals, the four operators and
//! parentheses, without source positions.

use crate::text::{
    chars_of, digit_run, digit_value, digits_value, is_digit, lemma_digit_run_bound,
    lemma_digit_run_is,
};
use vstd::prelude::*;

verus! {

/// A token of bare arithmetic.
#[derive(Debug, Copy, Clone, PartialEq, Eq, Structural)]
pub enum Token {
    IntLiteral(i64),
    Plus,
    Times,
    Divide,
    Subtract,
    LParen,
    RParen,
    Eof,
}

/// The token that a single character is, if it is one.
pub open spec fn symbol(c: char) -> Option<Token> {
    if c == '+' {
        Some(Token::Plus)
    } else if c == '*' {
        Some(Token::Times)
    } else if c == '/' {
        Some(Token::Divide)
    } else if c == '-' {
        Some(Token::Subtract)
    } else if c == '(' {
        Some(Token::LParen)
    } else if c == ')' {
        Some(Token::RParen)
    } else {
        None
    }
}

/// Puts the tokens `done` in front of those of `rest`; a failure stays a
/// failure.
pub open spec fn then(done: Seq<Token>, rest: Option<Seq<Token>>) -> Option<Seq<Token>> {
    match rest {
        Some(more) => Some(done + more),
        None => None,
    }
}

/// The tokens of `s` in source order, or `None` when an integer literal
/// exceeds `i64::MAX`.
///
/// A digit starts a literal that takes the longest run of digits; one of
/// `+ * / - ( )` is a token of its own; every other character is skipped.
pub open spec fn tokens_of(s: Seq<char>) -> Option<Seq<Token>>
    decreases s.len(),
{
    if s.len() == 0 {
        Some(Seq::empty())
    } else if is_digit(s[0]) {
        let n = digit_run(s);
        let value = digits_value(s.take(n as int));
        proof {
            lemma_digit_run_bound(s);
        }
        if value > i64::MAX {
            None
        } else {
            then(seq![Token::IntLiteral(value as i64)], tokens_of(s.skip(n as int)))
        }
    } else {
        match symbol(s[0]) {
            Some(token) => then(seq![token], tokens_of(s.skip(1))),
            None => tokens_of(s.skip(1)),
        }
    }
}

/// The tokens of one text, handed out one by one. They are held last
/// first, so that the next token is at the end of `tokens`.
pub struct Lexer {
    pub tokens: Vec<Token>,
}

impl Lexer {
    /// The tokens that have not been handed out, in source order.
    pub open spec fn pending(&self) -> Seq<Token> {
        self.tokens@.reverse()
    }

    /// Scans `content`. There is no lexer for a text with a literal that
    /// exceeds `i64::MAX`.
    pub fn tokenize(content: String) -> (lexer: Option<Lexer>)
        ensures
            match tokens_of(content@) {
                Some(tokens) => lexer matches Some(l) && l.pending() == tokens,
                None => lexer is None,
            },
    {
        let chars = chars_of(content.as_str());
        let mut found: Vec<Token> = Vec::new();
        let mut i: usize = 0;
        assert(chars@.skip(0) == chars@);
        while i < chars.len()
            invariant
                i <= chars.len(),
                chars@ == content@,
                tokens_of(content@) == then(found@, tokens_of(chars@.skip(i as int))),
            decreases chars.len() - i,
        {
            let ghost here = chars@.skip(i as int);
            let c = chars[i];
            if is_digit(c) {
                let (value, end) = build_int(&chars, i);
                assert(here.skip(end - i) == chars@.skip(end as int));
                assert(here.take(end - i) == chars@.subrange(i as int, end as int));
                match value {
                    Some(v) => {
                        found.push(Token::IntLiteral(v));
                    },
                    None => {
                        return None;
                    },
                }
                i = end;
                continue ;
            }
            assert(here.skip(1) == chars@.skip(i + 1));
            let token = match c {
                '+' => Token::Plus,
                '*' => Token::Times,
                '/' => Token::Divide,
                '-' => Token::Subtract,
                '(' => Token::LParen,
                ')' => Token::RParen,
                _ => {
                    i += 1;
                    continue ;
                },
            };
            found.push(token);
            i += 1;
        }
        let mut tokens: Vec<Token> = Vec::new();
        let mut left = found.len();
        while left > 0
            invariant
                left <= found.len(),
                tokens.len() == found.len() - left,
                forall|k: int| 0 <= k < tokens.len() ==> tokens[k] == found[found.len() - 1 - k],
            decreases left,
        {
            left -= 1;
            tokens.push(found[left]);
        }
        Some(Lexer { tokens })
    }

    /// Hands out the next token, or the end token when none is left.
    pub fn next(&mut self) -> (token: Token)
        ensures
            token == if old(self).pending().len() > 0 {
                old(self).pending()[0]
            } else {
                Token::Eof
            },
            final(self).pending() == if old(self).pending().len() > 0 {
                old(self).pending().skip(1)
            } else {
                old(self).pending()
            },
    {
        match self.tokens.pop() {
            Some(token) => {
                token
            },
            None => Token::Eof,
        }
    }

    /// Shows the next token, or the end token when none is left, and hands
    /// out nothing.
    pub fn peek(&mut self) -> (token: Token)
        ensures
            token == if old(self).pending().len() > 0 {
                old(self).pending()[0]
            } else {
                Token::Eof
            },
            *final(self) == *old(self),
    {
        let n = self.tokens.len();
        if n > 0 {
            self.tokens[n - 1]
        } else {
            Token::Eof
        }
    }
}

/// Reads the literal that starts at `start`. Returns its value, or `None`
/// when it exceeds `i64::MAX`, and the index just behind its last digit.
fn build_int(chars: &Vec<char>, start: usize) -> (literal: (Option<i64>, usize))
    requires
        start < chars.len(),
        is_digit(chars[start as int]),
    ensures
        start < literal.1 <= chars.len(),
        literal.1 - start == digit_run(chars@.skip(start as int)),
        ({
            let digits = chars@.subrange(start as int, literal.1 as int);
            literal.0 == if digits_value(digits) <= i64::MAX {
                Some(digits_value(digits) as i64)
            } else {
                None
            }
        }),
{
    let mut value: Option<i64> = Some(0);
    let mut end = start;
    while end < chars.len() && is_digit(chars[end])
        invariant
            start <= end <= chars.len(),
            end == start ==> is_digit(chars[start as int]),
            forall|k: int| start <= k < end ==> is_digit(chars[k]),
            ({
                let digits = chars@.subrange(start as int, end as int);
                value == if digits_value(digits) <= i64::MAX {
                    Some(digits_value(digits) as i64)
                } else {
                    None
                }
            }),
        decreases chars.len() - end,
    {
        let ghost before = chars@.subrange(start as int, end as int);
        let digit = digit_value(chars[end]);
        value =
        match value {
            Some(v) => match v.checked_mul(10) {
                Some(tens) => tens.checked_add(digit),
                None => None,
            },
            None => None,
        };
        end += 1;
        proof {
            let after = chars@.subrange(start as int, end as int);
            assert(after.drop_last() == before);
        }
    }
    proof {
        let s = chars@.skip(start as int);
        lemma_digit_run_is(s, end - start);
    }
    (value, end)
}

} // verus!
