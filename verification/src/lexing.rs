//! Tokens and the scanner that produces them.
//!
//! [`scan`] says what the token sequence of a character sequence is;
//! [`Lexer::tokenize`] computes it.

use crate::text::{
    chars_of, continues_word, decimal, digit_run, digit_value, digits_value, is_digit,
    lemma_digit_run_bound, lemma_digit_run_is, lemma_word_run_bound, lemma_word_run_is,
    push_decimal, starts_word, word_run,
};
use vstd::prelude::*;

verus! {

/// What a token is. A literal carries its value, an identifier its text.
#[derive(Debug, PartialEq, Eq)]
pub enum TokenKind {
    IntLiteral(i64),
    Identifier(String),
    Plus,
    Times,
    Divide,
    Subtract,
    LParen,
    RParen,
    KwPrint,
    Semicolon,
    Eof,
}

/// Mathematical model of a [`TokenKind`]: identifier text is a sequence of
/// characters.
pub enum KindView {
    IntLiteral(i64),
    Identifier(Seq<char>),
    Plus,
    Times,
    Divide,
    Subtract,
    LParen,
    RParen,
    KwPrint,
    Semicolon,
    Eof,
}

impl View for TokenKind {
    type V = KindView;

    open spec fn view(&self) -> KindView {
        match self {
            TokenKind::IntLiteral(n) => KindView::IntLiteral(*n),
            TokenKind::Identifier(text) => KindView::Identifier(text@),
            TokenKind::Plus => KindView::Plus,
            TokenKind::Times => KindView::Times,
            TokenKind::Divide => KindView::Divide,
            TokenKind::Subtract => KindView::Subtract,
            TokenKind::LParen => KindView::LParen,
            TokenKind::RParen => KindView::RParen,
            TokenKind::KwPrint => KindView::KwPrint,
            TokenKind::Semicolon => KindView::Semicolon,
            TokenKind::Eof => KindView::Eof,
        }
    }
}

impl DeepView for TokenKind {
    type V = KindView;

    open spec fn deep_view(&self) -> KindView {
        self@
    }
}

impl Clone for TokenKind {
    fn clone(&self) -> (copy: Self)
        ensures
            copy == *self,
    {
        match self {
            TokenKind::IntLiteral(n) => TokenKind::IntLiteral(*n),
            TokenKind::Identifier(text) => TokenKind::Identifier(text.clone()),
            TokenKind::Plus => TokenKind::Plus,
            TokenKind::Times => TokenKind::Times,
            TokenKind::Divide => TokenKind::Divide,
            TokenKind::Subtract => TokenKind::Subtract,
            TokenKind::LParen => TokenKind::LParen,
            TokenKind::RParen => TokenKind::RParen,
            TokenKind::KwPrint => TokenKind::KwPrint,
            TokenKind::Semicolon => TokenKind::Semicolon,
            TokenKind::Eof => TokenKind::Eof,
        }
    }
}

/// The text that a token kind is displayed as.
pub open spec fn kind_text(kind: KindView) -> Seq<char> {
    match kind {
        KindView::IntLiteral(n) => decimal(n as int),
        KindView::Identifier(text) => text,
        KindView::Plus => seq!['+'],
        KindView::Times => seq!['*'],
        KindView::Divide => seq!['/'],
        KindView::Subtract => seq!['-'],
        KindView::LParen => seq!['('],
        KindView::RParen => seq![')'],
        KindView::KwPrint => seq!['p', 'r', 'i', 'n', 't'],
        KindView::Semicolon => seq![';'],
        KindView::Eof => seq!['E', 'O', 'F'],
    }
}

impl TokenKind {
    /// Appends the display form of the kind to `out`.
    pub fn write_to(&self, out: &mut String)
        ensures
            final(out)@ == old(out)@ + kind_text(self@),
    {
        match self {
            TokenKind::IntLiteral(n) => push_decimal(out, *n),
            TokenKind::Identifier(text) => out.append(text.as_str()),
            TokenKind::Plus => out.push('+'),
            TokenKind::Times => out.push('*'),
            TokenKind::Divide => out.push('/'),
            TokenKind::Subtract => out.push('-'),
            TokenKind::LParen => out.push('('),
            TokenKind::RParen => out.push(')'),
            TokenKind::KwPrint => {
                proof {
                    reveal_strlit("print");
                }
                out.append("print");
            },
            TokenKind::Semicolon => out.push(';'),
            TokenKind::Eof => {
                proof {
                    reveal_strlit("EOF");
                }
                out.append("EOF");
            },
        }
    }

    /// The display form of the kind.
    pub fn to_string(&self) -> (text: String)
        ensures
            text@ == kind_text(self@),
    {
        let mut text = String::new();
        self.write_to(&mut text);
        text
    }
}

/// A token with its place in the source. `length` is the number of
/// characters that the token was scanned from. For a literal, an identifier
/// or a keyword `col` is the column just behind the token, for any other
/// token the column that the scanner had reached when it met the token. The
/// first line starts at column one and every later line at column zero, so
/// the column of such a token can be zero.
#[derive(Debug, PartialEq, Eq)]
pub struct Token {
    pub kind: TokenKind,
    pub line_number: i32,
    pub col: i32,
    pub length: i32,
}

/// Mathematical model of a [`Token`].
pub struct TokenView {
    pub kind: KindView,
    pub line: int,
    pub col: int,
    pub length: int,
}

impl View for Token {
    type V = TokenView;

    open spec fn view(&self) -> TokenView {
        TokenView {
            kind: self.kind@,
            line: self.line_number as int,
            col: self.col as int,
            length: self.length as int,
        }
    }
}

impl DeepView for Token {
    type V = TokenView;

    open spec fn deep_view(&self) -> TokenView {
        self@
    }
}

impl Clone for Token {
    fn clone(&self) -> (copy: Self)
        ensures
            copy == *self,
    {
        Token {
            kind: self.kind.clone(),
            line_number: self.line_number,
            col: self.col,
            length: self.length,
        }
    }
}

impl Token {
    /// A token of the given kind at the given place.
    pub fn new(kind: TokenKind, line_number: i32, col: i32, length: i32) -> (token: Self)
        ensures
            token == (Token { kind, line_number, col, length }),
    {
        Self { kind, line_number, col, length }
    }
}

impl TokenView {
    /// Line and length are at least one, and the column is not negative.
    /// A column of one or above cannot be asked for: a later line starts at
    /// column zero, and a single-character token that opens it stays there.
    pub open spec fn well_formed(self) -> bool {
        self.line >= 1 && self.col >= 0 && self.length >= 1
    }
}

/// The kind of a single-character token, if `c` is one.
pub open spec fn punctuation(c: char) -> Option<KindView> {
    if c == '+' {
        Some(KindView::Plus)
    } else if c == '*' {
        Some(KindView::Times)
    } else if c == '/' {
        Some(KindView::Divide)
    } else if c == '-' {
        Some(KindView::Subtract)
    } else if c == '(' {
        Some(KindView::LParen)
    } else if c == ')' {
        Some(KindView::RParen)
    } else if c == ';' {
        Some(KindView::Semicolon)
    } else {
        None
    }
}

/// The kind of a word: the keyword it spells, or else an identifier.
pub open spec fn word_kind(word: Seq<char>) -> KindView {
    if word == seq!['p', 'r', 'i', 'n', 't'] {
        KindView::KwPrint
    } else {
        KindView::Identifier(word)
    }
}

/// What a scan yields when every literal fits: the tokens in source order and
/// the line and column that the scanner stopped at.
pub struct Scanned {
    pub tokens: Seq<TokenView>,
    pub line: int,
    pub col: int,
}

/// An integer literal whose value does not fit in 64 signed bits. `col` is
/// the column just past the literal and `length` its number of digits.
#[derive(Debug, Clone, Copy, PartialEq, Eq)]
pub struct LexError {
    pub line_number: i32,
    pub col: i32,
    pub length: i32,
}

/// Mathematical model of a [`LexError`].
pub struct LexErrorView {
    pub line: int,
    pub col: int,
    pub length: int,
}

impl View for LexError {
    type V = LexErrorView;

    open spec fn view(&self) -> LexErrorView {
        LexErrorView {
            line: self.line_number as int,
            col: self.col as int,
            length: self.length as int,
        }
    }
}

/// Puts `first` in front of the tokens of `rest`; a failure stays a failure.
pub open spec fn emit(first: TokenView, rest: Result<Scanned, LexErrorView>) -> Result<
    Scanned,
    LexErrorView,
> {
    match rest {
        Ok(scanned) => Ok(Scanned { tokens: seq![first] + scanned.tokens, ..scanned }),
        Err(overflow) => Err(overflow),
    }
}

/// The tokens of `s`, scanned with the counters at `line` and `col`.
///
/// At the front of `s`, in this order of priority:
/// a digit starts an integer literal that takes the longest run of digits;
/// a letter or `_` starts a word that takes the longest run of letters, digits
/// and `_`; a line feed starts a new line; one of `+ * / - ( ) ;` is a token
/// of its own and leaves the column where it is; any other character moves
/// the column one to the right.
///
/// A literal or a word moves the column past itself before its token is
/// recorded, so such a token carries the column just behind its last
/// character. A line feed raises the line, puts the column back to zero and
/// adds nothing to it: a later line starts at column zero, whereas the first
/// line starts at column one. A single-character token that opens a later
/// line therefore has column zero. The first literal that exceeds `i64::MAX`
/// ends the scan.
pub open spec fn scan(s: Seq<char>, line: int, col: int) -> Result<Scanned, LexErrorView>
    decreases s.len(),
{
    if s.len() == 0 {
        Ok(Scanned { tokens: Seq::empty(), line, col })
    } else if is_digit(s[0]) {
        let n = digit_run(s);
        let value = digits_value(s.take(n as int));
        proof {
            lemma_digit_run_bound(s);
        }
        if value > i64::MAX {
            Err(LexErrorView { line, col: col + n, length: n as int })
        } else {
            emit(
                TokenView {
                    kind: KindView::IntLiteral(value as i64),
                    line,
                    col: col + n,
                    length: n as int,
                },
                scan(s.skip(n as int), line, col + n),
            )
        }
    } else if starts_word(s[0]) {
        let n = word_run(s);
        proof {
            lemma_word_run_bound(s);
        }
        emit(
            TokenView { kind: word_kind(s.take(n as int)), line, col: col + n, length: n as int },
            scan(s.skip(n as int), line, col + n),
        )
    } else if s[0] == '\n' {
        scan(s.skip(1), line + 1, 0)
    } else {
        match punctuation(s[0]) {
            Some(kind) => emit(
                TokenView { kind, line, col, length: 1 },
                scan(s.skip(1), line, col),
            ),
            None => scan(s.skip(1), line, col + 1),
        }
    }
}

/// The tokens of a whole source text: a scan that starts at line one,
/// column one.
pub open spec fn scan_source(source: Seq<char>) -> Result<Scanned, LexErrorView> {
    scan(source, 1, 1)
}

/// The model of what [`Lexer::tokenize`] returns.
pub open spec fn scan_view(result: Result<(Vec<Token>, i32, i32), LexError>) -> Result<
    Scanned,
    LexErrorView,
> {
    match result {
        Ok((tokens, line, col)) => Ok(
            Scanned { tokens: tokens.deep_view(), line: line as int, col: col as int },
        ),
        Err(overflow) => Err(overflow@),
    }
}

/// Puts the tokens `done` in front of those of `rest`.
spec fn emit_all(done: Seq<TokenView>, rest: Result<Scanned, LexErrorView>) -> Result<
    Scanned,
    LexErrorView,
> {
    match rest {
        Ok(scanned) => Ok(Scanned { tokens: done + scanned.tokens, ..scanned }),
        Err(overflow) => Err(overflow),
    }
}

proof fn lemma_emit_all_step(
    done: Seq<TokenView>,
    token: TokenView,
    rest: Result<Scanned, LexErrorView>,
)
    ensures
        emit_all(done, emit(token, rest)) == emit_all(done.push(token), rest),
{
    if let Ok(scanned) = rest {
        assert(done + (seq![token] + scanned.tokens) == done.push(token) + scanned.tokens);
    }
}

/// The keyword that a word spells, if any.
fn find_keyword(ident: &String) -> (keyword: Option<TokenKind>)
    ensures
        match keyword {
            Some(kind) => kind@ == word_kind(ident@) && kind@ == KindView::KwPrint,
            None => word_kind(ident@) == KindView::Identifier(ident@),
        },
{
    proof {
        reveal_strlit("print");
        assert("print"@ == seq!['p', 'r', 'i', 'n', 't']);
    }
    let print = String::from_str("print");
    if *ident == print {
        Some(TokenKind::KwPrint)
    } else {
        None
    }
}

/// A scanner over the characters of one source text.
pub struct Lexer {
    chars: Vec<char>,
    pos: usize,
}

impl Lexer {
    #[verifier::type_invariant]
    spec fn inv(&self) -> bool {
        self.pos <= self.chars.len() < i32::MAX
    }

    /// The characters that have not been scanned yet.
    pub closed spec fn remaining(&self) -> Seq<char> {
        self.chars@.skip(self.pos as int)
    }

    /// A lexer at the start of `source`. Lines and columns are counted in
    /// `i32`, which bounds the length of the text.
    pub fn new(source: &str) -> (lexer: Self)
        requires
            source@.len() < i32::MAX,
        ensures
            lexer.remaining() == source@,
    {
        Self { chars: chars_of(source), pos: 0 }
    }

    /// Scans all that remains. Afterwards nothing remains, whether the scan
    /// succeeded or stopped at a literal that is too large.
    pub fn tokenize(&mut self) -> (result: Result<(Vec<Token>, i32, i32), LexError>)
        ensures
            scan_view(result) == scan_source(old(self).remaining()),
            final(self).remaining().len() == 0,
    {
        proof {
            use_type_invariant(&*self);
        }
        let mut tokens: Vec<Token> = Vec::new();
        let mut line_number: i32 = 1;
        let mut col: i32 = 1;
        while self.pos < self.chars.len()
            invariant
                self.pos <= self.chars.len() < i32::MAX,
                self.chars == old(self).chars,
                1 <= line_number <= 1 + self.pos,
                0 <= col <= 1 + self.pos,
                scan_source(old(self).remaining()) == emit_all(
                    tokens.deep_view(),
                    scan(self.remaining(), line_number as int, col as int),
                ),
            decreases self.chars.len() - self.pos,
        {
            let ghost here = self.remaining();
            let ghost done = tokens.deep_view();
            let c = self.chars[self.pos];
            self.pos += 1;
            assert(here.skip(1) == self.remaining());

            if is_digit(c) {
                let (value, length) = self.build_int(c);
                proof {
                    use_type_invariant(&*self);
                    lemma_digit_run_bound(here.skip(1));
                    assert(here.take(length as int) == seq![c] + here.skip(1).take(length - 1));
                    assert(here.skip(length as int) == here.skip(1).skip(length - 1));
                }
                col += length;
                match value {
                    Some(value) => {
                        let token = Token::new(
                            TokenKind::IntLiteral(value),
                            line_number,
                            col,
                            length,
                        );
                        proof {
                            lemma_emit_all_step(
                                done,
                                token@,
                                scan(self.remaining(), line_number as int, col as int),
                            );
                        }
                        tokens.push(token);
                        assert(tokens.deep_view() == done.push(token@));
                    },
                    None => {
                        self.pos = self.chars.len();
                        return Err(LexError { line_number, col, length });
                    },
                }
                continue ;
            }
            if starts_word(c) {
                let start = self.pos;
                let ident = self.build_ident(c);
                proof {
                    use_type_invariant(&*self);
                    assert(here.take(ident@.len() as int) == ident@);
                    assert(here.skip(ident@.len() as int) == here.skip(1).skip(
                        ident@.len() - 1,
                    ));
                }
                let len = (self.pos - start + 1) as i32;
                col += len;
                let token = match find_keyword(&ident) {
                    Some(keyword) => Token::new(keyword, line_number, col, len),
                    None => Token::new(TokenKind::Identifier(ident), line_number, col, len),
                };
                proof {
                    lemma_emit_all_step(
                        done,
                        token@,
                        scan(self.remaining(), line_number as int, col as int),
                    );
                }
                tokens.push(token);
                assert(tokens.deep_view() == done.push(token@));
                continue ;
            }
            if c == '\n' {
                line_number += 1;
                col = 0;
                continue ;
            }
            let kind = match c {
                '+' => TokenKind::Plus,
                '*' => TokenKind::Times,
                '/' => TokenKind::Divide,
                '-' => TokenKind::Subtract,
                '(' => TokenKind::LParen,
                ')' => TokenKind::RParen,
                ';' => TokenKind::Semicolon,
                _ => {
                    col += 1;
                    continue ;
                },
            };
            let token = Token::new(kind, line_number, col, 1);
            proof {
                lemma_emit_all_step(
                    done,
                    token@,
                    scan(self.remaining(), line_number as int, col as int),
                );
            }
            tokens.push(token);
            assert(tokens.deep_view() == done.push(token@));
        }
        Ok((tokens, line_number, col))
    }

    /// Consumes the digits that follow `first_digit`. Returns the value of
    /// the whole literal, or `None` when it exceeds `i64::MAX`, and the number
    /// of its digits.
    fn build_int(&mut self, first_digit: char) -> (literal: (Option<i64>, i32))
        requires
            is_digit(first_digit),
            old(self).pos >= 1,
        ensures
            final(self).chars == old(self).chars,
            literal.1 == 1 + digit_run(old(self).remaining()),
            final(self).remaining() == old(self).remaining().skip(literal.1 - 1),
            ({
                let digits = seq![first_digit] + old(self).remaining().take(literal.1 - 1);
                literal.0 == if digits_value(digits) <= i64::MAX {
                    Some(digits_value(digits) as i64)
                } else {
                    None
                }
            }),
    {
        proof {
            use_type_invariant(&*self);
        }
        let ghost rest = self.remaining();
        let start = self.pos;
        let mut value: Option<i64> = Some(digit_value(first_digit));
        assert(seq![first_digit].drop_last() == Seq::<char>::empty());
        assert(digits_value(Seq::<char>::empty()) == 0);
        while self.pos < self.chars.len() && is_digit(self.chars[self.pos])
            invariant
                1 <= start <= self.pos <= self.chars.len() < i32::MAX,
                self.chars == old(self).chars,
                rest == self.chars@.skip(start as int),
                forall|i: int| 0 <= i < self.pos - start ==> is_digit(#[trigger] rest[i]),
                is_digit(first_digit),
                ({
                    let digits = seq![first_digit] + rest.take(self.pos - start);
                    value == if digits_value(digits) <= i64::MAX {
                        Some(digits_value(digits) as i64)
                    } else {
                        None
                    }
                }),
            decreases self.chars.len() - self.pos,
        {
            let ghost before = seq![first_digit] + rest.take(self.pos - start);
            let digit = digit_value(self.chars[self.pos]);
            value =
            match value {
                Some(v) => match v.checked_mul(10) {
                    Some(tens) => tens.checked_add(digit),
                    None => None,
                },
                None => None,
            };
            self.pos += 1;
            proof {
                let after = seq![first_digit] + rest.take(self.pos - start);
                assert(after.drop_last() == before);
            }
        }
        proof {
            lemma_digit_run_is(rest, self.pos - start);
        }
        (value, (self.pos - start + 1) as i32)
    }

    /// Consumes the word characters that follow `first_letter` and returns
    /// the whole word.
    fn build_ident(&mut self, first_letter: char) -> (word: String)
        requires
            old(self).pos >= 1,
        ensures
            final(self).chars == old(self).chars,
            final(self).pos == old(self).pos + word_run(old(self).remaining()),
            word@ == seq![first_letter] + old(self).remaining().take(
                word_run(old(self).remaining()) as int,
            ),
            final(self).remaining() == old(self).remaining().skip(
                word_run(old(self).remaining()) as int,
            ),
    {
        proof {
            use_type_invariant(&*self);
        }
        let ghost rest = self.remaining();
        let start = self.pos;
        let mut word = String::new();
        word.push(first_letter);
        while self.pos < self.chars.len() && continues_word(self.chars[self.pos])
            invariant
                1 <= start <= self.pos <= self.chars.len() < i32::MAX,
                self.chars == old(self).chars,
                rest == self.chars@.skip(start as int),
                forall|i: int| 0 <= i < self.pos - start ==> continues_word(#[trigger] rest[i]),
                word@ == seq![first_letter] + rest.take(self.pos - start),
            decreases self.chars.len() - self.pos,
        {
            word.push(self.chars[self.pos]);
            self.pos += 1;
        }
        proof {
            lemma_word_run_is(rest, self.pos - start);
        }
        word
    }
}

} // verus!
