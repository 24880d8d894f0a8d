//! Diagnostics: what went wrong, where, and how it is shown.

use crate::lexing::{kind_text, KindView, Token, TokenKind, TokenView};
use crate::text::{decimal, push_decimal, push_repeated, repeated};
use vstd::prelude::*;

verus! {

/// What went wrong.
#[derive(Debug, PartialEq, Eq)]
pub enum ErrorKind {
    /// A token that the grammar does not allow where it stands.
    UnexpectedToken { provided: TokenKind, token_length: i32 },
    /// A division whose divisor is zero.
    ZeroDivision,
    /// An integer literal that does not fit in 64 signed bits.
    LiteralOverflow { token_length: i32 },
}

/// Mathematical model of an [`ErrorKind`].
pub enum ErrorKindView {
    UnexpectedToken { provided: KindView, token_length: int },
    ZeroDivision,
    LiteralOverflow { token_length: int },
}

impl View for ErrorKind {
    type V = ErrorKindView;

    open spec fn view(&self) -> ErrorKindView {
        match self {
            ErrorKind::UnexpectedToken { provided, token_length } => {
                ErrorKindView::UnexpectedToken {
                    provided: provided@,
                    token_length: *token_length as int,
                }
            },
            ErrorKind::ZeroDivision => ErrorKindView::ZeroDivision,
            ErrorKind::LiteralOverflow { token_length } => ErrorKindView::LiteralOverflow {
                token_length: *token_length as int,
            },
        }
    }
}

impl Clone for ErrorKind {
    fn clone(&self) -> (copy: Self)
        ensures
            copy == *self,
    {
        match self {
            ErrorKind::UnexpectedToken { provided, token_length } => ErrorKind::UnexpectedToken {
                provided: provided.clone(),
                token_length: *token_length,
            },
            ErrorKind::ZeroDivision => ErrorKind::ZeroDivision,
            ErrorKind::LiteralOverflow { token_length } => ErrorKind::LiteralOverflow {
                token_length: *token_length,
            },
        }
    }
}

/// One failure, with the name of the source it was found in and the line
/// and column it is reported at.
#[derive(Debug, PartialEq, Eq)]
pub struct Error {
    filename: String,
    kind: ErrorKind,
    pub line: i32,
    col: i32,
}

/// Mathematical model of an [`Error`].
pub struct ErrorView {
    pub filename: Seq<char>,
    pub kind: ErrorKindView,
    pub line: int,
    pub col: int,
}

impl View for Error {
    type V = ErrorView;

    closed spec fn view(&self) -> ErrorView {
        ErrorView {
            filename: self.filename@,
            kind: self.kind@,
            line: self.line as int,
            col: self.col as int,
        }
    }
}

/// The diagnostic for a token that may not stand where it was found: it
/// carries the token's kind and length and points at the token's line and
/// column.
pub open spec fn unexpected(filename: Seq<char>, token: TokenView) -> ErrorView {
    ErrorView {
        filename,
        kind: ErrorKindView::UnexpectedToken { provided: token.kind, token_length: token.length },
        line: token.line,
        col: token.col,
    }
}

/// The diagnostic for an integer literal of `length` digits that ends just
/// before column `col` of line `line` and is too large.
pub open spec fn overflowing(filename: Seq<char>, line: int, col: int, length: int) -> ErrorView {
    ErrorView {
        filename,
        kind: ErrorKindView::LiteralOverflow { token_length: length },
        line,
        col,
    }
}

/// The length of the token that a diagnostic points at; none for a division
/// by zero.
pub open spec fn marked_length(kind: ErrorKindView) -> int {
    match kind {
        ErrorKindView::UnexpectedToken { token_length, .. } => token_length,
        ErrorKindView::LiteralOverflow { token_length } => token_length,
        ErrorKindView::ZeroDivision => 0,
    }
}

/// A run of `length` carets whose last caret stands in column `col`, the
/// first column being one: it is padded with blanks on the left up to a
/// width of `col`. A run longer than `col` starts in the first column, and a
/// length below one gives no caret.
pub open spec fn caret_run(col: int, length: int) -> Seq<char> {
    let carets = if length > 0 {
        length
    } else {
        0
    };
    repeated(' ', col - carets) + repeated('^', carets)
}

/// What the first line of a rendered diagnostic says before it names the
/// source.
pub open spec fn summary(kind: ErrorKindView) -> Seq<char> {
    match kind {
        ErrorKindView::UnexpectedToken { provided, .. } => "unexpected token '"@ + kind_text(
            provided,
        ) + "'"@,
        ErrorKindView::LiteralOverflow { .. } => "integer literal out of range"@,
        ErrorKindView::ZeroDivision => "Can't divide by zero lmao"@,
    }
}

/// The rendered diagnostic.
///
/// A division by zero is its summary alone. Any other diagnostic has four
/// lines, separated by line feeds: the summary with source name, line and
/// column; an empty gutter; the line number and the source line; and the
/// caret run under the source line. The gutter is as wide as the line
/// number's decimal numeral.
pub open spec fn rendered(error: ErrorView, source_line: Seq<char>) -> Seq<char> {
    if error.kind is ZeroDivision {
        summary(error.kind)
    } else {
        let number = decimal(error.line);
        let gutter = repeated(' ', number.len() as int);
        summary(error.kind) + " in '"@ + error.filename + "' at line "@ + number + ", column "@
            + decimal(error.col) + "\n"@ + gutter + " |"@ + "\n"@ + number + " | "@ + source_line
            + "\n"@ + gutter + " | "@ + caret_run(error.col, marked_length(error.kind))
    }
}

/// The one-line description of a diagnostic.
pub open spec fn described(kind: ErrorKindView) -> Seq<char> {
    match kind {
        ErrorKindView::UnexpectedToken { provided, token_length } => "Unexpected token "@
            + kind_text(provided) + " of length "@ + decimal(token_length) + " found."@,
        ErrorKindView::LiteralOverflow { token_length } => "Integer literal of length "@ + decimal(
            token_length,
        ) + " is out of range."@,
        ErrorKindView::ZeroDivision => "Cannot divide by zero"@,
    }
}

impl Error {
    /// The diagnostic for `provided`, a token that may not stand where it was
    /// found in `filename`.
    pub fn wrong_token(filename: String, provided: Token) -> (error: Self)
        ensures
            error@ == unexpected(filename@, provided@),
    {
        Self {
            filename,
            kind: ErrorKind::UnexpectedToken {
                provided: provided.kind,
                token_length: provided.length,
            },
            line: provided.line_number,
            col: provided.col,
        }
    }

    /// The diagnostic for an integer literal in `filename` that is too large.
    pub fn literal_overflow(filename: String, line: i32, col: i32, length: i32) -> (error: Self)
        ensures
            error@ == overflowing(filename@, line as int, col as int, length as int),
    {
        Self { filename, kind: ErrorKind::LiteralOverflow { token_length: length }, line, col }
    }

    /// The diagnostic for a division by zero in `filename`.
    pub fn zero_division(filename: String, line: i32, col: i32) -> (error: Self)
        ensures
            error@ == (ErrorView {
                filename: filename@,
                kind: ErrorKindView::ZeroDivision,
                line: line as int,
                col: col as int,
            }),
    {
        Self { filename, kind: ErrorKind::ZeroDivision, line, col }
    }

    /// The name of the source that the failure was found in.
    pub fn filename(&self) -> (name: &str)
        ensures
            name@ == self@.filename,
    {
        self.filename.as_str()
    }

    /// What went wrong.
    pub fn kind(&self) -> (kind: &ErrorKind)
        ensures
            kind@ == self@.kind,
    {
        &self.kind
    }

    /// The line that the diagnostic points at.
    pub fn line(&self) -> (line: i32)
        ensures
            line == self@.line,
    {
        self.line
    }

    /// The column that the diagnostic points at.
    pub fn col(&self) -> (col: i32)
        ensures
            col == self@.col,
    {
        self.col
    }

    /// Renders the diagnostic against `line`, the text of the source line
    /// that it points into.
    pub fn format_err(&self, line: &str) -> (message: String)
        ensures
            message@ == rendered(self@, line@),
    {
        let mut message = String::new();
        let length: i32 = match &self.kind {
            ErrorKind::UnexpectedToken { provided, token_length } => {
                message.append("unexpected token '");
                provided.write_to(&mut message);
                message.append("'");
                *token_length
            },
            ErrorKind::LiteralOverflow { token_length } => {
                message.append("integer literal out of range");
                *token_length
            },
            ErrorKind::ZeroDivision => {
                message.append("Can't divide by zero lmao");
                return message;
            },
        };
        let mut number = String::new();
        push_decimal(&mut number, self.line as i64);
        let width = number.as_str().unicode_len();

        message.append(" in '");
        message.append(self.filename.as_str());
        message.append("' at line ");
        message.append(number.as_str());
        message.append(", column ");
        push_decimal(&mut message, self.col as i64);
        message.append("\n");
        push_repeated(&mut message, ' ', width);
        message.append(" |");
        message.append("\n");
        message.append(number.as_str());
        message.append(" | ");
        message.append(line);
        message.append("\n");
        push_repeated(&mut message, ' ', width);
        message.append(" | ");
        let carets: usize = if length > 0 {
            length as usize
        } else {
            0
        };
        let pad: usize = if self.col as i64 > carets as i64 {
            (self.col as i64 - carets as i64) as usize
        } else {
            0
        };
        push_repeated(&mut message, ' ', pad);
        push_repeated(&mut message, '^', carets);
        message
    }

    /// The one-line description of the diagnostic.
    pub fn to_string(&self) -> (message: String)
        ensures
            message@ == described(self@.kind),
    {
        let mut message = String::new();
        match &self.kind {
            ErrorKind::UnexpectedToken { provided, token_length } => {
                message.append("Unexpected token ");
                provided.write_to(&mut message);
                message.append(" of length ");
                push_decimal(&mut message, *token_length as i64);
                message.append(" found.");
            },
            ErrorKind::LiteralOverflow { token_length } => {
                message.append("Integer literal of length ");
                push_decimal(&mut message, *token_length as i64);
                message.append(" is out of range.");
            },
            ErrorKind::ZeroDivision => {
                message.append("Cannot divide by zero");
            },
        }
        message
    }
}

} // verus!
