//! The token and error types produced by the scanner.

use vstd::prelude::*;

verus! {

/// The closed set of token kinds the scanner can produce.
#[derive(Clone, Copy, Debug, PartialEq, Eq, Structural)]
pub enum TokenKind {
    /// An alphabetic character followed by a maximal run of alphanumerics.
    Identifier,
    /// A maximal digit run, with an optional `.` and further digits; a
    /// leading `.` with no integer part is allowed.
    Number,
    /// A string literal; the span excludes the surrounding quotes.
    Str,
    /// The single character `=`.
    Equal,
    /// The single character `:`.
    Colon,
    /// The terminal, zero-length token produced once the source is exhausted.
    EndOfInput,
}

/// A classified, positioned unit of lexical meaning.
///
/// The matched lexeme is not copied: it is the source text at the
/// half-open byte range `[start, end)`.
#[derive(Clone, Copy, Debug, PartialEq, Eq, Structural)]
pub struct Token {
    /// What kind of lexeme the span holds.
    pub kind: TokenKind,
    /// Byte offset of the first byte of the lexeme.
    pub start: usize,
    /// Byte offset one past the last byte of the lexeme.
    pub end: usize,
    /// 1-based line number on which the token starts.
    pub line: usize,
}

/// A failure to classify input as a valid token.
///
/// Every error carries the 1-based line number on which the offending
/// scan began.
#[derive(Clone, Copy, Debug, PartialEq, Eq, Structural)]
pub enum LexError {
    /// A byte the grammar does not recognize at a token-start position,
    /// together with the line it was found on.
    UnexpectedCharacter(u8, usize),
    /// The input (or the line) ended inside a string literal; the field
    /// is the line the string began on.
    UnterminatedString(usize),
}

} // verus!
