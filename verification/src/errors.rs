//! The kinds of failure that lexing, parsing and building can report.

use vstd::prelude::*;

verus! {

/// Why a stream of lexemes, events or values ended before its time.
#[derive(Debug, Clone, Copy, PartialEq, Eq, Structural)]
pub enum Error {
    /// The input ended inside a string literal.
    Unterminated,
    /// The byte source failed; the payload is the code it reported.
    IO(i32),
    /// Bytes that form no lexeme: a stray byte or the byte at which a
    /// keyword breaks off, which is held, or a malformed number or a keyword
    /// cut short by the end of the input, where nothing is held.
    Unknown(Option<u8>),
    /// A lexeme that the grammar does not allow at this point.
    Unexpected,
    /// The text of a string literal is not valid UTF-8.
    Utf8,
    /// A malformed escape sequence inside a string literal. A letter that
    /// names no escape is held; bad hexadecimal digits, a surrogate and an
    /// escape cut short by the end of the input hold nothing.
    Escape(Option<u8>),
    /// The input ended while the grammar still required lexemes.
    MoreLexemes,
    /// A closing bracket or brace that matches no open container.
    Unmatched,
    /// Data follows the complete top-level value.
    AdditionalData,
}

impl Error {
    /// The text that `description` returns for each kind.
    pub open spec fn spec_description(self) -> Seq<char> {
        match self {
            Error::Unterminated => "unterminated string"@,
            Error::IO(_) => "i/o failure"@,
            Error::Unknown(_) => "unknown lexeme"@,
            Error::Unexpected => "unexpected lexeme"@,
            Error::Utf8 => "invalid utf-8"@,
            Error::Escape(_) => "malformed escape"@,
            Error::MoreLexemes => "more lexemes expected"@,
            Error::Unmatched => "unmatched container terminator"@,
            Error::AdditionalData => "additional data"@,
        }
    }

    /// A short, fixed description of the kind of failure.
    pub fn description(&self) -> (text: &'static str)
        ensures
            text@ == self.spec_description(),
    {
        match self {
            Error::Unterminated => "unterminated string",
            Error::IO(_) => "i/o failure",
            Error::Unknown(_) => "unknown lexeme",
            Error::Unexpected => "unexpected lexeme",
            Error::Utf8 => "invalid utf-8",
            Error::Escape(_) => "malformed escape",
            Error::MoreLexemes => "more lexemes expected",
            Error::Unmatched => "unmatched container terminator",
            Error::AdditionalData => "additional data",
        }
    }
}

} // verus!
