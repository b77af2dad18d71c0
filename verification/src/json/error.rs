//! The errors of parsing, decoding and encoding.

use vstd::prelude::*;
use vstd::std_specs::cmp::PartialEqSpecImpl;
use vstd::std_specs::convert::FromSpecImpl;

verus! {

/// The errors that can arise while parsing a JSON stream.
#[derive(Clone, Copy, PartialEq, Eq, Debug, Structural)]
pub enum ErrorCode {
    InvalidSyntax,
    InvalidNumber,
    EOFWhileParsingObject,
    EOFWhileParsingArray,
    EOFWhileParsingValue,
    EOFWhileParsingString,
    KeyMustBeAString,
    ExpectedColon,
    TrailingCharacters,
    TrailingComma,
    InvalidEscape,
    InvalidUnicodeCodePoint,
    LoneLeadingSurrogateInHexEscape,
    UnexpectedEndOfHexEscape,
    UnrecognizedHex,
    NotFourDigit,
    ControlCharacterInString,
    NotUtf8,
}

/// What went wrong while reading a document.
#[derive(Clone, Copy, Debug)]
pub enum ParserError {
    /// The code of the error, and the line and column of the character at
    /// which it was found, both counted from one.
    SyntaxError(ErrorCode, usize, usize),
    /// The source of the text could not be read.
    IoError,
}

impl PartialEq for ParserError {
    /// Two syntax errors are equal when code, line and column agree; a
    /// failure to read the source is equal to nothing, not even to itself.
    fn eq(&self, other: &ParserError) -> (r: bool) {
        match (self, other) {
            (ParserError::SyntaxError(c0, l0, k0), ParserError::SyntaxError(c1, l1, k1)) => {
                *c0 == *c1 && *l0 == *l1 && *k0 == *k1
            },
            (_, _) => false,
        }
    }
}

impl PartialEqSpecImpl for ParserError {
    open spec fn obeys_eq_spec() -> bool {
        true
    }

    open spec fn eq_spec(&self, other: &ParserError) -> bool {
        match (*self, *other) {
            (ParserError::SyntaxError(c0, l0, k0), ParserError::SyntaxError(c1, l1, k1)) => {
                c0 == c1 && l0 == l1 && k0 == k1
            },
            (_, _) => false,
        }
    }
}

/// The text that describes an error code.
pub open spec fn error_text(error: ErrorCode) -> Seq<char> {
    match error {
        ErrorCode::InvalidSyntax => "invalid syntax"@,
        ErrorCode::InvalidNumber => "invalid number"@,
        ErrorCode::EOFWhileParsingObject => "EOF While parsing object"@,
        ErrorCode::EOFWhileParsingArray => "EOF While parsing array"@,
        ErrorCode::EOFWhileParsingValue => "EOF While parsing value"@,
        ErrorCode::EOFWhileParsingString => "EOF While parsing string"@,
        ErrorCode::KeyMustBeAString => "key must be a string"@,
        ErrorCode::ExpectedColon => "expected `:`"@,
        ErrorCode::TrailingCharacters => "trailing characters"@,
        ErrorCode::TrailingComma => "trailing comma"@,
        ErrorCode::InvalidEscape => "invalid escape"@,
        ErrorCode::UnrecognizedHex => "invalid \\u{ esc}ape (unrecognized hex)"@,
        ErrorCode::NotFourDigit => "invalid \\u{ esc}ape (not four digits)"@,
        ErrorCode::ControlCharacterInString => "unescaped control character in string"@,
        ErrorCode::NotUtf8 => "contents not utf-8"@,
        ErrorCode::InvalidUnicodeCodePoint => "invalid Unicode code point"@,
        ErrorCode::LoneLeadingSurrogateInHexEscape => "lone leading surrogate in hex escape"@,
        ErrorCode::UnexpectedEndOfHexEscape => "unexpected end of hex escape"@,
    }
}

/// Returns a readable error string for a given error code.
pub fn error_str(error: ErrorCode) -> (r: &'static str)
    ensures
        r@ == error_text(error),
{
    match error {
        ErrorCode::InvalidSyntax => "invalid syntax",
        ErrorCode::InvalidNumber => "invalid number",
        ErrorCode::EOFWhileParsingObject => "EOF While parsing object",
        ErrorCode::EOFWhileParsingArray => "EOF While parsing array",
        ErrorCode::EOFWhileParsingValue => "EOF While parsing value",
        ErrorCode::EOFWhileParsingString => "EOF While parsing string",
        ErrorCode::KeyMustBeAString => "key must be a string",
        ErrorCode::ExpectedColon => "expected `:`",
        ErrorCode::TrailingCharacters => "trailing characters",
        ErrorCode::TrailingComma => "trailing comma",
        ErrorCode::InvalidEscape => "invalid escape",
        ErrorCode::UnrecognizedHex => "invalid \\u{ esc}ape (unrecognized hex)",
        ErrorCode::NotFourDigit => "invalid \\u{ esc}ape (not four digits)",
        ErrorCode::ControlCharacterInString => "unescaped control character in string",
        ErrorCode::NotUtf8 => "contents not utf-8",
        ErrorCode::InvalidUnicodeCodePoint => "invalid Unicode code point",
        ErrorCode::LoneLeadingSurrogateInHexEscape => "lone leading surrogate in hex escape",
        ErrorCode::UnexpectedEndOfHexEscape => "unexpected end of hex escape",
    }
}

/// What went wrong while a typed value was read out of a document.
#[derive(PartialEq, Debug)]
pub enum DecoderError {
    /// The text was no document.
    ParseError(ParserError),
    /// A value of the first kind was expected where the second was found.
    ExpectedError(String, String),
    /// An object lacks the field of this name.
    MissingFieldError(String),
    /// No variant of the enum has this name.
    UnknownVariantError(String),
    /// An error raised by the type that is being decoded.
    ApplicationError(String),
    /// A value was asked for after the last one had been read.
    EOF,
}

/// The mathematical value of a [`DecoderError`]: its strings as sequences.
pub enum DecoderErrorView {
    ParseError(ParserError),
    ExpectedError(Seq<char>, Seq<char>),
    MissingFieldError(Seq<char>),
    UnknownVariantError(Seq<char>),
    ApplicationError(Seq<char>),
    EOF,
}

impl View for DecoderError {
    type V = DecoderErrorView;

    open spec fn view(&self) -> DecoderErrorView {
        match self {
            DecoderError::ParseError(e) => DecoderErrorView::ParseError(*e),
            DecoderError::ExpectedError(a, b) => DecoderErrorView::ExpectedError(a@, b@),
            DecoderError::MissingFieldError(s) => DecoderErrorView::MissingFieldError(s@),
            DecoderError::UnknownVariantError(s) => DecoderErrorView::UnknownVariantError(s@),
            DecoderError::ApplicationError(s) => DecoderErrorView::ApplicationError(s@),
            DecoderError::EOF => DecoderErrorView::EOF,
        }
    }
}

impl From<ParserError> for DecoderError {
    fn from(err: ParserError) -> (r: DecoderError) {
        DecoderError::ParseError(err)
    }
}

impl FromSpecImpl<ParserError> for DecoderError {
    open spec fn obeys_from_spec() -> bool {
        true
    }

    open spec fn from_spec(err: ParserError) -> DecoderError {
        DecoderError::ParseError(err)
    }
}

/// What went wrong while a value was written as text.
#[derive(Clone, Copy, PartialEq, Eq, Debug, Structural)]
pub enum EncoderError {
    /// The writer refused the text.
    FmtError,
    /// The key of a map is neither a number nor a string nor a bare variant.
    BadHashmapKey,
}

} // verus!
