//! The error model: a closed taxonomy of parse failures, each carried with the
//! 1-based line and column at the point of detection.

use vstd::prelude::*;

verus! {

/// The closed set of reasons a parse can fail.
#[derive(Debug, Clone, Copy, PartialEq, Eq, Structural)]
pub enum ErrorCode {
    UnclosedStringLiteral,
    UnclosedArray,
    UnclosedObject,
    MissingColon,
    ExpectedBool,
    NumberParsing,
    ExpectedColon,
    EndOfFile,
    ExpectedNull,
    Other,
}

/// Stores an error code and line/column information about where the error
/// occurred, for better debugging.
#[derive(Debug, Clone, Copy, PartialEq, Eq, Structural)]
pub struct JsonError {
    pub reason: ErrorCode,
    pub line: usize,
    pub col: usize,
}

impl ErrorCode {
    /// The human-readable text for each error code.
    pub open spec fn description_spec(&self) -> Seq<char> {
        match self {
            ErrorCode::UnclosedStringLiteral => "Unclosed string literal"@,
            ErrorCode::UnclosedArray => "Unclosed array bracket"@,
            ErrorCode::UnclosedObject => "Unclosed object bracket"@,
            ErrorCode::MissingColon => "Missing colon"@,
            ErrorCode::ExpectedBool => "Expected true or false"@,
            ErrorCode::NumberParsing => "Error parsing number"@,
            ErrorCode::ExpectedColon => "Expected colon"@,
            ErrorCode::EndOfFile => "End of file reached"@,
            ErrorCode::ExpectedNull => "Expected null"@,
            ErrorCode::Other => "Unknown error"@,
        }
    }

    /// A short description of the error, suitable for diagnostics.
    pub fn description(&self) -> (r: &str)
        ensures
            r@ == self.description_spec(),
    {
        match self {
            ErrorCode::UnclosedStringLiteral => "Unclosed string literal",
            ErrorCode::UnclosedArray => "Unclosed array bracket",
            ErrorCode::UnclosedObject => "Unclosed object bracket",
            ErrorCode::MissingColon => "Missing colon",
            ErrorCode::ExpectedBool => "Expected true or false",
            ErrorCode::NumberParsing => "Error parsing number",
            ErrorCode::ExpectedColon => "Expected colon",
            ErrorCode::EndOfFile => "End of file reached",
            ErrorCode::ExpectedNull => "Expected null",
            ErrorCode::Other => "Unknown error",
        }
    }
}

} // verus!
