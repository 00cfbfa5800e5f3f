use vstd::prelude::*;

verus! {

/// Why a document was rejected.
#[derive(Debug, Clone, Copy, PartialEq, Eq, Structural)]
pub enum JsonError {
    /// A character that cannot begin any token.
    UnexpectedCharacter(char),
    /// A backslash followed by a character that names no escape.
    InvalidEscape(char),
    /// Number text that is malformed or breaks the leading-zero rule.
    InvalidNumber,
    InvalidBooleanLiteral,
    InvalidNullLiteral,
    /// The input ended inside a token, or where a token was still required.
    UnexpectedEof,
    /// The document does not open with `{` or `[`.
    InvalidStart,
    /// An object key is not followed by `:`.
    MissingColon,
    /// A separator is missing, doubled, leading or trailing.
    MissingComma,
    InvalidObjectStructure,
    InvalidArrayStructure,
    /// The input ended while a container was still open.
    UnclosedStructure,
}

} // verus!
