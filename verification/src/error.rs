use vstd::prelude::*;
use vstd::std_specs::convert::FromSpecImpl;
use vstd::string::StringExecFns;

verus! {

/// Why a pattern was rejected.
#[derive(Debug, Clone, Copy, PartialEq, Eq, Structural)]
pub enum ParsingError {
    /// The pattern stopped where a character was still owed.
    UnexpectedEndOfInput,
    /// The named character was owed and something else was found.
    MissingCharacter(char),
    /// A backslash was followed by a character that cannot be escaped.
    InvalidEscapeSequence,
    /// The body of `{...}` is not `n`, `n,` or `n,m` with `n <= m`.
    InvalidRangeQuantifier,
    /// A bracketed class is malformed.
    InvalidCharacterClass,
    /// `(?<` was not followed by one or more ASCII letters and `>`.
    InvalidCaptureName,
    /// A class range `a-b` has `a` after `b`.
    RangeOutOfOrder,
}

impl ParsingError {
    /// The error in words.
    pub open spec fn text(self) -> Seq<char> {
        match self {
            ParsingError::UnexpectedEndOfInput => "Unexpected end of input"@,
            ParsingError::MissingCharacter(c) => "Missing "@.push(c),
            ParsingError::InvalidEscapeSequence => "Invalid escape sequence"@,
            ParsingError::InvalidRangeQuantifier => "Invalid range quantifier"@,
            ParsingError::InvalidCharacterClass => "Invalid character class"@,
            ParsingError::InvalidCaptureName => "Invalid capture name"@,
            ParsingError::RangeOutOfOrder => "Range out of order"@,
        }
    }

    /// The error in words.
    pub fn to_string(&self) -> (text: String)
        ensures
            text@ == self.text(),
    {
        match self {
            ParsingError::UnexpectedEndOfInput => String::from_str("Unexpected end of input"),
            ParsingError::MissingCharacter(c) => {
                let mut text = String::from_str("Missing ");
                text.push(*c);
                text
            },
            ParsingError::InvalidEscapeSequence => String::from_str("Invalid escape sequence"),
            ParsingError::InvalidRangeQuantifier => String::from_str("Invalid range quantifier"),
            ParsingError::InvalidCharacterClass => String::from_str("Invalid character class"),
            ParsingError::InvalidCaptureName => String::from_str("Invalid capture name"),
            ParsingError::RangeOutOfOrder => String::from_str("Range out of order"),
        }
    }
}

/// Failure of compiling a pattern.
#[derive(Debug, Clone, Copy, PartialEq, Eq, Structural)]
pub enum Error {
    ParsingError(ParsingError),
}

impl Error {
    /// The error in words: those of the parsing error.
    pub fn to_string(&self) -> (text: String)
        ensures
            text@ == (match self {
                Error::ParsingError(e) => e.text(),
            }),
    {
        match self {
            Error::ParsingError(e) => e.to_string(),
        }
    }
}

impl From<ParsingError> for Error {
    fn from(e: ParsingError) -> (err: Error) {
        Error::ParsingError(e)
    }
}

impl FromSpecImpl<ParsingError> for Error {
    open spec fn obeys_from_spec() -> bool {
        true
    }

    open spec fn from_spec(e: ParsingError) -> Error {
        Error::ParsingError(e)
    }
}

} // verus!
