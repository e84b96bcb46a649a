//! What can be wrong with a text, and where.

use vstd::prelude::*;

verus! {

/// The ways in which a text can fail to denote a value.
#[derive(Clone, Copy, Debug, PartialEq, Eq, Structural)]
pub enum ErrorKind {
    /// The text holds no value: nothing at all, or separators only.
    EmptyInput,
    /// A string has no closing quote.
    UnterminatedString,
    /// A collection has no closing delimiter.
    UnterminatedCollection,
    /// A closing delimiter stands where no collection of its kind is open.
    UnexpectedClose,
    /// A character that begins nothing the notation knows.
    UnrecognizedCharacter,
    /// A backslash followed by nothing, or by a name that is no character's.
    InvalidCharacter,
    /// A symbol or keyword with an empty part, with a part that begins with a
    /// digit, or with more than one slash.
    InvalidIdentifier,
    /// A number with something behind it that belongs to no number.
    InvalidNumber,
    /// `N` behind a number with a fraction or an exponent.
    InvalidSuffix,
    /// A power of ten that does not fit in 64 bits.
    ExponentOutOfRange,
    /// A map with a key that has no value.
    OddMapElements,
    /// Something follows the value.
    TrailingInput,
}

impl ErrorKind {
    /// A few words on what is wrong.
    pub open spec fn description(self) -> Seq<char> {
        match self {
            ErrorKind::EmptyInput => "no value in the input"@,
            ErrorKind::UnterminatedString => "unterminated string"@,
            ErrorKind::UnterminatedCollection => "unterminated collection"@,
            ErrorKind::UnexpectedClose => "unexpected closing delimiter"@,
            ErrorKind::UnrecognizedCharacter => "unrecognized character"@,
            ErrorKind::InvalidCharacter => "invalid character literal"@,
            ErrorKind::InvalidIdentifier => "invalid symbol or keyword"@,
            ErrorKind::InvalidNumber => "invalid number"@,
            ErrorKind::InvalidSuffix => "suffix N on a number that is no integer"@,
            ErrorKind::ExponentOutOfRange => "exponent out of range"@,
            ErrorKind::OddMapElements => "map with an odd number of elements"@,
            ErrorKind::TrailingInput => "input after the value"@,
        }
    }

    /// A few words on what is wrong.
    pub fn describe(self) -> (r: &'static str)
        ensures
            r@ == self.description(),
    {
        match self {
            ErrorKind::EmptyInput => "no value in the input",
            ErrorKind::UnterminatedString => "unterminated string",
            ErrorKind::UnterminatedCollection => "unterminated collection",
            ErrorKind::UnexpectedClose => "unexpected closing delimiter",
            ErrorKind::UnrecognizedCharacter => "unrecognized character",
            ErrorKind::InvalidCharacter => "invalid character literal",
            ErrorKind::InvalidIdentifier => "invalid symbol or keyword",
            ErrorKind::InvalidNumber => "invalid number",
            ErrorKind::InvalidSuffix => "suffix N on a number that is no integer",
            ErrorKind::ExponentOutOfRange => "exponent out of range",
            ErrorKind::OddMapElements => "map with an odd number of elements",
            ErrorKind::TrailingInput => "input after the value",
        }
    }
}

/// The number of line ends among the first `offset` characters.
pub open spec fn lines_before(s: Seq<char>, offset: int) -> nat
    decreases offset,
{
    if offset <= 0 || offset > s.len() {
        0
    } else if s[offset - 1] == '\n' {
        lines_before(s, offset - 1) + 1
    } else {
        lines_before(s, offset - 1)
    }
}

/// The index behind the last line end among the first `offset` characters:
/// where the line of `offset` begins.
pub open spec fn line_start(s: Seq<char>, offset: int) -> int
    decreases offset,
{
    if offset <= 0 || offset > s.len() {
        0
    } else if s[offset - 1] == '\n' {
        offset
    } else {
        line_start(s, offset - 1)
    }
}

/// Why a text was refused, and where: `offset` counts the characters in front
/// of the place, `line` the line ends in front of it, and `column` the
/// characters in front of it on its line.
#[derive(Clone, Copy, Debug, PartialEq, Eq)]
pub struct ParseError {
    pub kind: ErrorKind,
    pub offset: usize,
    pub line: usize,
    pub column: usize,
}

impl ParseError {
    /// Whether the error is of the given kind at the given offset of the text `s`.
    pub open spec fn is_at(self, s: Seq<char>, kind: ErrorKind, offset: int) -> bool {
        &&& self.kind == kind
        &&& self.offset == offset
        &&& self.line == lines_before(s, offset)
        &&& self.column == offset - line_start(s, offset)
    }

    /// The error of the given kind at `offset` in `chars`.
    pub fn locate(chars: &Vec<char>, kind: ErrorKind, offset: usize) -> (r: ParseError)
        requires
            offset <= chars.len(),
        ensures
            r.is_at(chars@, kind, offset as int),
    {
        let mut line: usize = 0;
        let mut start: usize = 0;
        let mut i: usize = 0;
        while i < offset
            invariant
                i <= offset <= chars.len(),
                line == lines_before(chars@, i as int),
                start == line_start(chars@, i as int),
                start <= i,
                line <= i,
            decreases offset - i,
        {
            if chars[i] == '\n' {
                line += 1;
                start = i + 1;
            }
            i += 1;
        }
        ParseError { kind, offset, line, column: offset - start }
    }

    /// A few words on what is wrong.
    pub fn message(&self) -> (r: String)
        ensures
            r@ == self.kind.description(),
    {
        String::from_str(self.kind.describe())
    }
}

} // verus!
