//! Structured errors: what went wrong, and where.

use vstd::prelude::*;

verus! {

/// The kind of parsing context that was still open when the input ended;
/// used for diagnostics in [`ParseErrorKind::UnterminatedStructure`].
#[derive(Debug, Clone, PartialEq, Eq)]
pub enum CtxKind {
    Root,
    Object,
    ObjectField,
    Array,
    StringText,
    NumberText,
    LiteralWord,
}

/// What a parse rejected.
#[derive(Debug, PartialEq)]
pub enum ParseErrorKind {
    /// A character with no meaning in the current context; carries that
    /// character.
    UnexpectedCharacter(char),
    /// The input ended while contexts were still open; carries the kinds of
    /// the contexts that were open, outermost first.
    UnterminatedStructure(Vec<CtxKind>),
    /// A malformed escape sequence in a string literal; carries the character
    /// at which the escape went wrong.
    InvalidEscape(char),
    /// An integer literal that does not fit a signed 64-bit value.
    NumberOverflow,
    /// A non-whitespace character after the root value was complete; carries
    /// that character.
    TrailingContent(char),
}

/// A parse error with its position.  `offset` counts characters from the
/// start of the input; `line` and `column` are 1-based, with a line break at
/// every `'\n'`.
#[derive(Debug, PartialEq)]
pub struct ParseError {
    pub kind: ParseErrorKind,
    pub offset: usize,
    pub line: usize,
    pub column: usize,
}

/// The shape of a value, as named in decode errors.
#[derive(Debug, Clone, Copy, PartialEq, Eq)]
pub enum ShapeKind {
    Unknown,
    Null,
    Bool,
    Number,
    Text,
    Array,
    Object,
}

/// A mismatch between the shape a decode asked for and the shape the value
/// tree has.  `element` is the index of the offending element or member when
/// the mismatch sits inside an array or object projection; `None` when the
/// projected value itself has the wrong shape.
#[derive(Debug, Clone, Copy, PartialEq, Eq)]
pub struct DecodeError {
    pub expected: ShapeKind,
    pub found: ShapeKind,
    pub element: Option<usize>,
}

/// The line a character offset falls on: one plus the number of line feeds
/// before it.
pub open spec fn spec_line_at(s: Seq<char>, n: int) -> int
    decreases n,
{
    if n <= 0 {
        1
    } else {
        spec_line_at(s, n - 1) + if s[n - 1] == '\n' {
            1int
        } else {
            0int
        }
    }
}

/// The column a character offset falls on: one plus the number of characters
/// since the last line feed.
pub open spec fn spec_col_at(s: Seq<char>, n: int) -> int
    decreases n,
{
    if n <= 0 {
        1
    } else if s[n - 1] == '\n' {
        1
    } else {
        spec_col_at(s, n - 1) + 1
    }
}

} // verus!
