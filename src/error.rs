use vstd::prelude::*;

verus! {

/// A fatal error of the front end. Rows and lines count from 1 where they
/// come from the scanner, columns and line indexes count from 0.
#[derive(Debug, Clone, Copy, PartialEq, Eq, Structural)]
pub enum CompileError {
    /// A line indents with spaces where an earlier line used tabs, or the
    /// other way round. `line` is the index of the offending line.
    IndentationError { line: usize },
    /// A line dedents to a width that no enclosing block has. `line` is the
    /// index of the offending line among the non-empty lines.
    DedentError { line: usize },
    /// An unterminated quoted literal, or a character that starts no token.
    LexError { row: u32, col: u32 },
    /// A token of the wrong kind in a required position, or a token that
    /// starts no term; where the tokens end before a required one, the last
    /// token. `expected` is the tag (`TokenType::tag`) of the kind required
    /// there, when one kind was; `found` is the tag of the token's own kind.
    SyntaxError { row: u32, col: u32, expected: Option<u8>, found: u8 },
}

} // verus!
