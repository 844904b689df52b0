use vstd::prelude::*;
use crate::report::Pos;

verus! {

/// The kinds of token that the scanner produces.
#[derive(Clone, Copy, Debug, PartialEq, Eq, Structural)]
pub enum TokenKind {
    Ident,
    IntLit,
    FloatLit,
    CharLit,
    StrLit,
    Dot,
    Comma,
    Colon,
    Dollar,
    Percent,
    At,
    Plus,
    Minus,
    LParen,
    RParen,
    LF,
}

/// A token: its kind, the byte range `start..end` of its text in the source
/// (for character and string literals, without the quotes), and the position
/// of its first byte.
#[derive(Clone, Copy, Debug, PartialEq, Eq, Structural)]
pub struct Token {
    pub kind: TokenKind,
    pub start: usize,
    pub end: usize,
    pub pos: Pos,
}

impl Token {
    /// The token's text in `src`.
    pub open spec fn text(self, src: Seq<u8>) -> Seq<u8> {
        src.subrange(self.start as int, self.end as int)
    }

    /// Whether the token's range lies within a source of `len` bytes.
    pub open spec fn in_bounds(self, len: nat) -> bool {
        self.start <= self.end <= len
    }
}

} // verus!
