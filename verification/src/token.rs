//! The token model: the tagged result of one classification step — a kind
//! plus the byte length of the lexeme — and the pure predicate queries that
//! callers use on it.

use vstd::prelude::*;

verus! {

/// One unit of scanner output: a classification tag and the exact number of
/// bytes the cursor advanced while producing it (`0` only for [`Kind::Eof`];
/// for a quote or apostrophe token the length covers the opening delimiter
/// alone, the literal body being left to a continuation scanner).
#[derive(Debug, Clone, Copy, PartialEq, Eq, Structural)]
pub struct Token {
    pub kind: Kind,
    pub len: u32,
}

impl Token {
    pub fn new(kind: Kind, len: u32) -> (t: Token)
        ensures
            t.kind == kind,
            t.len == len,
    {
        Token { kind, len }
    }

    pub fn is_eof(&self) -> (r: bool)
        ensures
            r == (self.kind is Eof),
    {
        self.kind.is_eof()
    }

    pub fn like_ident(&self) -> (r: bool)
        ensures
            r == (self.kind is Ident || self.kind is InvalidIdent),
    {
        self.kind.like_ident()
    }

    pub fn is_space(&self) -> (r: bool)
        ensures
            r == (self.kind is Space),
    {
        self.kind.is_space()
    }

    pub fn is_newline(&self) -> (r: bool)
        ensures
            r == (self.kind matches Kind::Space { newline: true }),
    {
        self.kind.is_newline()
    }
}

/// The classification tag of a token.
#[derive(Debug, Clone, Copy, PartialEq, Eq, Structural)]
pub enum Kind {
    /// A maximal run of whitespace; `newline` is true iff the run holds at
    /// least one `'\n'`.
    Space { newline: bool },
    /// A maximal run of ASCII alphanumerics and `_` starting with an ASCII
    /// letter or `_`.
    Ident,
    /// An identifier-shaped run that is not pure ASCII.
    InvalidIdent,
    /// A numeric literal; see [`LiteralKind`].
    Literal(LiteralKind),
    /// `"`
    Quote,
    /// `'`
    Apostrophe,
    /// `;`
    Semi,
    /// `:`
    Colon,
    /// `,`
    Comma,
    /// `.`
    Dot,
    /// `@`
    At,
    /// `#`
    Pound,
    /// `~`
    Tilde,
    /// `?`
    Question,
    /// `$`
    Dollar,
    /// `=`
    Eq,
    /// `!`
    Bang,
    /// `<`
    Lt,
    /// `>`
    Gt,
    /// `&`
    And,
    /// `|`
    Or,
    /// `+`
    Plus,
    /// `-`
    Minus,
    /// `*`
    Star,
    /// `/`
    Slash,
    /// `^`
    Caret,
    /// `%`
    Percent,
    /// `(`
    OpenParen,
    /// `)`
    CloseParen,
    /// `{`
    OpenBrace,
    /// `}`
    CloseBrace,
    /// `[`
    OpenBracket,
    /// `]`
    CloseBracket,
    /// A character no other rule matches, extended by a trailing run of
    /// non-ASCII alphanumerics.
    Unknown,
    /// End of input; terminal and zero-length.
    Eof,
}

impl Kind {
    pub fn is_eof(&self) -> (r: bool)
        ensures
            r == (*self is Eof),
    {
        matches!(self, Kind::Eof)
    }

    pub fn like_ident(&self) -> (r: bool)
        ensures
            r == (*self is Ident || *self is InvalidIdent),
    {
        matches!(self, Kind::Ident | Kind::InvalidIdent)
    }

    pub fn is_space(&self) -> (r: bool)
        ensures
            r == (*self is Space),
    {
        matches!(self, Kind::Space { .. })
    }

    pub fn is_newline(&self) -> (r: bool)
        ensures
            r == (*self matches Kind::Space { newline: true }),
    {
        matches!(self, Kind::Space { newline: true })
    }
}

/// The shape of a numeric literal. `empty` is true when a base prefix
/// (`0b`/`0o`/`0x`) was followed by no digit at all: the caller must treat
/// the literal as malformed, and the reported base is normalized to
/// [`Base::Decimal`].
#[derive(Debug, Clone, Copy, PartialEq, Eq, Structural)]
pub enum LiteralKind {
    Int { base: Base, empty: bool },
    Float { base: Base },
}

/// The radix of a numeric literal, ordered by numeric value.
#[derive(Debug, Clone, Copy, PartialEq, Eq, PartialOrd, Ord, Structural)]
pub enum Base {
    Binary,
    Octal,
    Decimal,
    Hexadecimal,
}

} // verus!
