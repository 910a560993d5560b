//! The tokens the dusk lexer hands back, down to what the server tells apart.

use vstd::prelude::*;

verus! {

/// A stretch of a source file, in byte offsets.
#[derive(Clone, Copy, Debug, PartialEq, Eq, Structural)]
pub struct Span {
    pub lo: u32,
    pub hi: u32,
}

/// The keywords that change how a later name reads. Every other keyword is
/// `Other`.
#[derive(Clone, Copy, Debug, PartialEq, Eq, Structural)]
pub enum Keyword {
    Func,
    Struct,
    Enum,
    Interface,
    Monad,
    Impl,
    Other,
}

/// What a token is. Literals carry no value here, since nothing reads it, and a
/// token no rule looks at is `Other`.
#[derive(Debug)]
pub enum TokenKind {
    Kw(Keyword),
    Ident(String),
    Bool,
    Int,
    Float,
    Str,
    Char,
    At,
    Arrow,
    LParen,
    RParen,
    LBracket,
    RBracket,
    LBrace,
    RBrace,
    Lt,
    Gt,
    Shr,
    Comma,
    Other,
}

/// One token: what it is, where it sits, and whether a line break comes between
/// it and the token before.
#[derive(Debug)]
pub struct Token {
    pub kind: TokenKind,
    pub span: Span,
    pub nl_before: bool,
}

} // verus!
