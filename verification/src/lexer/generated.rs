//! The token classes of a table-driven tokenizer, and the kind of token that
//! each of them makes.
use super::token::TokenKind;
use vstd::prelude::*;

verus! {

/// The classes of lexemes that a tokenizer automaton tells apart.
#[derive(Debug, PartialEq, Eq, Clone, Copy, Structural)]
pub enum LogosToken {
    Dot,
    Colon,
    Comma,
    Semi,
    Plus,
    Minus,
    Times,
    Slash,
    Pow,
    Eq,
    Bang,
    And,
    Or,
    Eqq,
    Neq,
    Leq,
    Geq,
    Under,
    // Brackets
    LAngle,
    RAngle,
    LParen,
    RParen,
    LSquare,
    RSquare,
    LBrace,
    RBrace,
    // Constructs
    String,
    LineComment,
    Int,
    Float,
    Ident,
    // Keywords
    KwLet,
    KwIf,
    KwElse,
    KwFn,
    KwStruct,
    // Misc
    WS,
    Error,
}

impl LogosToken {
    /// The kind of token that a lexeme of this class makes.
    pub open spec fn token_kind(self) -> TokenKind {
        match self {
            LogosToken::Dot => TokenKind::Dot,
            LogosToken::Colon => TokenKind::Colon,
            LogosToken::Comma => TokenKind::Comma,
            LogosToken::Semi => TokenKind::SemiColon,
            LogosToken::Plus => TokenKind::Plus,
            LogosToken::Minus => TokenKind::Minus,
            LogosToken::Times => TokenKind::Times,
            LogosToken::Slash => TokenKind::Slash,
            LogosToken::Pow => TokenKind::Pow,
            LogosToken::Eq => TokenKind::Eq,
            LogosToken::Bang => TokenKind::Bang,
            LogosToken::And => TokenKind::And,
            LogosToken::Or => TokenKind::Or,
            LogosToken::Eqq => TokenKind::Eqq,
            LogosToken::Neq => TokenKind::Neq,
            LogosToken::Leq => TokenKind::Leq,
            LogosToken::Geq => TokenKind::Geq,
            LogosToken::Under => TokenKind::Underscore,
            LogosToken::LAngle => TokenKind::LAngle,
            LogosToken::RAngle => TokenKind::RAngle,
            LogosToken::LParen => TokenKind::LParen,
            LogosToken::RParen => TokenKind::RParen,
            LogosToken::LSquare => TokenKind::LSquare,
            LogosToken::RSquare => TokenKind::RSquare,
            LogosToken::LBrace => TokenKind::LBrace,
            LogosToken::RBrace => TokenKind::RBrace,
            LogosToken::String => TokenKind::String,
            LogosToken::LineComment => TokenKind::Comment,
            LogosToken::Int => TokenKind::Int,
            LogosToken::Float => TokenKind::Float,
            LogosToken::Ident => TokenKind::Identifier,
            LogosToken::KwLet => TokenKind::KeywordLet,
            LogosToken::KwIf => TokenKind::KeywordIf,
            LogosToken::KwElse => TokenKind::KeywordElse,
            LogosToken::KwFn => TokenKind::KeywordFn,
            LogosToken::KwStruct => TokenKind::KeywordStruct,
            LogosToken::WS => TokenKind::Whitespace,
            LogosToken::Error => TokenKind::Error,
        }
    }

    /// The kind of token that a lexeme of this class makes.
    pub fn kind(&self) -> (kind: TokenKind)
        ensures
            kind == self.token_kind(),
    {
        match self {
            LogosToken::Dot => TokenKind::Dot,
            LogosToken::Colon => TokenKind::Colon,
            LogosToken::Comma => TokenKind::Comma,
            LogosToken::Semi => TokenKind::SemiColon,
            LogosToken::Plus => TokenKind::Plus,
            LogosToken::Minus => TokenKind::Minus,
            LogosToken::Times => TokenKind::Times,
            LogosToken::Slash => TokenKind::Slash,
            LogosToken::Pow => TokenKind::Pow,
            LogosToken::Eq => TokenKind::Eq,
            LogosToken::Bang => TokenKind::Bang,
            LogosToken::And => TokenKind::And,
            LogosToken::Or => TokenKind::Or,
            LogosToken::Eqq => TokenKind::Eqq,
            LogosToken::Neq => TokenKind::Neq,
            LogosToken::Leq => TokenKind::Leq,
            LogosToken::Geq => TokenKind::Geq,
            LogosToken::Under => TokenKind::Underscore,
            LogosToken::LAngle => TokenKind::LAngle,
            LogosToken::RAngle => TokenKind::RAngle,
            LogosToken::LParen => TokenKind::LParen,
            LogosToken::RParen => TokenKind::RParen,
            LogosToken::LSquare => TokenKind::LSquare,
            LogosToken::RSquare => TokenKind::RSquare,
            LogosToken::LBrace => TokenKind::LBrace,
            LogosToken::RBrace => TokenKind::RBrace,
            LogosToken::String => TokenKind::String,
            LogosToken::LineComment => TokenKind::Comment,
            LogosToken::Int => TokenKind::Int,
            LogosToken::Float => TokenKind::Float,
            LogosToken::Ident => TokenKind::Identifier,
            LogosToken::KwLet => TokenKind::KeywordLet,
            LogosToken::KwIf => TokenKind::KeywordIf,
            LogosToken::KwElse => TokenKind::KeywordElse,
            LogosToken::KwFn => TokenKind::KeywordFn,
            LogosToken::KwStruct => TokenKind::KeywordStruct,
            LogosToken::WS => TokenKind::Whitespace,
            LogosToken::Error => TokenKind::Error,
        }
    }
}

/// Two classes that make the same kind of token are one class, and no class
/// makes the end of file, a lone `&` or a lone `|`.
pub proof fn lemma_classes_distinct(a: LogosToken, b: LogosToken)
    ensures
        a.token_kind() == b.token_kind() ==> a == b,
        a.token_kind() != TokenKind::Eof,
        a.token_kind() != TokenKind::Ampersand,
        a.token_kind() != TokenKind::Bar,
{
}

} // verus!
