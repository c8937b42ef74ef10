//! The token model: the closed set of lexical categories that the lexer
//! produces and the parser consumes, together with its mathematical view.

use vstd::prelude::*;

verus! {

/// One lexical unit. Malformed input is represented by dedicated variants
/// (`Illegal`, `InvalidKeyword`) rather than by an error: the lexer never
/// fails, and such tokens only become errors inside a parser production.
#[derive(Debug, PartialEq)]
pub enum Token {
    /// `{`
    LBrace,
    /// `}`
    RBrace,
    /// `[`
    LSquare,
    /// `]`
    RSquare,
    /// `,`
    Comma,
    /// `:`
    Colon,
    /// A string literal, with escape sequences already resolved.
    StringLiteral(String),
    /// A number, kept as the verbatim matched source text.
    NumberLiteral(String),
    /// `true` or `false`.
    BooleanLiteral(bool),
    /// `null`.
    NullLiteral,
    /// End of input.
    EOF,
    /// A character no rule matches, carried as-is.
    Illegal(char),
    /// A run of identifier characters that is not a valid keyword.
    InvalidKeyword(String),
}

/// The mathematical shape of a token: the same variants, with every payload
/// a plain sequence of characters.
pub enum Lexeme {
    LBrace,
    RBrace,
    LSquare,
    RSquare,
    Comma,
    Colon,
    StringLit(Seq<char>),
    NumberLit(Seq<char>),
    BooleanLit(bool),
    NullLit,
    End,
    IllegalChar(char),
    InvalidWord(Seq<char>),
}

impl View for Token {
    type V = Lexeme;

    open spec fn view(&self) -> Lexeme {
        match self {
            Token::LBrace => Lexeme::LBrace,
            Token::RBrace => Lexeme::RBrace,
            Token::LSquare => Lexeme::LSquare,
            Token::RSquare => Lexeme::RSquare,
            Token::Comma => Lexeme::Comma,
            Token::Colon => Lexeme::Colon,
            Token::StringLiteral(s) => Lexeme::StringLit(s@),
            Token::NumberLiteral(s) => Lexeme::NumberLit(s@),
            Token::BooleanLiteral(b) => Lexeme::BooleanLit(*b),
            Token::NullLiteral => Lexeme::NullLit,
            Token::EOF => Lexeme::End,
            Token::Illegal(c) => Lexeme::IllegalChar(*c),
            Token::InvalidKeyword(s) => Lexeme::InvalidWord(s@),
        }
    }
}

} // verus!
