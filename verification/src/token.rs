//! The token model: pure data produced by the scanner.

use vstd::prelude::*;

verus! {

/// The sixteen reserved words of the language.
#[derive(Debug, Clone, Copy, PartialEq, Eq)]
pub enum Keyword {
    And,
    Class,
    Else,
    False,
    Fun,
    For,
    If,
    Nil,
    Or,
    Print,
    Return,
    Super,
    This,
    True,
    Var,
    While,
}

/// A token category.  Literal-bearing categories carry their payload:
/// a string literal carries its contents with the quotes stripped, a
/// number literal carries the exact numeric text it was scanned from
/// (turning that text into a float is the caller's concern, so that the
/// scanner itself stays free of floating point), and an identifier
/// carries its spelling.
#[derive(Debug, PartialEq, Eq)]
pub enum TokenType {
    LeftParenthesis,
    RightParenthesis,
    LeftBrace,
    RightBrace,
    Comma,
    Dot,
    Minus,
    Plus,
    Semicolon,
    Slash,
    Star,
    Bang,
    BangEqual,
    Equal,
    EqualEqual,
    Greater,
    GreaterEqual,
    Less,
    LessEqual,
    String(String),
    Number(String),
    Identifier(String),
    Keyword(Keyword),
    EOF,
}

/// A single token: its category, the exact source substring it was
/// scanned from (empty for the end-of-input marker), and the 1-based
/// source line its scan ended on.
#[derive(Debug, PartialEq, Eq)]
pub struct Token {
    pub token_type: TokenType,
    pub lexeme: String,
    pub line: u64,
}

/// The mathematical value of a [`TokenType`]: the same categories with
/// every text payload read as a sequence of characters.
pub enum SpecTokenType {
    LeftParenthesis,
    RightParenthesis,
    LeftBrace,
    RightBrace,
    Comma,
    Dot,
    Minus,
    Plus,
    Semicolon,
    Slash,
    Star,
    Bang,
    BangEqual,
    Equal,
    EqualEqual,
    Greater,
    GreaterEqual,
    Less,
    LessEqual,
    String(Seq<char>),
    Number(Seq<char>),
    Identifier(Seq<char>),
    Keyword(Keyword),
    EOF,
}

/// The mathematical value of a [`Token`].
pub struct SpecToken {
    pub token_type: SpecTokenType,
    pub lexeme: Seq<char>,
    pub line: int,
}

impl View for TokenType {
    type V = SpecTokenType;

    open spec fn view(&self) -> SpecTokenType {
        match self {
            TokenType::LeftParenthesis => SpecTokenType::LeftParenthesis,
            TokenType::RightParenthesis => SpecTokenType::RightParenthesis,
            TokenType::LeftBrace => SpecTokenType::LeftBrace,
            TokenType::RightBrace => SpecTokenType::RightBrace,
            TokenType::Comma => SpecTokenType::Comma,
            TokenType::Dot => SpecTokenType::Dot,
            TokenType::Minus => SpecTokenType::Minus,
            TokenType::Plus => SpecTokenType::Plus,
            TokenType::Semicolon => SpecTokenType::Semicolon,
            TokenType::Slash => SpecTokenType::Slash,
            TokenType::Star => SpecTokenType::Star,
            TokenType::Bang => SpecTokenType::Bang,
            TokenType::BangEqual => SpecTokenType::BangEqual,
            TokenType::Equal => SpecTokenType::Equal,
            TokenType::EqualEqual => SpecTokenType::EqualEqual,
            TokenType::Greater => SpecTokenType::Greater,
            TokenType::GreaterEqual => SpecTokenType::GreaterEqual,
            TokenType::Less => SpecTokenType::Less,
            TokenType::LessEqual => SpecTokenType::LessEqual,
            TokenType::String(s) => SpecTokenType::String(s@),
            TokenType::Number(s) => SpecTokenType::Number(s@),
            TokenType::Identifier(s) => SpecTokenType::Identifier(s@),
            TokenType::Keyword(k) => SpecTokenType::Keyword(*k),
            TokenType::EOF => SpecTokenType::EOF,
        }
    }
}

impl View for Token {
    type V = SpecToken;

    open spec fn view(&self) -> SpecToken {
        SpecToken { token_type: self.token_type@, lexeme: self.lexeme@, line: self.line as int }
    }
}

/// The sequence of mathematical values of a sequence of tokens.
pub open spec fn token_views(tokens: Seq<Token>) -> Seq<SpecToken> {
    tokens.map_values(|t: Token| t@)
}

/// Pushing a token onto a sequence pushes its value onto the sequence of values.
pub proof fn lemma_token_views_push(tokens: Seq<Token>, t: Token)
    ensures
        token_views(tokens.push(t)) == token_views(tokens).push(t@),
{
    assert(token_views(tokens.push(t)) =~= token_views(tokens).push(t@));
}

} // verus!
