use vstd::prelude::*;

verus! {

/// The kinds of tokens that the lexer produces.
#[derive(Debug, PartialEq, Eq, Hash, Clone, Copy, Structural)]
pub enum TokenType {
    Illegal,
    Eof,
    Identifier,
    Integer,
    String,
    // Operators
    Assign,
    Plus,
    Minus,
    Asterisk,
    Bang,
    Slash,
    Equals,
    NotEquals,
    GreaterThan,
    LessThan,
    GreaterThanOrEqual,
    LessThanOrEqual,
    LogicalAnd,
    LogicalOr,
    // Delimiters
    Comma,
    Semicolon,
    // Symbols
    LeftParenthesis,
    RightParenthesis,
    LeftBrace,
    RightBrace,
    LeftBracket,
    RightBracket,
    // Keywords
    Function,
    Val,
    True,
    False,
    Return,
    Else,
    If,
    For,
}

/// A token: its kind and the text it was read from.
#[derive(Debug, Clone)]
pub struct Token {
    pub token_type: TokenType,
    pub literal: String,
}

/// The mathematical model of a token: its kind and its text as characters.
pub struct TokenView {
    pub token_type: TokenType,
    pub literal: Seq<char>,
}

impl View for Token {
    type V = TokenView;

    open spec fn view(&self) -> TokenView {
        TokenView { token_type: self.token_type, literal: self.literal@ }
    }
}

impl Token {
    pub fn new(token_type: TokenType, literal: String) -> (t: Self)
        ensures
            t.token_type == token_type,
            t.literal == literal,
    {
        Self { token_type, literal }
    }
}

/// Builds a `String` that holds one character.
#[verifier::external_body]
pub(crate) fn string_of_char(c: char) -> (s: String)
    ensures
        s@ == seq![c],
{
    c.to_string()
}

} // verus!
