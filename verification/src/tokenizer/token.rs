//! Lexical tokens.
use vstd::prelude::*;

verus! {

/// A lexical unit: one of six punctuation marks, or a quoted string literal.
/// A string literal is an `Identifier` whether it is used as a key or as a
/// value; only its place in the grammar tells the two apart.
#[derive(Debug, PartialEq, Eq)]
pub enum Token {
    LeftBrace,
    RightBrace,
    LeftBracket,
    RightBracket,
    Colon,
    Comma,
    Identifier(String),
}

/// The mathematical value of a [`Token`].
pub enum TokenView {
    LeftBrace,
    RightBrace,
    LeftBracket,
    RightBracket,
    Colon,
    Comma,
    Identifier(Seq<char>),
}

impl View for Token {
    type V = TokenView;

    open spec fn view(&self) -> TokenView {
        match self {
            Token::LeftBrace => TokenView::LeftBrace,
            Token::RightBrace => TokenView::RightBrace,
            Token::LeftBracket => TokenView::LeftBracket,
            Token::RightBracket => TokenView::RightBracket,
            Token::Colon => TokenView::Colon,
            Token::Comma => TokenView::Comma,
            Token::Identifier(s) => TokenView::Identifier(s@),
        }
    }
}

/// The views of a sequence of tokens, in order.
pub open spec fn token_views(tokens: Seq<Token>) -> Seq<TokenView> {
    Seq::new(tokens.len(), |i: int| tokens[i]@)
}

impl Token {
    /// The text of a string literal; `None` for punctuation.
    pub fn as_identifier(&self) -> (r: Option<&str>)
        ensures
            match self@ {
                TokenView::Identifier(s) => r is Some && r.unwrap()@ == s,
                _ => r is None,
            },
    {
        match self {
            Token::Identifier(ident) => Some(ident.as_str()),
            _ => None,
        }
    }

    /// A token with the same value as `self`.
    pub fn duplicate(&self) -> (r: Token)
        ensures
            r@ == self@,
    {
        match self {
            Token::LeftBrace => Token::LeftBrace,
            Token::RightBrace => Token::RightBrace,
            Token::LeftBracket => Token::LeftBracket,
            Token::RightBracket => Token::RightBracket,
            Token::Colon => Token::Colon,
            Token::Comma => Token::Comma,
            Token::Identifier(s) => Token::Identifier(s.clone()),
        }
    }

    /// Whether two tokens have the same value.
    pub fn same_as(&self, other: &Token) -> (r: bool)
        ensures
            r == (self@ == other@),
    {
        match (self, other) {
            (Token::LeftBrace, Token::LeftBrace) => true,
            (Token::RightBrace, Token::RightBrace) => true,
            (Token::LeftBracket, Token::LeftBracket) => true,
            (Token::RightBracket, Token::RightBracket) => true,
            (Token::Colon, Token::Colon) => true,
            (Token::Comma, Token::Comma) => true,
            (Token::Identifier(a), Token::Identifier(b)) => *a == *b,
            _ => false,
        }
    }
}

} // verus!
