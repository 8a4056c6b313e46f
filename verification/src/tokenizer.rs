//! The tokenizer: a single left-to-right scan of the text.
use vstd::prelude::*;
use vstd::string::StringExecFns;
use crate::text::{char_is_whitespace, characters, is_whitespace};
use crate::tokenizer::token::{Token, TokenView, token_views};

pub mod token;

verus! {

/// Why a text could not be tokenized.
#[derive(Debug, Clone, Copy, PartialEq, Eq)]
pub enum TokenizeErrorKind {
    /// A character that starts no token, with the character.
    UnexpectedCharacter(char),
    /// The text ended inside a string literal.
    MissingClosingQuote,
}

/// A failure of [`tokenize`].
#[derive(Debug, Clone, Copy, PartialEq, Eq)]
pub struct TokenizeError {
    pub kind: TokenizeErrorKind,
}

/// The message of a failure of the tokenizer.
pub open spec fn tokenize_message(k: TokenizeErrorKind) -> Seq<char> {
    match k {
        TokenizeErrorKind::UnexpectedCharacter(c) => "Tokenizing error: Unexpected character: "@
            + seq![c],
        TokenizeErrorKind::MissingClosingQuote =>
            "Tokenizing error: Expected \" to end string value."@,
    }
}

impl TokenizeError {
    /// The message of the failure, for a reader.
    pub fn message(&self) -> (r: String)
        ensures
            r@ == tokenize_message(self.kind),
    {
        match self.kind {
            TokenizeErrorKind::UnexpectedCharacter(c) => {
                let mut m = String::from_str("Tokenizing error: Unexpected character: ");
                m.push(c);
                assert(m@ =~= tokenize_message(self.kind));
                m
            },
            TokenizeErrorKind::MissingClosingQuote => String::from_str(
                "Tokenizing error: Expected \" to end string value.",
            ),
        }
    }
}

/// The punctuation token that a character stands for, if any.
pub open spec fn punctuation(c: char) -> Option<TokenView> {
    if c == '{' {
        Some(TokenView::LeftBrace)
    } else if c == '}' {
        Some(TokenView::RightBrace)
    } else if c == '[' {
        Some(TokenView::LeftBracket)
    } else if c == ']' {
        Some(TokenView::RightBracket)
    } else if c == ':' {
        Some(TokenView::Colon)
    } else if c == ',' {
        Some(TokenView::Comma)
    } else {
        None
    }
}

/// `first` put in front of the tokens of `rest`; a failure of `rest` stays.
pub open spec fn prepend(
    first: TokenView,
    rest: Result<Seq<TokenView>, TokenizeErrorKind>,
) -> Result<Seq<TokenView>, TokenizeErrorKind> {
    match rest {
        Ok(tokens) => Ok(seq![first] + tokens),
        Err(e) => Err(e),
    }
}

/// `done` put in front of the tokens of `rest`; a failure of `rest` stays.
pub open spec fn prepend_all(
    done: Seq<TokenView>,
    rest: Result<Seq<TokenView>, TokenizeErrorKind>,
) -> Result<Seq<TokenView>, TokenizeErrorKind> {
    match rest {
        Ok(tokens) => Ok(done + tokens),
        Err(e) => Err(e),
    }
}

/// The tokens of `s` from index `i` on, outside any string literal.
///
/// Punctuation gives its token, whitespace gives nothing, a double quote
/// opens a string literal, and any other character is an error. The first
/// error from the left is the result.
pub open spec fn lex(s: Seq<char>, i: int) -> Result<Seq<TokenView>, TokenizeErrorKind>
    decreases s.len() - i, 0int,
{
    if i < 0 || i >= s.len() {
        Ok(Seq::empty())
    } else if punctuation(s[i]) is Some {
        prepend(punctuation(s[i])->0, lex(s, i + 1))
    } else if is_whitespace(s[i]) {
        lex(s, i + 1)
    } else if s[i] == '"' {
        lex_literal(s, i + 1, i + 1)
    } else {
        Err(TokenizeErrorKind::UnexpectedCharacter(s[i]))
    }
}

/// The tokens of `s` from index `i` on, where `i` is inside a string literal
/// whose first character is at `start`. The literal runs up to the next
/// double quote and is taken verbatim, backslashes included.
pub open spec fn lex_literal(s: Seq<char>, start: int, i: int) -> Result<
    Seq<TokenView>,
    TokenizeErrorKind,
>
    decreases s.len() - i, 1int,
{
    if i < 0 || i >= s.len() {
        Err(TokenizeErrorKind::MissingClosingQuote)
    } else if s[i] == '"' {
        prepend(TokenView::Identifier(s.subrange(start, i)), lex(s, i + 1))
    } else {
        lex_literal(s, start, i + 1)
    }
}

/// The tokens of a whole text.
pub open spec fn spec_tokenize(s: Seq<char>) -> Result<Seq<TokenView>, TokenizeErrorKind> {
    lex(s, 0)
}

/// The punctuation token for `c`, if `c` is one of `{ } [ ] : ,`.
fn punctuation_token(c: char) -> (r: Option<Token>)
    ensures
        match r {
            Some(t) => punctuation(c) == Some(t@),
            None => punctuation(c) is None,
        },
{
    if c == '{' {
        Some(Token::LeftBrace)
    } else if c == '}' {
        Some(Token::RightBrace)
    } else if c == '[' {
        Some(Token::LeftBracket)
    } else if c == ']' {
        Some(Token::RightBracket)
    } else if c == ':' {
        Some(Token::Colon)
    } else if c == ',' {
        Some(Token::Comma)
    } else {
        None
    }
}

/// Splits a text into tokens.
///
/// The result is exactly `spec_tokenize` of the text: the tokens in order,
/// or the first lexical error from the left.
pub fn tokenize(json_string: &str) -> (r: Result<Vec<Token>, TokenizeError>)
    ensures
        match r {
            Ok(tokens) => spec_tokenize(json_string@) == Ok::<_, TokenizeErrorKind>(
                token_views(tokens@),
            ),
            Err(e) => spec_tokenize(json_string@) == Err::<Seq<TokenView>, _>(e.kind),
        },
{
    let ghost s = json_string@;
    let chars = characters(json_string);
    let n = chars.len();
    let mut tokens: Vec<Token> = Vec::new();
    let mut i: usize = 0;
    assert(token_views(tokens@) =~= Seq::empty());
    assert(prepend_all(Seq::empty(), lex(s, 0)) == lex(s, 0)) by {
        match lex(s, 0) {
            Ok(t) => assert(Seq::<TokenView>::empty() + t =~= t),
            Err(_) => {},
        }
    }
    while i < n
        invariant
            s == json_string@,
            s == chars@,
            n == s.len(),
            i <= n,
            spec_tokenize(s) == prepend_all(token_views(tokens@), lex(s, i as int)),
        decreases n - i,
    {
        let c = chars[i];
        let ghost before = token_views(tokens@);
        match punctuation_token(c) {
            Some(t) => {
                tokens.push(t);
                proof {
                    lemma_shift(before, t@, lex(s, i + 1));
                    assert(token_views(tokens@) =~= before.push(t@));
                }
                i += 1;
            },
            None => {
                if char_is_whitespace(c) {
                    i += 1;
                } else if c == '"' {
                    let mut ident = String::new();
                    let start: usize = i + 1;
                    let mut j: usize = i + 1;
                    assert(s.subrange(start as int, j as int) =~= Seq::empty());
                    while j < n && chars[j] != '"'
                        invariant
                            s == chars@,
                            n == s.len(),
                            start <= j <= n,
                            ident@ == s.subrange(start as int, j as int),
                            lex_literal(s, start as int, start as int) == lex_literal(
                                s,
                                start as int,
                                j as int,
                            ),
                        decreases n - j,
                    {
                        ident.push(chars[j]);
                        assert(s.subrange(start as int, j as int).push(s[j as int])
                            =~= s.subrange(start as int, j + 1));
                        j += 1;
                    }
                    if j >= n {
                        return Err(
                            TokenizeError { kind: TokenizeErrorKind::MissingClosingQuote },
                        );
                    }
                    let t = Token::Identifier(ident);
                    tokens.push(t);
                    proof {
                        lemma_shift(before, t@, lex(s, j + 1));
                        assert(token_views(tokens@) =~= before.push(t@));
                    }
                    i = j + 1;
                } else {
                    return Err(
                        TokenizeError { kind: TokenizeErrorKind::UnexpectedCharacter(c) },
                    );
                }
            },
        }
    }
    assert(prepend_all(token_views(tokens@), lex(s, i as int)) == Ok::<_, TokenizeErrorKind>(
        token_views(tokens@),
    )) by {
        assert(token_views(tokens@) + Seq::empty() =~= token_views(tokens@));
    }
    Ok(tokens)
}

/// Moving one token from the front of the rest to the end of what is done
/// changes nothing.
proof fn lemma_shift(
    done: Seq<TokenView>,
    t: TokenView,
    rest: Result<Seq<TokenView>, TokenizeErrorKind>,
)
    ensures
        prepend_all(done, prepend(t, rest)) == prepend_all(done.push(t), rest),
{
    match rest {
        Ok(tokens) => {
            assert(done + (seq![t] + tokens) =~= done.push(t) + tokens);
        },
        Err(_) => {},
    }
}

} // verus!
