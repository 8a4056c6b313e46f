//! The parser: recursive descent over the token sequence.
//!
//! ```text
//! document := object
//! object   := '{' members '}'
//! members  := (member ','?)*
//! member   := KEY ':' value
//! value    := object | array | STRING
//! array    := '[' elements ']'
//! elements := (value ','?)*
//! ```
//!
//! A comma after a member or an element is consumed where it stands and is
//! never required.
use vstd::prelude::*;
use crate::canonical::theorem_parsed_shape;
use crate::parser::json_value::{
    insert_member, lemma_array_view, lemma_object_view, members_view, put, values_view,
    well_formed, Json, JsonValue,
};
use crate::tokenizer::token::{token_views, Token, TokenView};
use crate::tokenizer::{
    spec_tokenize, tokenize, tokenize_message, TokenizeError, TokenizeErrorKind,
};
use vstd::pervasive::unreached;
use vstd::string::StringExecFns;

pub mod json_value;

verus! {

/// Why a document could not be parsed.
#[derive(Debug, PartialEq, Eq)]
pub enum ParseErrorKind {
    /// The text could not be tokenized.
    Tokenize(TokenizeErrorKind),
    /// A token stands where the grammar allows another, with the token.
    UnexpectedToken(Token),
    /// The tokens ended where the grammar asks for one more.
    UnexpectedEnd,
    /// Tokens follow the root object.
    TrailingTokens,
}

/// A failure of [`Parser::parse_string`].
#[derive(Debug, PartialEq, Eq)]
pub struct ParseError {
    pub kind: ParseErrorKind,
}

/// The mathematical value of a [`ParseError`].
pub enum ParseFailure {
    Tokenize(TokenizeErrorKind),
    UnexpectedToken(TokenView),
    UnexpectedEnd,
    TrailingTokens,
}

impl View for ParseError {
    type V = ParseFailure;

    open spec fn view(&self) -> ParseFailure {
        match self.kind {
            ParseErrorKind::Tokenize(e) => ParseFailure::Tokenize(e),
            ParseErrorKind::UnexpectedToken(t) => ParseFailure::UnexpectedToken(t@),
            ParseErrorKind::UnexpectedEnd => ParseFailure::UnexpectedEnd,
            ParseErrorKind::TrailingTokens => ParseFailure::TrailingTokens,
        }
    }
}

/// How a token is shown in a message: the name of its kind, and for a string
/// literal its text in double quotes and brackets, nothing escaped.
pub open spec fn token_text(t: TokenView) -> Seq<char> {
    match t {
        TokenView::LeftBrace => "LeftBrace"@,
        TokenView::RightBrace => "RightBrace"@,
        TokenView::LeftBracket => "LeftBracket"@,
        TokenView::RightBracket => "RightBracket"@,
        TokenView::Colon => "Colon"@,
        TokenView::Comma => "Comma"@,
        TokenView::Identifier(s) => "Identifier(\""@ + s + "\")"@,
    }
}

/// The message of a failure. Its first words tell a failure of the tokenizer
/// from one of the grammar.
pub open spec fn parse_message(e: ParseFailure) -> Seq<char> {
    match e {
        ParseFailure::Tokenize(k) => tokenize_message(k),
        ParseFailure::UnexpectedToken(t) => "Parsing error: unexpected token: "@ + token_text(t),
        ParseFailure::UnexpectedEnd => "Parsing error: Unexpected end of input"@,
        ParseFailure::TrailingTokens => "Parsing error: Unexpected tokens after root object."@,
    }
}

impl ParseError {
    /// The message of the failure, for a reader.
    pub fn message(&self) -> (r: String)
        ensures
            r@ == parse_message(self@),
    {
        match &self.kind {
            ParseErrorKind::Tokenize(k) => TokenizeError { kind: *k }.message(),
            ParseErrorKind::UnexpectedToken(t) => {
                let mut m = String::from_str("Parsing error: unexpected token: ");
                match t {
                    Token::LeftBrace => m.append("LeftBrace"),
                    Token::RightBrace => m.append("RightBrace"),
                    Token::LeftBracket => m.append("LeftBracket"),
                    Token::RightBracket => m.append("RightBracket"),
                    Token::Colon => m.append("Colon"),
                    Token::Comma => m.append("Comma"),
                    Token::Identifier(s) => {
                        m.append("Identifier(\"");
                        m.append(s.as_str());
                        m.append("\")");
                        assert(m@ =~= parse_message(self@));
                    },
                }
                m
            },
            ParseErrorKind::UnexpectedEnd => String::from_str(
                "Parsing error: Unexpected end of input",
            ),
            ParseErrorKind::TrailingTokens => String::from_str(
                "Parsing error: Unexpected tokens after root object.",
            ),
        }
    }
}

/// The position after the token `wanted` at `pos`, or why it is not there.
pub open spec fn spec_expect(toks: Seq<TokenView>, pos: int, wanted: TokenView) -> Result<
    int,
    ParseFailure,
> {
    if pos < 0 || pos >= toks.len() {
        Err(ParseFailure::UnexpectedEnd)
    } else if toks[pos] == wanted {
        Ok(pos + 1)
    } else {
        Err(ParseFailure::UnexpectedToken(toks[pos]))
    }
}

/// The text of the string literal at `pos` and the position after it.
pub open spec fn spec_key(toks: Seq<TokenView>, pos: int) -> Result<(Seq<char>, int), ParseFailure> {
    if pos < 0 || pos >= toks.len() {
        Err(ParseFailure::UnexpectedEnd)
    } else {
        match toks[pos] {
            TokenView::Identifier(s) => Ok((s, pos + 1)),
            t => Err(ParseFailure::UnexpectedToken(t)),
        }
    }
}

/// The position after an optional comma at `pos`.
pub open spec fn skip_comma(toks: Seq<TokenView>, pos: int) -> int {
    if 0 <= pos < toks.len() && toks[pos] == TokenView::Comma {
        pos + 1
    } else {
        pos
    }
}

/// The value that starts at `pos` and the position after it.
pub open spec fn spec_value(toks: Seq<TokenView>, pos: int) -> Result<(Json, int), ParseFailure>
    decreases toks.len() - pos, 3int,
{
    if pos < 0 || pos >= toks.len() {
        Err(ParseFailure::UnexpectedEnd)
    } else {
        match toks[pos] {
            TokenView::LeftBrace => spec_object(toks, pos),
            TokenView::LeftBracket => spec_array(toks, pos),
            TokenView::Identifier(s) => Ok((Json::String(s), pos + 1)),
            t => Err(ParseFailure::UnexpectedToken(t)),
        }
    }
}

/// The object that starts at `pos` and the position after its closing brace.
pub open spec fn spec_object(toks: Seq<TokenView>, pos: int) -> Result<(Json, int), ParseFailure>
    decreases toks.len() - pos, 2int,
{
    match spec_expect(toks, pos, TokenView::LeftBrace) {
        Err(e) => Err(e),
        Ok(p) => match spec_members(toks, p, Seq::empty()) {
            Err(e) => Err(e),
            Ok((members, mid)) => match spec_expect(toks, mid, TokenView::RightBrace) {
                Err(e) => Err(e),
                Ok(after) => Ok((Json::Object(members), after)),
            },
        },
    }
}

/// The members from `pos` up to the next closing brace, added to `acc` in
/// turn, and the position of that brace.
pub open spec fn spec_members(
    toks: Seq<TokenView>,
    pos: int,
    acc: Seq<(Seq<char>, Json)>,
) -> Result<(Seq<(Seq<char>, Json)>, int), ParseFailure>
    decreases toks.len() - pos, 5int,
{
    if 0 <= pos < toks.len() && toks[pos] == TokenView::RightBrace {
        Ok((acc, pos))
    } else {
        match spec_member(toks, pos) {
            Err(e) => Err(e),
            Ok((member, p)) => {
                let next = skip_comma(toks, p);
                if pos < next <= toks.len() {
                    spec_members(toks, next, put(acc, member.0, member.1))
                } else {
                    // Never taken: a member takes at least one token (see
                    // `lemma_member_textual`).
                    Err(ParseFailure::UnexpectedEnd)
                }
            },
        }
    }
}

/// The member that starts at `pos` and the position after it.
pub open spec fn spec_member(toks: Seq<TokenView>, pos: int) -> Result<
    ((Seq<char>, Json), int),
    ParseFailure,
>
    decreases toks.len() - pos, 4int,
{
    match spec_key(toks, pos) {
        Err(e) => Err(e),
        Ok((key, p)) => match spec_expect(toks, p, TokenView::Colon) {
            Err(e) => Err(e),
            Ok(mid) => match spec_value(toks, mid) {
                Err(e) => Err(e),
                Ok((value, after)) => Ok(((key, value), after)),
            },
        },
    }
}

/// The array that starts at `pos` and the position after its closing bracket.
pub open spec fn spec_array(toks: Seq<TokenView>, pos: int) -> Result<(Json, int), ParseFailure>
    decreases toks.len() - pos, 2int,
{
    match spec_expect(toks, pos, TokenView::LeftBracket) {
        Err(e) => Err(e),
        Ok(p) => match spec_elements(toks, p, Seq::empty()) {
            Err(e) => Err(e),
            Ok((values, mid)) => match spec_expect(toks, mid, TokenView::RightBracket) {
                Err(e) => Err(e),
                Ok(after) => Ok((Json::Array(values), after)),
            },
        },
    }
}

/// The elements from `pos` up to the next closing bracket, appended to `acc`
/// in order, and the position of that bracket.
pub open spec fn spec_elements(toks: Seq<TokenView>, pos: int, acc: Seq<Json>) -> Result<
    (Seq<Json>, int),
    ParseFailure,
>
    decreases toks.len() - pos, 5int,
{
    if 0 <= pos < toks.len() && toks[pos] == TokenView::RightBracket {
        Ok((acc, pos))
    } else {
        match spec_value(toks, pos) {
            Err(e) => Err(e),
            Ok((value, p)) => {
                let next = skip_comma(toks, p);
                if pos < next <= toks.len() {
                    spec_elements(toks, next, acc.push(value))
                } else {
                    // Never taken: a value takes at least one token (see
                    // `lemma_value_textual`).
                    Err(ParseFailure::UnexpectedEnd)
                }
            },
        }
    }
}

/// The document that a token sequence denotes: one root object and nothing
/// after it.
pub open spec fn spec_document(toks: Seq<TokenView>) -> Result<Json, ParseFailure> {
    match spec_object(toks, 0) {
        Err(e) => Err(e),
        Ok((root, p)) => if p == toks.len() {
            Ok(root)
        } else {
            Err(ParseFailure::TrailingTokens)
        },
    }
}

/// The document that a text denotes.
pub open spec fn spec_parse(text: Seq<char>) -> Result<Json, ParseFailure> {
    match spec_tokenize(text) {
        Err(e) => Err(ParseFailure::Tokenize(e)),
        Ok(toks) => spec_document(toks),
    }
}

/// Turns a sequence of [`Token`]s into a [`JsonValue::Object`].
pub struct Parser {
    tokens: Vec<Token>,
    pos: usize,
}

impl Parser {
    /// The tokens that the parser reads.
    pub closed spec fn toks(&self) -> Seq<TokenView> {
        token_views(self.tokens@)
    }

    /// The cursor: the number of tokens consumed so far.
    pub closed spec fn cursor(&self) -> int {
        self.pos as int
    }

    /// The cursor is within the tokens or just past them.
    pub closed spec fn inv(&self) -> bool {
        self.pos <= self.tokens.len()
    }

    /// Parses a whole document, which is a single root object.
    ///
    /// The result is exactly `spec_parse` of the text: the tree, or the first
    /// failure, be it of the tokenizer or of the grammar. A tree that comes
    /// back has an object at its root and distinct keys in every object.
    pub fn parse_string(json_string: String) -> (r: Result<JsonValue, ParseError>)
        ensures
            match r {
                Ok(v) => spec_parse(json_string@) == Ok::<_, ParseFailure>(v@) && v@ is Object
                    && well_formed(v@),
                Err(e) => spec_parse(json_string@) == Err::<Json, _>(e@),
            },
    {
        proof {
            if spec_parse(json_string@) is Ok {
                theorem_parsed_shape(json_string@);
            }
        }
        match tokenize(json_string.as_str()) {
            Err(e) => Err(ParseError { kind: ParseErrorKind::Tokenize(e.kind) }),
            Ok(tokens) => {
                let mut parser = Parser::new(tokens);
                match parser.parse_object() {
                    Err(e) => Err(e),
                    Ok(root) => {
                        if parser.pos != parser.tokens.len() {
                            Err(ParseError { kind: ParseErrorKind::TrailingTokens })
                        } else {
                            Ok(root)
                        }
                    },
                }
            },
        }
    }

    /// A parser at the start of `tokens`.
    fn new(tokens: Vec<Token>) -> (r: Self)
        ensures
            r.inv(),
            r.toks() == token_views(tokens@),
            r.cursor() == 0,
    {
        Self { tokens, pos: 0 }
    }

    /// Whether there is a next token and it is `expected`.
    fn next_token_is(&self, expected: Token) -> (r: bool)
        requires
            self.inv(),
        ensures
            r == (self.cursor() < self.toks().len() && self.toks()[self.cursor()] == expected@),
    {
        if self.pos < self.tokens.len() {
            self.tokens[self.pos].same_as(&expected)
        } else {
            false
        }
    }

    /// Whether there is no next token, or it is not `undesired`.
    fn next_token_is_not(&self, undesired: Token) -> (r: bool)
        requires
            self.inv(),
        ensures
            r == !(self.cursor() < self.toks().len() && self.toks()[self.cursor()]
                == undesired@),
    {
        !self.next_token_is(undesired)
    }

    /// Consumes the next token, which must be a string literal, and returns
    /// its text.
    fn expect_identifier(&mut self) -> (r: Result<String, ParseError>)
        requires
            old(self).inv(),
        ensures
            final(self).inv(),
            final(self).toks() == old(self).toks(),
            old(self).cursor() <= final(self).cursor(),
            match r {
                Ok(s) => spec_key(old(self).toks(), old(self).cursor()) == Ok::<_, ParseFailure>(
                    (s@, final(self).cursor()),
                ),
                Err(e) => spec_key(old(self).toks(), old(self).cursor()) == Err::<
                    (Seq<char>, int),
                    _,
                >(e@),
            },
    {
        let is_identifier = |t: &Token| -> (b: bool)
            ensures
                b == (t@ is Identifier),
            { t.as_identifier().is_some() };
        match self.expect_matching(is_identifier) {
            Ok(Token::Identifier(s)) => Ok(s),
            Ok(_) => unreached(),
            Err(e) => Err(e),
        }
    }

    /// Consumes the next token, which must be `token`.
    fn expect_eq(&mut self, token: Token) -> (r: Result<Token, ParseError>)
        requires
            old(self).inv(),
        ensures
            final(self).inv(),
            final(self).toks() == old(self).toks(),
            old(self).cursor() <= final(self).cursor(),
            match r {
                Ok(t) => t@ == token@ && spec_expect(
                    old(self).toks(),
                    old(self).cursor(),
                    token@,
                ) == Ok::<_, ParseFailure>(final(self).cursor()),
                Err(e) => spec_expect(old(self).toks(), old(self).cursor(), token@) == Err::<
                    int,
                    _,
                >(e@),
            },
    {
        let is_wanted = |t: &Token| -> (b: bool)
            ensures
                b == (t@ == token@),
            { t.same_as(&token) };
        self.expect_matching(is_wanted)
    }

    /// Consumes the next token and returns it where `f` accepts it. A token
    /// that `f` refuses is consumed all the same and comes back in the
    /// failure.
    fn expect_matching<F: Fn(&Token) -> bool>(&mut self, f: F) -> (r: Result<Token, ParseError>)
        requires
            old(self).inv(),
            forall|t: &Token| call_requires(f, (t,)),
        ensures
            final(self).inv(),
            final(self).toks() == old(self).toks(),
            match r {
                Ok(t) => {
                    &&& old(self).cursor() < old(self).toks().len()
                    &&& final(self).cursor() == old(self).cursor() + 1
                    &&& t@ == old(self).toks()[old(self).cursor()]
                    &&& call_ensures(f, (&t,), true)
                },
                Err(e) => match e.kind {
                    ParseErrorKind::UnexpectedToken(t) => {
                        &&& old(self).cursor() < old(self).toks().len()
                        &&& final(self).cursor() == old(self).cursor() + 1
                        &&& t@ == old(self).toks()[old(self).cursor()]
                        &&& call_ensures(f, (&t,), false)
                    },
                    ParseErrorKind::UnexpectedEnd => {
                        &&& old(self).cursor() >= old(self).toks().len()
                        &&& final(self).cursor() == old(self).cursor()
                    },
                    _ => false,
                },
            },
    {
        match self.next_token() {
            Some(token) => {
                if f(&token) {
                    Ok(token)
                } else {
                    Err(ParseError { kind: ParseErrorKind::UnexpectedToken(token) })
                }
            },
            None => Err(ParseError { kind: ParseErrorKind::UnexpectedEnd }),
        }
    }

    /// Consumes the next token, if there is one, and returns it.
    fn next_token(&mut self) -> (r: Option<Token>)
        requires
            old(self).inv(),
        ensures
            final(self).inv(),
            final(self).toks() == old(self).toks(),
            match r {
                Some(t) => old(self).cursor() < old(self).toks().len() && t@ == old(
                    self,
                ).toks()[old(self).cursor()] && final(self).cursor() == old(self).cursor() + 1,
                None => old(self).cursor() >= old(self).toks().len() && final(self).cursor()
                    == old(self).cursor(),
            },
    {
        if self.pos < self.tokens.len() {
            let t = self.tokens[self.pos].duplicate();
            self.pos += 1;
            Some(t)
        } else {
            None
        }
    }

    /// The next token, which is not consumed.
    fn peek_next_token(&self) -> (r: Result<&Token, ParseError>)
        requires
            self.inv(),
        ensures
            match r {
                Ok(t) => self.cursor() < self.toks().len() && t@ == self.toks()[self.cursor()],
                Err(e) => self.cursor() >= self.toks().len() && e@
                    == ParseFailure::UnexpectedEnd,
            },
    {
        if self.pos < self.tokens.len() {
            Ok(&self.tokens[self.pos])
        } else {
            Err(ParseError { kind: ParseErrorKind::UnexpectedEnd })
        }
    }

    /// Parses `'{' members '}'`.
    fn parse_object(&mut self) -> (r: Result<JsonValue, ParseError>)
        requires
            old(self).inv(),
        ensures
            final(self).inv(),
            final(self).toks() == old(self).toks(),
            match r {
                Ok(v) => old(self).cursor() < final(self).cursor() && spec_object(
                    old(self).toks(),
                    old(self).cursor(),
                ) == Ok::<_, ParseFailure>((v@, final(self).cursor())),
                Err(e) => spec_object(old(self).toks(), old(self).cursor()) == Err::<
                    (Json, int),
                    _,
                >(e@),
            },
        decreases old(self).toks().len() - old(self).cursor(), 2int,
    {
        match self.expect_eq(Token::LeftBrace) {
            Err(e) => {
                return Err(e);
            },
            Ok(_) => {},
        }
        let members = match self.parse_members() {
            Err(e) => {
                return Err(e);
            },
            Ok(members) => members,
        };
        match self.expect_eq(Token::RightBrace) {
            Err(e) => {
                return Err(e);
            },
            Ok(_) => {},
        }
        let v = JsonValue::Object { members };
        proof {
            lemma_object_view(members);
        }
        Ok(v)
    }

    /// Parses members up to the closing brace, which is not consumed. A key
    /// that comes again overwrites the value it had.
    fn parse_members(&mut self) -> (r: Result<Vec<(String, JsonValue)>, ParseError>)
        requires
            old(self).inv(),
        ensures
            final(self).inv(),
            final(self).toks() == old(self).toks(),
            match r {
                Ok(members) => old(self).cursor() <= final(self).cursor() && spec_members(
                    old(self).toks(),
                    old(self).cursor(),
                    Seq::empty(),
                ) == Ok::<_, ParseFailure>((members_view(members@), final(self).cursor())),
                Err(e) => spec_members(old(self).toks(), old(self).cursor(), Seq::empty())
                    == Err::<(Seq<(Seq<char>, Json)>, int), _>(e@),
            },
        decreases old(self).toks().len() - old(self).cursor(), 5int,
    {
        let mut members: Vec<(String, JsonValue)> = Vec::new();
        assert(members_view(members@) =~= Seq::empty());
        while self.next_token_is_not(Token::RightBrace)
            invariant
                self.inv(),
                self.toks() == old(self).toks(),
                old(self).cursor() <= self.cursor(),
                spec_members(old(self).toks(), old(self).cursor(), Seq::empty()) == spec_members(
                    self.toks(),
                    self.cursor(),
                    members_view(members@),
                ),
            decreases self.toks().len() - self.cursor(),
        {
            let (key, value) = match self.parse_member() {
                Err(e) => {
                    return Err(e);
                },
                Ok(member) => member,
            };
            insert_member(&mut members, key, value);
            if self.next_token_is(Token::Comma) {
                self.advance();
            }
        }
        Ok(members)
    }

    /// Parses `KEY ':' value`.
    fn parse_member(&mut self) -> (r: Result<(String, JsonValue), ParseError>)
        requires
            old(self).inv(),
        ensures
            final(self).inv(),
            final(self).toks() == old(self).toks(),
            match r {
                Ok(member) => old(self).cursor() < final(self).cursor() && spec_member(
                    old(self).toks(),
                    old(self).cursor(),
                ) == Ok::<_, ParseFailure>(((member.0@, member.1@), final(self).cursor())),
                Err(e) => spec_member(old(self).toks(), old(self).cursor()) == Err::<
                    ((Seq<char>, Json), int),
                    _,
                >(e@),
            },
        decreases old(self).toks().len() - old(self).cursor(), 4int,
    {
        let key = match self.parse_key() {
            Err(e) => {
                return Err(e);
            },
            Ok(key) => key,
        };
        match self.expect_eq(Token::Colon) {
            Err(e) => {
                return Err(e);
            },
            Ok(_) => {},
        }
        let value = match self.parse_value() {
            Err(e) => {
                return Err(e);
            },
            Ok(value) => value,
        };
        Ok((key, value))
    }

    /// Consumes the next token, which must be a string literal, and returns
    /// its text as the key of a member.
    fn parse_key(&mut self) -> (r: Result<String, ParseError>)
        requires
            old(self).inv(),
        ensures
            final(self).inv(),
            final(self).toks() == old(self).toks(),
            old(self).cursor() <= final(self).cursor(),
            match r {
                Ok(s) => spec_key(old(self).toks(), old(self).cursor()) == Ok::<_, ParseFailure>(
                    (s@, final(self).cursor()),
                ),
                Err(e) => spec_key(old(self).toks(), old(self).cursor()) == Err::<
                    (Seq<char>, int),
                    _,
                >(e@),
            },
    {
        self.expect_identifier()
    }

    /// Parses an object, an array or a string, as the next token tells.
    fn parse_value(&mut self) -> (r: Result<JsonValue, ParseError>)
        requires
            old(self).inv(),
        ensures
            final(self).inv(),
            final(self).toks() == old(self).toks(),
            match r {
                Ok(v) => old(self).cursor() < final(self).cursor() && spec_value(
                    old(self).toks(),
                    old(self).cursor(),
                ) == Ok::<_, ParseFailure>((v@, final(self).cursor())),
                Err(e) => spec_value(old(self).toks(), old(self).cursor()) == Err::<
                    (Json, int),
                    _,
                >(e@),
            },
        decreases old(self).toks().len() - old(self).cursor(), 3int,
    {
        let kind: u8 = match self.peek_next_token() {
            Err(e) => {
                return Err(e);
            },
            Ok(Token::LeftBrace) => 0,
            Ok(Token::LeftBracket) => 1,
            Ok(_) => 2,
        };
        if kind == 0 {
            self.parse_object()
        } else if kind == 1 {
            self.parse_array()
        } else {
            match self.expect_identifier() {
                Err(e) => Err(e),
                Ok(s) => Ok(JsonValue::String(s)),
            }
        }
    }

    /// Parses `'[' elements ']'`.
    fn parse_array(&mut self) -> (r: Result<JsonValue, ParseError>)
        requires
            old(self).inv(),
        ensures
            final(self).inv(),
            final(self).toks() == old(self).toks(),
            match r {
                Ok(v) => old(self).cursor() < final(self).cursor() && spec_array(
                    old(self).toks(),
                    old(self).cursor(),
                ) == Ok::<_, ParseFailure>((v@, final(self).cursor())),
                Err(e) => spec_array(old(self).toks(), old(self).cursor()) == Err::<
                    (Json, int),
                    _,
                >(e@),
            },
        decreases old(self).toks().len() - old(self).cursor(), 2int,
    {
        match self.expect_eq(Token::LeftBracket) {
            Err(e) => {
                return Err(e);
            },
            Ok(_) => {},
        }
        let values = match self.parse_array_values() {
            Err(e) => {
                return Err(e);
            },
            Ok(values) => values,
        };
        match self.expect_eq(Token::RightBracket) {
            Err(e) => {
                return Err(e);
            },
            Ok(_) => {},
        }
        let v = JsonValue::Array(values);
        proof {
            lemma_array_view(values);
        }
        Ok(v)
    }

    /// Parses elements up to the closing bracket, which is not consumed.
    fn parse_array_values(&mut self) -> (r: Result<Vec<JsonValue>, ParseError>)
        requires
            old(self).inv(),
        ensures
            final(self).inv(),
            final(self).toks() == old(self).toks(),
            match r {
                Ok(values) => old(self).cursor() <= final(self).cursor() && spec_elements(
                    old(self).toks(),
                    old(self).cursor(),
                    Seq::empty(),
                ) == Ok::<_, ParseFailure>((values_view(values@), final(self).cursor())),
                Err(e) => spec_elements(old(self).toks(), old(self).cursor(), Seq::empty())
                    == Err::<(Seq<Json>, int), _>(e@),
            },
        decreases old(self).toks().len() - old(self).cursor(), 5int,
    {
        let mut values: Vec<JsonValue> = Vec::new();
        assert(values_view(values@) =~= Seq::empty());
        while self.next_token_is_not(Token::RightBracket)
            invariant
                self.inv(),
                self.toks() == old(self).toks(),
                old(self).cursor() <= self.cursor(),
                spec_elements(old(self).toks(), old(self).cursor(), Seq::empty())
                    == spec_elements(self.toks(), self.cursor(), values_view(values@)),
            decreases self.toks().len() - self.cursor(),
        {
            let ghost before = values_view(values@);
            let value = match self.parse_value() {
                Err(e) => {
                    return Err(e);
                },
                Ok(value) => value,
            };
            values.push(value);
            assert(values_view(values@) =~= before.push(value@));
            if self.next_token_is(Token::Comma) {
                self.advance();
            }
        }
        Ok(values)
    }

    /// Moves the cursor past the next token.
    fn advance(&mut self)
        requires
            old(self).inv(),
            old(self).cursor() < old(self).toks().len(),
        ensures
            final(self).inv(),
            final(self).toks() == old(self).toks(),
            final(self).cursor() == old(self).cursor() + 1,
    {
        self.pos += 1;
    }
}

} // verus!
