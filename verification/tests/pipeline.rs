use json_parser::parser::json_value::{insert_member, JsonValue};
use json_parser::parser::{ParseError, ParseErrorKind, Parser};
use json_parser::text::characters;
use json_parser::tokenizer::token::Token;
use json_parser::tokenizer::{tokenize, TokenizeError, TokenizeErrorKind};
use json_parser::writer::JsonWriter;

fn parse(text: &str) -> Result<JsonValue, ParseError> {
    Parser::parse_string(text.to_string())
}

fn string(text: &str) -> JsonValue {
    JsonValue::String(text.to_string())
}

fn object(members: Vec<(&str, JsonValue)>) -> JsonValue {
    JsonValue::Object {
        members: members.into_iter().map(|(k, v)| (k.to_string(), v)).collect(),
    }
}

fn parse_failure(text: &str) -> ParseErrorKind {
    parse(text).unwrap_err().kind
}

#[test]
fn parse_object_with_one_string_member() {
    let json_string = "{\"user\": \"thepolytheist\"}";
    let object = Parser::parse_string(json_string.into()).unwrap();
    assert_eq!(json_string, JsonWriter::write(object));
}

#[test]
fn strip_whitespace() {
    let json_string_with_whitespace = "     {  \"whitespace\"    : \"true\"  }";
    let json_string = "{\"whitespace\": \"true\"}";
    let object = Parser::parse_string(json_string_with_whitespace.into()).unwrap();
    assert_eq!(json_string, JsonWriter::write(object));
}

#[test]
fn tokenize_punctuation_and_literals() {
    let tokens = tokenize("{ \"a\" : [ \"b\" , \"\" ] }").unwrap();
    assert_eq!(
        tokens,
        vec![
            Token::LeftBrace,
            Token::Identifier("a".to_string()),
            Token::Colon,
            Token::LeftBracket,
            Token::Identifier("b".to_string()),
            Token::Comma,
            Token::Identifier(String::new()),
            Token::RightBracket,
            Token::RightBrace,
        ]
    );
}

#[test]
fn tokenize_empty_text() {
    assert_eq!(tokenize("").unwrap(), Vec::<Token>::new());
    assert_eq!(tokenize(" \t\r\n").unwrap(), Vec::<Token>::new());
}

#[test]
fn tokenize_keeps_backslashes_verbatim() {
    let tokens = tokenize("\"a\\nb\\\\\"").unwrap();
    assert_eq!(tokens, vec![Token::Identifier("a\\nb\\\\".to_string())]);
}

#[test]
fn tokenize_backslash_does_not_escape_a_quote() {
    assert_eq!(
        tokenize("\"a\\\"b"),
        Err(TokenizeError { kind: TokenizeErrorKind::UnexpectedCharacter('b') })
    );
    assert_eq!(
        tokenize("\"a\\\" \"b"),
        Err(TokenizeError { kind: TokenizeErrorKind::MissingClosingQuote })
    );
}

#[test]
fn tokenize_keeps_whitespace_inside_literals() {
    let tokens = tokenize("\" a\tb \"").unwrap();
    assert_eq!(tokens, vec![Token::Identifier(" a\tb ".to_string())]);
}

#[test]
fn tokenize_skips_whitespace_beyond_ascii() {
    let tokens = tokenize("{\u{a0}\u{2003}\u{3000}}").unwrap();
    assert_eq!(tokens, vec![Token::LeftBrace, Token::RightBrace]);
}

#[test]
fn tokenize_rejects_other_characters_beyond_ascii() {
    assert_eq!(
        tokenize("{\u{e9}}"),
        Err(TokenizeError { kind: TokenizeErrorKind::UnexpectedCharacter('\u{e9}') })
    );
}

#[test]
fn tokenize_counts_characters_not_bytes() {
    let tokens = tokenize("\"\u{e9}\u{4e16}\" \"x\"").unwrap();
    assert_eq!(
        tokens,
        vec![
            Token::Identifier("\u{e9}\u{4e16}".to_string()),
            Token::Identifier("x".to_string()),
        ]
    );
}

#[test]
fn tokenize_unterminated_string() {
    assert_eq!(
        tokenize("{\"k\": \"v}"),
        Err(TokenizeError { kind: TokenizeErrorKind::MissingClosingQuote })
    );
}

#[test]
fn tokenize_unexpected_character() {
    assert_eq!(
        tokenize("{\"k\": 1}"),
        Err(TokenizeError { kind: TokenizeErrorKind::UnexpectedCharacter('1') })
    );
    assert_eq!(
        tokenize("true"),
        Err(TokenizeError { kind: TokenizeErrorKind::UnexpectedCharacter('t') })
    );
}

#[test]
fn tokenize_reports_the_first_error() {
    assert_eq!(
        tokenize("x \"open"),
        Err(TokenizeError { kind: TokenizeErrorKind::UnexpectedCharacter('x') })
    );
}

#[test]
fn as_identifier_gives_the_text_of_a_literal_only() {
    assert_eq!(Token::Identifier("key".to_string()).as_identifier(), Some("key"));
    assert_eq!(Token::LeftBrace.as_identifier(), None);
    assert_eq!(Token::Comma.as_identifier(), None);
}

#[test]
fn token_duplicate_and_same_as() {
    let t = Token::Identifier("a".to_string());
    assert_eq!(t.duplicate(), t);
    assert!(t.same_as(&Token::Identifier("a".to_string())));
    assert!(!t.same_as(&Token::Identifier("b".to_string())));
    assert!(!t.same_as(&Token::Colon));
    assert!(Token::Colon.same_as(&Token::Colon));
    assert!(!Token::Colon.same_as(&Token::Comma));
}

#[test]
fn parse_empty_root() {
    let root = parse("{}").unwrap();
    assert_eq!(root, object(vec![]));
    assert_eq!(JsonWriter::write(root), "{}");
}

#[test]
fn parse_duplicate_keys_last_write_wins() {
    let root = parse("{\"k\": \"a\", \"k\": \"b\"}").unwrap();
    assert_eq!(root, object(vec![("k", string("b"))]));
}

#[test]
fn parse_duplicate_key_keeps_its_first_place() {
    let root = parse("{\"k\": \"a\", \"m\": \"x\", \"k\": \"b\"}").unwrap();
    assert_eq!(root, object(vec![("k", string("b")), ("m", string("x"))]));
}

#[test]
fn parse_nested_structures() {
    let text = "{\"a\": [{\"b\": \"c\"}, []]}";
    let root = parse(text).unwrap();
    assert_eq!(
        root,
        object(vec![(
            "a",
            JsonValue::Array(vec![object(vec![("b", string("c"))]), JsonValue::Array(vec![])]),
        )])
    );
    assert_eq!(JsonWriter::write(root), text);
}

#[test]
fn parse_unterminated_string_is_a_tokenize_failure() {
    assert_eq!(
        parse_failure("{\"k\": \"v}"),
        ParseErrorKind::Tokenize(TokenizeErrorKind::MissingClosingQuote)
    );
}

#[test]
fn parse_bare_word_after_root_fails() {
    assert!(parse("{}x").is_err());
    assert_eq!(
        parse_failure("{}x"),
        ParseErrorKind::Tokenize(TokenizeErrorKind::UnexpectedCharacter('x'))
    );
}

#[test]
fn parse_trailing_tokens() {
    assert_eq!(parse_failure("{}{}"), ParseErrorKind::TrailingTokens);
    assert_eq!(parse_failure("{}\"x\""), ParseErrorKind::TrailingTokens);
    assert_eq!(parse_failure("{},"), ParseErrorKind::TrailingTokens);
}

#[test]
fn parse_unexpected_token() {
    assert_eq!(parse_failure("[]"), ParseErrorKind::UnexpectedToken(Token::LeftBracket));
    assert_eq!(
        parse_failure("{\"a\" \"b\"}"),
        ParseErrorKind::UnexpectedToken(Token::Identifier("b".to_string()))
    );
    assert_eq!(parse_failure("{\"a\": :}"), ParseErrorKind::UnexpectedToken(Token::Colon));
    assert_eq!(parse_failure("{\"a\": []]}"), ParseErrorKind::UnexpectedToken(Token::RightBracket));
    assert_eq!(parse_failure("{,}"), ParseErrorKind::UnexpectedToken(Token::Comma));
    assert_eq!(parse_failure("{\"a\": [}"), ParseErrorKind::UnexpectedToken(Token::RightBrace));
}

#[test]
fn parse_unexpected_end() {
    assert_eq!(parse_failure(""), ParseErrorKind::UnexpectedEnd);
    assert_eq!(parse_failure("{"), ParseErrorKind::UnexpectedEnd);
    assert_eq!(parse_failure("{\"a\""), ParseErrorKind::UnexpectedEnd);
    assert_eq!(parse_failure("{\"a\":"), ParseErrorKind::UnexpectedEnd);
    assert_eq!(parse_failure("{\"a\": \"b\""), ParseErrorKind::UnexpectedEnd);
    assert_eq!(parse_failure("{\"a\": [\"b\""), ParseErrorKind::UnexpectedEnd);
}

#[test]
fn parse_commas_are_optional() {
    let expected = object(vec![
        ("a", string("1")),
        ("b", JsonValue::Array(vec![string("x"), string("y")])),
    ]);
    assert_eq!(parse("{\"a\": \"1\", \"b\": [\"x\", \"y\"]}").unwrap(), expected);
    assert_eq!(parse("{\"a\": \"1\" \"b\": [\"x\" \"y\"]}").unwrap(), expected);
    assert_eq!(parse("{\"a\": \"1\", \"b\": [\"x\", \"y\",],}").unwrap(), expected);
}

#[test]
fn parse_two_commas_in_a_row_fail() {
    assert_eq!(
        parse_failure("{\"a\": [\"x\",,]}"),
        ParseErrorKind::UnexpectedToken(Token::Comma)
    );
}

#[test]
fn parse_ignores_whitespace_outside_literals() {
    let plain = parse("{\"a\":[\"b\",{\"c\":\"d e\"}]}").unwrap();
    let spaced = parse(" {\n\t\"a\" : [ \"b\" ,\r\n {\u{a0}\"c\" : \"d e\" } ] } ").unwrap();
    assert_eq!(plain, spaced);
}

#[test]
fn write_is_canonical_after_parse() {
    let root = parse("{\"a\":[\"b\"   ,\n\"c\"],\"d\"  :{}}").unwrap();
    let text = JsonWriter::write(root);
    assert_eq!(text, "{\"a\": [\"b\", \"c\"], \"d\": {}}");
    let again = JsonWriter::write(parse(&text).unwrap());
    assert_eq!(again, text);
}

#[test]
fn write_then_parse_gives_the_tree_back() {
    let tree = object(vec![
        ("first", string("one")),
        ("second", JsonValue::Array(vec![string(""), object(vec![]), JsonValue::Array(vec![])])),
        ("third", object(vec![("in ner", string("a\\b: ,[]{}"))])),
    ]);
    let expected = object(vec![
        ("first", string("one")),
        ("second", JsonValue::Array(vec![string(""), object(vec![]), JsonValue::Array(vec![])])),
        ("third", object(vec![("in ner", string("a\\b: ,[]{}"))])),
    ]);
    let text = JsonWriter::write(tree);
    assert_eq!(parse(&text).unwrap(), expected);
}

#[test]
fn write_scalars() {
    assert_eq!(JsonWriter::write(JsonValue::Null), "null");
    assert_eq!(JsonWriter::write(JsonValue::Boolean(true)), "true");
    assert_eq!(JsonWriter::write(JsonValue::Boolean(false)), "false");
    assert_eq!(JsonWriter::write(string("x")), "\"x\"");
    assert_eq!(JsonWriter::write(string("")), "\"\"");
}

#[test]
fn write_numbers_in_decimal() {
    assert_eq!(JsonWriter::write(JsonValue::Number(0)), "0");
    assert_eq!(JsonWriter::write(JsonValue::Number(7)), "7");
    assert_eq!(JsonWriter::write(JsonValue::Number(10)), "10");
    assert_eq!(JsonWriter::write(JsonValue::Number(1234567890)), "1234567890");
    assert_eq!(JsonWriter::write(JsonValue::Number(usize::MAX)), usize::MAX.to_string());
}

#[test]
fn write_does_not_escape() {
    assert_eq!(JsonWriter::write(string("a\"b\\c\n")), "\"a\"b\\c\n\"");
}

#[test]
fn write_lists_with_separators() {
    let tree = object(vec![
        ("n", JsonValue::Number(42)),
        ("b", JsonValue::Boolean(false)),
        ("z", JsonValue::Null),
        ("l", JsonValue::Array(vec![JsonValue::Number(1), JsonValue::Number(2), JsonValue::Null])),
    ]);
    assert_eq!(
        JsonWriter::write(tree),
        "{\"n\": 42, \"b\": false, \"z\": null, \"l\": [1, 2, null]}"
    );
}

#[test]
fn write_of_a_tree_with_a_number_does_not_parse_back() {
    let text = JsonWriter::write(object(vec![("n", JsonValue::Number(5))]));
    assert_eq!(
        parse_failure(&text),
        ParseErrorKind::Tokenize(TokenizeErrorKind::UnexpectedCharacter('5'))
    );
}

#[test]
fn insert_member_appends_or_overwrites() {
    let mut members: Vec<(String, JsonValue)> = Vec::new();
    insert_member(&mut members, "a".to_string(), string("1"));
    insert_member(&mut members, "b".to_string(), string("2"));
    insert_member(&mut members, "a".to_string(), string("3"));
    assert_eq!(
        members,
        vec![("a".to_string(), string("3")), ("b".to_string(), string("2"))]
    );
}

#[test]
fn messages_tell_the_stages_apart() {
    assert_eq!(
        tokenize("?").unwrap_err().message(),
        "Tokenizing error: Unexpected character: ?"
    );
    assert_eq!(
        tokenize("\"").unwrap_err().message(),
        "Tokenizing error: Expected \" to end string value."
    );
    assert_eq!(
        parse("{\"k\": \"v}").unwrap_err().message(),
        "Tokenizing error: Expected \" to end string value."
    );
    assert_eq!(parse("{").unwrap_err().message(), "Parsing error: Unexpected end of input");
    assert_eq!(
        parse("{}{}").unwrap_err().message(),
        "Parsing error: Unexpected tokens after root object."
    );
    assert_eq!(
        parse("{:}").unwrap_err().message(),
        "Parsing error: unexpected token: Colon"
    );
    assert_eq!(
        parse("{\"a\" \"b\"}").unwrap_err().message(),
        "Parsing error: unexpected token: Identifier(\"b\")"
    );
    assert_eq!(parse("{{}").unwrap_err().message(), "Parsing error: unexpected token: LeftBrace");
    assert_eq!(parse("}").unwrap_err().message(), "Parsing error: unexpected token: RightBrace");
    assert_eq!(parse("[").unwrap_err().message(), "Parsing error: unexpected token: LeftBracket");
    assert_eq!(parse("]").unwrap_err().message(), "Parsing error: unexpected token: RightBracket");
    assert_eq!(parse(",").unwrap_err().message(), "Parsing error: unexpected token: Comma");
}

#[test]
fn clone_gives_an_equal_tree() {
    let tree = object(vec![
        ("a", JsonValue::Array(vec![string("x"), JsonValue::Number(3), JsonValue::Null])),
        ("b", object(vec![("c", JsonValue::Boolean(true))])),
    ]);
    let copy = tree.clone();
    assert_eq!(copy, tree);
    assert_eq!(tree.duplicate(), tree);
    assert_eq!(JsonWriter::write(copy), "{\"a\": [\"x\", 3, null], \"b\": {\"c\": true}}");
}

#[test]
fn parse_sample_document() {
    let text = "{\n  \"object\": {\n    \"array\": [\n      \"string\",\n      {},\n      [\"nested array string\"]\n    ]\n  }\n}";
    let root = parse(text).unwrap();
    assert_eq!(
        JsonWriter::write(root),
        "{\"object\": {\"array\": [\"string\", {}, [\"nested array string\"]]}}"
    );
}

#[test]
fn characters_are_scalar_values_in_order() {
    assert_eq!(characters(""), Vec::<char>::new());
    assert_eq!(characters("a\u{e9}\u{1f600}b"), vec!['a', '\u{e9}', '\u{1f600}', 'b']);
}

#[test]
fn write_object_built_by_hand_keeps_member_order() {
    let tree = object(vec![("z", string("1")), ("a", string("2")), ("m", string("3"))]);
    assert_eq!(JsonWriter::write(tree), "{\"z\": \"1\", \"a\": \"2\", \"m\": \"3\"}");
}

#[test]
fn parse_deeply_nested_arrays() {
    let mut text = String::from("{\"a\": ");
    for _ in 0..50 {
        text.push('[');
    }
    for _ in 0..50 {
        text.push(']');
    }
    text.push('}');
    let root = parse(&text).unwrap();
    assert_eq!(JsonWriter::write(root), text);
}

#[test]
fn equivalent_to_ignores_member_order() {
    let one = parse("{\"a\": \"1\", \"b\": [{\"x\": \"p\", \"y\": \"q\"}]}").unwrap();
    let two = parse("{\"b\": [{\"y\": \"q\", \"x\": \"p\"}], \"a\": \"1\"}").unwrap();
    assert!(one.equivalent_to(&two));
    assert!(two.equivalent_to(&one));
    assert!(one.equivalent_to(&one));
    assert_ne!(one, two);
}

#[test]
fn equivalent_to_tells_different_trees_apart() {
    let one = parse("{\"a\": \"1\", \"b\": [\"x\", \"y\"]}").unwrap();
    assert!(!one.equivalent_to(&parse("{\"a\": \"1\", \"b\": [\"y\", \"x\"]}").unwrap()));
    assert!(!one.equivalent_to(&parse("{\"a\": \"2\", \"b\": [\"x\", \"y\"]}").unwrap()));
    assert!(!one.equivalent_to(&parse("{\"a\": \"1\", \"c\": [\"x\", \"y\"]}").unwrap()));
    assert!(!one.equivalent_to(&parse("{\"a\": \"1\"}").unwrap()));
    assert!(!one.equivalent_to(&parse("{\"a\": \"1\", \"b\": [\"x\"]}").unwrap()));
    assert!(!one.equivalent_to(&JsonValue::Null));
    assert!(!string("a").equivalent_to(&string("b")));
    assert!(string("a").equivalent_to(&string("a")));
    assert!(JsonValue::Number(3).equivalent_to(&JsonValue::Number(3)));
    assert!(!JsonValue::Number(3).equivalent_to(&JsonValue::Number(4)));
    assert!(JsonValue::Boolean(true).equivalent_to(&JsonValue::Boolean(true)));
    assert!(!JsonValue::Boolean(true).equivalent_to(&JsonValue::Boolean(false)));
    assert!(JsonValue::Null.equivalent_to(&JsonValue::Null));
    assert!(!JsonValue::Null.equivalent_to(&JsonValue::Array(vec![])));
}

#[test]
fn written_tree_parses_to_an_equivalent_tree() {
    let tree = object(vec![
        ("k", JsonValue::Array(vec![string("v"), object(vec![("n", string("m"))])])),
        ("e", object(vec![])),
    ]);
    let back = parse(&JsonWriter::write(tree.clone())).unwrap();
    assert!(back.equivalent_to(&tree));
    assert_eq!(back, tree);
}
