use jsontext::parser::{parse, JsonValue, ParseError};
use jsontext::tokenizer::{tokenize, TokenType};

fn s(text: &str) -> String {
    text.to_string()
}

fn pipeline(json: &str) -> Result<JsonValue, ParseError> {
    parse(tokenize(json).expect("tokenization should succeed"))
}

#[test]
fn parser_try_parse() {
    let token_vec: Vec<TokenType> = vec![
        TokenType::BracketOpening,
        TokenType::Null,
        TokenType::Comma,
        TokenType::Number(s("15")),
        TokenType::Comma,
        TokenType::True,
        TokenType::BracketClosing,
    ];

    let a = parse(token_vec);
    let b = JsonValue::Array(vec![
        JsonValue::Null,
        JsonValue::Number(s("15")),
        JsonValue::Boolean(true),
    ]);
    assert_eq!(a, Ok(b));
}

#[test]
fn try_parse_with_trailing_comma() {
    let token_vec: Vec<TokenType> = vec![
        TokenType::BracketOpening,
        TokenType::Null,
        TokenType::Comma,
        TokenType::BracketClosing,
    ];

    let a = parse(token_vec);
    let b = JsonValue::Array(vec![JsonValue::Null]);
    assert_eq!(a, Ok(b));
}

#[test]
fn literals_round_trip() {
    assert_eq!(pipeline("null"), Ok(JsonValue::Null));
    assert_eq!(pipeline("true"), Ok(JsonValue::Boolean(true)));
    assert_eq!(pipeline("false"), Ok(JsonValue::Boolean(false)));
}

#[test]
fn number_round_trip() {
    assert_eq!(pipeline("15"), Ok(JsonValue::Number(s("15"))));
}

#[test]
fn array_with_trailing_comma_accepted() {
    assert_eq!(
        pipeline("[null,]"),
        Ok(JsonValue::Array(vec![JsonValue::Null]))
    );
}

#[test]
fn array_without_trailing_comma() {
    assert_eq!(
        pipeline("[null,15,true]"),
        Ok(JsonValue::Array(vec![
            JsonValue::Null,
            JsonValue::Number(s("15")),
            JsonValue::Boolean(true),
        ]))
    );
}

#[test]
fn double_trailing_comma_rejected() {
    assert_eq!(pipeline("[null,,]"), Err(ParseError::UnexpectedToken));
}

#[test]
fn object_round_trip() {
    let json = "{\"id\":15,\"value\":\"some value\"}";
    let tokens = tokenize(json).expect("tokenization should succeed");
    assert_eq!(
        tokens,
        vec![
            TokenType::CurlyBraceOpening,
            TokenType::String(s("id")),
            TokenType::Colon,
            TokenType::Number(s("15")),
            TokenType::Comma,
            TokenType::String(s("value")),
            TokenType::Colon,
            TokenType::String(s("some value")),
            TokenType::CurlyBraceClosing,
        ]
    );
    assert_eq!(
        parse(tokens),
        Ok(JsonValue::Object(vec![
            (s("id"), JsonValue::Number(s("15"))),
            (s("value"), JsonValue::String(s("some value"))),
        ]))
    );
}

#[test]
fn unterminated_structures_rejected() {
    assert_eq!(pipeline("[1,2"), Err(ParseError::UnterminatedArray));
    assert_eq!(pipeline("{\"a\":1"), Err(ParseError::UnterminatedObject));
}

#[test]
fn empty_structures() {
    assert_eq!(pipeline("[]"), Ok(JsonValue::Array(vec![])));
    assert_eq!(pipeline("{}"), Ok(JsonValue::Object(vec![])));
    assert_eq!(
        pipeline("[[],{}]"),
        Ok(JsonValue::Array(vec![
            JsonValue::Array(vec![]),
            JsonValue::Object(vec![]),
        ]))
    );
}

#[test]
fn object_with_trailing_comma_accepted() {
    assert_eq!(
        pipeline("{\"a\":1,}"),
        Ok(JsonValue::Object(vec![(s("a"), JsonValue::Number(s("1")))]))
    );
}

#[test]
fn later_duplicate_key_wins() {
    assert_eq!(
        pipeline("{\"a\":1,\"a\":2}"),
        Ok(JsonValue::Object(vec![(s("a"), JsonValue::Number(s("2")))]))
    );
}

#[test]
fn nested_values() {
    assert_eq!(
        pipeline("{\"xs\":[1,{\"y\":null}]}"),
        Ok(JsonValue::Object(vec![(
            s("xs"),
            JsonValue::Array(vec![
                JsonValue::Number(s("1")),
                JsonValue::Object(vec![(s("y"), JsonValue::Null)]),
            ])
        )]))
    );
}

#[test]
fn empty_token_stream_rejected() {
    assert_eq!(parse(vec![]), Err(ParseError::UnexpectedEndOfInput));
    assert_eq!(pipeline("   "), Err(ParseError::UnexpectedEndOfInput));
}

#[test]
fn trailing_tokens_rejected() {
    assert_eq!(pipeline("null null"), Err(ParseError::TrailingTokens));
    assert_eq!(pipeline("[] 1"), Err(ParseError::TrailingTokens));
}

#[test]
fn missing_separators_rejected() {
    assert_eq!(pipeline("[null 15]"), Err(ParseError::ExpectedCommaOrBracket));
    assert_eq!(
        pipeline("{\"a\":1 \"b\":2}"),
        Err(ParseError::ExpectedCommaOrBrace)
    );
}

#[test]
fn bad_object_keys_rejected() {
    assert_eq!(pipeline("{5:1}"), Err(ParseError::ExpectedStringKey));
    assert_eq!(pipeline("{\"a\" 1}"), Err(ParseError::UnexpectedToken));
}

#[test]
fn value_cannot_start_with_closing_token() {
    assert_eq!(pipeline("]"), Err(ParseError::UnexpectedToken));
    assert_eq!(pipeline(","), Err(ParseError::UnexpectedToken));
}
