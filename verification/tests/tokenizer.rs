use jsontext::tokenizer::{tokenize, Keyword, TokenType, TokenizeError};

fn s(text: &str) -> String {
    text.to_string()
}

#[test]
fn tokenizer_try_parse() {
    let token_vec: Vec<TokenType> = vec![
        TokenType::CurlyBraceOpening,
        TokenType::String(s("id")),
        TokenType::Colon,
        TokenType::Number(s("15")),
        TokenType::Comma,
        TokenType::String(s("value")),
        TokenType::Colon,
        TokenType::String(s("some value")),
        TokenType::CurlyBraceClosing,
    ];

    let json = "{
            \"id\": 15,
            \"value\": \"some value\"
        }";

    let a = tokenize(json);
    assert_eq!(a, Ok(token_vec));
}

#[test]
fn try_parse_null() {
    let tokens: Vec<TokenType> = vec![TokenType::Null];

    let json = "null";

    let a = tokenize(json);
    assert_eq!(a, Ok(tokens))
}

#[test]
fn try_parse_true() {
    let tokens: Vec<TokenType> = vec![TokenType::True];

    let json = "true";

    let a = tokenize(json);
    assert_eq!(a, Ok(tokens))
}

#[test]
fn try_parse_false() {
    let tokens: Vec<TokenType> = vec![TokenType::False];

    let json = "false";

    let a = tokenize(json);
    assert_eq!(a, Ok(tokens))
}

#[test]
fn try_parse_string() {
    let tokens: Vec<TokenType> = vec![TokenType::String(s("teste"))];

    let json = "\"teste\"";

    let a = tokenize(json);
    assert_eq!(a, Ok(tokens))
}

#[test]
fn try_parse_number() {
    let tokens: Vec<TokenType> = vec![TokenType::Number(s("15"))];

    let json = "15";

    let a = tokenize(json);
    assert_eq!(a, Ok(tokens))
}

#[test]
fn whitespace_variants_tokenize_alike() {
    let spaced = tokenize(" [ null , 15 ] ");
    let tight = tokenize("[null,15]");
    let broken = tokenize("[\n\tnull,\r\n\t15\n]");
    assert_eq!(spaced, tight);
    assert_eq!(broken, tight);
    let expected = vec![
        TokenType::BracketOpening,
        TokenType::Null,
        TokenType::Comma,
        TokenType::Number(s("15")),
        TokenType::BracketClosing,
    ];
    assert_eq!(tight, Ok(expected));
}

#[test]
fn empty_input_has_no_tokens() {
    assert_eq!(tokenize(""), Ok(vec![]));
    assert_eq!(tokenize(" \t\r\n "), Ok(vec![]));
}

#[test]
fn number_grammar_accepted() {
    assert_eq!(
        tokenize("-2.5e+10"),
        Ok(vec![TokenType::Number(s("-2.5e+10"))])
    );
    assert_eq!(tokenize("0"), Ok(vec![TokenType::Number(s("0"))]));
    assert_eq!(tokenize("0.5"), Ok(vec![TokenType::Number(s("0.5"))]));
    assert_eq!(tokenize("12E3"), Ok(vec![TokenType::Number(s("12E3"))]));
}

#[test]
fn number_grammar_rejected() {
    assert_eq!(tokenize("015"), Err(TokenizeError::InvalidNumber));
    assert_eq!(tokenize("1."), Err(TokenizeError::InvalidNumber));
    assert_eq!(tokenize("1.5e"), Err(TokenizeError::InvalidNumber));
    assert_eq!(tokenize("--1"), Err(TokenizeError::InvalidNumber));
    assert_eq!(tokenize("-"), Err(TokenizeError::InvalidNumber));
}

#[test]
fn unterminated_string_rejected() {
    assert_eq!(tokenize("\"abc"), Err(TokenizeError::UnterminatedString));
    assert_eq!(tokenize("\""), Err(TokenizeError::UnterminatedString));
}

#[test]
fn misspelled_keywords_rejected() {
    assert_eq!(
        tokenize("nul"),
        Err(TokenizeError::InvalidLiteral(Keyword::Null))
    );
    assert_eq!(
        tokenize("trap"),
        Err(TokenizeError::InvalidLiteral(Keyword::True))
    );
    assert_eq!(
        tokenize("falsy"),
        Err(TokenizeError::InvalidLiteral(Keyword::False))
    );
}

#[test]
fn string_bodies_keep_every_character() {
    assert_eq!(
        tokenize("\"h\u{e9}llo w\u{f6}rld\""),
        Ok(vec![TokenType::String(s("h\u{e9}llo w\u{f6}rld"))])
    );
    assert_eq!(tokenize("\"a b\tc\""), Ok(vec![TokenType::String(s("a b\tc"))]));
}

#[test]
fn positions_count_characters() {
    assert_eq!(
        tokenize("\u{e9}"),
        Err(TokenizeError::UnexpectedCharacter('\u{e9}', 0))
    );
    assert_eq!(
        tokenize("[\"\u{e9}\u{e9}\", *]"),
        Err(TokenizeError::UnexpectedCharacter('*', 7))
    );
}

#[test]
fn unexpected_character_reported_with_position() {
    assert_eq!(
        tokenize("@"),
        Err(TokenizeError::UnexpectedCharacter('@', 0))
    );
    assert_eq!(
        tokenize("[null, #]"),
        Err(TokenizeError::UnexpectedCharacter('#', 7))
    );
}
