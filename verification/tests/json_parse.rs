use codekata::json::{tokenize, JsonValue, ParseError, Parser, Token};

#[test]
fn tokenize_should_tokenize_brackets() {
    let mut expected: Vec<Token> = Vec::new();
    expected.push(Token::CurlyOpen);
    expected.push(Token::CurlyClose);

    let result = match tokenize("{}") {
        Ok(result) => result,
        Err(_err) => panic!("error at test"),
    };

    assert_eq!(result, expected);
}

#[test]
fn tokenize_should_tokenize_key_value() {
    let mut expected: Vec<Token> = Vec::new();
    expected.push(Token::CurlyOpen);
    expected.push(Token::String("key".to_string()));
    expected.push(Token::Colon);
    expected.push(Token::String("value".to_string()));
    expected.push(Token::CurlyClose);

    let result = match tokenize("{\"key\": \"value\"}") {
        Ok(result) => result,
        Err(_err) => panic!("error at test"),
    };

    assert_eq!(result, expected);
}

#[test]
fn tokenize_should_tokenize_key_value_comma() {
    let mut expected: Vec<Token> = Vec::new();
    expected.push(Token::CurlyOpen);
    expected.push(Token::String("key".to_string()));
    expected.push(Token::Colon);
    expected.push(Token::String("value".to_string()));
    expected.push(Token::Comma);
    expected.push(Token::CurlyClose);

    let result = match tokenize("{\"key\": \"value\",}") {
        Ok(result) => result,
        Err(_err) => panic!("error at test"),
    };

    assert_eq!(result, expected);
}

#[test]
fn tokenize_should_tokenize_empty_object() {
    let mut expected: Vec<Token> = Vec::new();
    expected.push(Token::CurlyOpen);
    expected.push(Token::String("key".to_string()));
    expected.push(Token::Colon);
    expected.push(Token::CurlyOpen);
    expected.push(Token::CurlyClose);
    expected.push(Token::CurlyClose);

    let result = match tokenize("{\"key\": {}}") {
        Ok(result) => result,
        Err(_err) => panic!("error at test"),
    };

    assert_eq!(result, expected);
}

#[test]
fn tokenize_should_tokenize_object() {
    let mut expected: Vec<Token> = Vec::new();
    expected.push(Token::CurlyOpen);
    expected.push(Token::String("key".to_string()));
    expected.push(Token::Colon);
    expected.push(Token::CurlyOpen);
    expected.push(Token::String("key".to_string()));
    expected.push(Token::Colon);
    expected.push(Token::String("value".to_string()));
    expected.push(Token::CurlyClose);
    expected.push(Token::CurlyClose);

    let result = match tokenize("{\"key\": {\"key\": \"value\"}}") {
        Ok(result) => result,
        Err(_err) => panic!("error at test"),
    };

    assert_eq!(result, expected);
}

#[test]
fn tokenize_should_tokenize_array() {
    let mut expected: Vec<Token> = Vec::new();
    expected.push(Token::CurlyOpen);
    expected.push(Token::String("key".to_string()));
    expected.push(Token::Colon);
    expected.push(Token::BracketOpen);
    expected.push(Token::BracketClose);
    expected.push(Token::CurlyClose);

    let result = match tokenize("{\"key\": []}") {
        Ok(result) => result,
        Err(_err) => panic!("error at test"),
    };

    assert_eq!(result, expected);
}

#[test]
fn tokenize_rejects_unquoted_words() {
    let result = tokenize("{x}");
    assert_eq!(
        result,
        Err(vec![ParseError::UnexpectedToken("}".to_string())])
    );
}

#[test]
fn parser_should_parse_empty_string() {
    let mut tokens: Vec<Token> = Vec::new();
    tokens.push(Token::CurlyOpen);
    tokens.push(Token::CurlyClose);

    let mut parser = Parser::new(tokens);

    let result = parser.parse();
    let expected = JsonValue::Object(Vec::new());

    assert_eq!(expected, result.expect("test parse empty gone wrong"));
}

#[test]
fn parser_should_parse_key_value() {
    let mut tokens: Vec<Token> = Vec::new();
    tokens.push(Token::CurlyOpen);
    tokens.push(Token::String("key".to_string()));
    tokens.push(Token::Colon);
    tokens.push(Token::String("value".to_string()));
    tokens.push(Token::CurlyClose);

    let mut parser = Parser::new(tokens);
    let map = vec![("key".to_string(), JsonValue::String("value".to_string()))];

    let result = parser.parse();
    let expected = JsonValue::Object(map);

    assert_eq!(expected, result.expect("test parse key value gone wrong"));
}

#[test]
fn parser_should_parse_key_empty_object() {
    let mut tokens: Vec<Token> = Vec::new();
    tokens.push(Token::CurlyOpen);
    tokens.push(Token::String("key".to_string()));
    tokens.push(Token::Colon);
    tokens.push(Token::CurlyOpen);
    tokens.push(Token::CurlyClose);
    tokens.push(Token::CurlyClose);

    let mut parser = Parser::new(tokens);
    let map = vec![("key".to_string(), JsonValue::Object(Vec::new()))];

    let result = parser.parse();
    let expected = JsonValue::Object(map);

    assert_eq!(expected, result.expect("test parse key object gone wrong"));
}

#[test]
fn parser_should_parse_key_populated_object() {
    let mut tokens: Vec<Token> = Vec::new();
    tokens.push(Token::CurlyOpen);
    tokens.push(Token::String("key".to_string()));
    tokens.push(Token::Colon);
    tokens.push(Token::CurlyOpen);
    tokens.push(Token::String("key".to_string()));
    tokens.push(Token::Colon);
    tokens.push(Token::String("value".to_string()));
    tokens.push(Token::CurlyClose);
    tokens.push(Token::CurlyClose);

    let mut parser = Parser::new(tokens);

    let child_1 = vec![("key".to_string(), JsonValue::String("value".to_string()))];
    let root = vec![("key".to_string(), JsonValue::Object(child_1))];

    let result = parser.parse();
    let expected = JsonValue::Object(root);

    assert_eq!(expected, result.expect("test parse key object gone wrong"));
}

#[test]
fn parser_rejects_input_not_starting_with_an_object() {
    let tokens = vec![Token::BracketOpen, Token::BracketClose];
    let mut parser = Parser::new(tokens);
    assert_eq!(
        parser.parse(),
        Err("JSON must begin with an object or array".to_string())
    );
}

// There is no test of arrays parsing: the parser rejects a bracket wherever an
// object expects a key, so an array after the opening brace is an error, which
// the next test pins on exactly that token stream.
#[test]
fn parser_rejects_an_array_in_key_position() {
    let tokens = vec![
        Token::CurlyOpen,
        Token::BracketOpen,
        Token::CurlyOpen,
        Token::String("key".to_string()),
        Token::Colon,
        Token::String("value".to_string()),
        Token::CurlyClose,
        Token::Comma,
        Token::CurlyOpen,
        Token::String("key".to_string()),
        Token::Colon,
        Token::String("value".to_string()),
        Token::CurlyClose,
        Token::BracketClose,
        Token::CurlyClose,
    ];
    let mut parser = Parser::new(tokens);
    assert_eq!(parser.parse(), Err("Invalid JSON!".to_string()));
}

#[test]
fn parser_rejects_a_stray_token_inside_an_object() {
    let tokens = vec![Token::CurlyOpen, Token::Colon];
    let mut parser = Parser::new(tokens);
    assert_eq!(parser.parse(), Err("Invalid JSON!".to_string()));
}

#[test]
fn parser_reports_running_out_of_tokens() {
    let tokens = vec![
        Token::CurlyOpen,
        Token::String("key".to_string()),
        Token::Colon,
    ];
    let mut parser = Parser::new(tokens);
    assert_eq!(parser.parse(), Err("no more tokens".to_string()));
}

#[test]
fn parser_keeps_the_later_binding_of_a_repeated_key() {
    let tokens = vec![
        Token::CurlyOpen,
        Token::String("key".to_string()),
        Token::Colon,
        Token::String("first".to_string()),
        Token::String("key".to_string()),
        Token::Colon,
        Token::String("second".to_string()),
        Token::CurlyClose,
    ];
    let mut parser = Parser::new(tokens);
    let expected = JsonValue::Object(vec![(
        "key".to_string(),
        JsonValue::String("second".to_string()),
    )]);
    assert_eq!(parser.parse(), Ok(expected));
}
