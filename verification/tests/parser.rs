use rs_parser::json::error::JsonParserError;
use rs_parser::json::lexer::Lexer;
use rs_parser::json::parser::JsonParser;
use rs_parser::json::value::JsonValue;

fn parse(source: &str) -> Result<JsonValue, JsonParserError> {
    let tokens = Lexer::tokenize(source)?;
    for t in tokens.clone() {
        println!("{}", t.display(source).to_string());
    }
    let mut parser = JsonParser::new(&tokens, source);
    parser.parse()
}

/// A number value holding the text that the float renders as.
fn number(n: f32) -> JsonValue {
    JsonValue::Number(n.to_string())
}

#[test]
fn parse_singlular_value() {
    let input: [&str; 5] = ["10", "true", "false", "null", "\"hello world\""];
    let values: [Result<JsonValue, JsonParserError>; 5] = [
        number(10.),
        JsonValue::True,
        JsonValue::False,
        JsonValue::Null,
        JsonValue::String(String::from("hello world")),
    ]
    .map(|item| Ok(item));
    for (s, expected) in input.iter().zip(values.iter()) {
        assert_eq!(&parse(s), expected);
    }
}

#[test]
fn parse_empty_values() {
    let input: [&str; 3] = ["\"\"", "[]", "{}"];
    let expected: [Result<JsonValue, JsonParserError>; 3] = [
        JsonValue::String(String::new()),
        JsonValue::Array(vec![]),
        JsonValue::Object(vec![]),
    ]
    .map(|item| Ok(item));
    for (s, expected) in input.iter().zip(expected.iter()) {
        assert_eq!(&parse(s), expected);
    }
}
