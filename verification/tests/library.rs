use rs_parser::cli::{process_source, AppError, InputFormat, Opts};
use rs_parser::json::error::JsonParserError;
use rs_parser::json::lexer::Lexer;
use rs_parser::json::token::{JsonToken, JsonTokenKind, Span};
use rs_parser::json::traits::{Deserializer, Serializer};
use rs_parser::json::value::JsonValue;
use rs_parser::json::{json_dumps, json_load};
use rs_parser::source::Source;
use rs_parser::text::{append_decimal, str_equal, string_from};

fn num(text: &str) -> JsonValue {
    JsonValue::Number(String::from(text))
}

fn string(text: &str) -> JsonValue {
    JsonValue::String(String::from(text))
}

fn lexical(msg: &str) -> JsonParserError {
    JsonParserError::LexicalError(String::from(msg))
}

fn parser(msg: &str) -> JsonParserError {
    JsonParserError::ParserError(String::from(msg))
}

fn sample() -> JsonValue {
    JsonValue::Object(vec![
        (String::from("name"), string("rs parser")),
        (
            String::from("list"),
            JsonValue::Array(vec![num("1"), num("-2.5e+3"), JsonValue::Null]),
        ),
        (String::from("flags"), JsonValue::Array(vec![JsonValue::True, JsonValue::False])),
        (String::from("empty"), JsonValue::Object(vec![])),
        (String::from("escaped"), string("a\\\"b\\u00e9\\n")),
    ])
}

// Loading: scenarios of the grammar.

#[test]
fn load_array_of_numbers() {
    assert_eq!(
        json_load("[1, 2]"),
        Ok(JsonValue::Array(vec![num("1"), num("2")]))
    );
}

#[test]
fn load_nested_values() {
    assert_eq!(
        json_load("{\"a\": [true, {\"b\": null}], \"c\": \"d\"}"),
        Ok(JsonValue::Object(vec![
            (
                String::from("a"),
                JsonValue::Array(vec![
                    JsonValue::True,
                    JsonValue::Object(vec![(String::from("b"), JsonValue::Null)]),
                ])
            ),
            (String::from("c"), string("d")),
        ]))
    );
}

#[test]
fn load_keeps_number_text() {
    assert_eq!(json_load("-0.5E-7"), Ok(num("-0.5E-7")));
    assert_eq!(json_load("9"), Ok(num("9")));
    assert_eq!(json_load("1.5e+3"), Ok(num("1.5e+3")));
}

#[test]
fn load_keeps_escapes_of_strings() {
    assert_eq!(json_load("\"a\\u00e9\\n\""), Ok(string("a\\u00e9\\n")));
    assert_eq!(json_load("\"h\u{e9}llo\""), Ok(string("h\u{e9}llo")));
}

#[test]
fn load_object_later_key_wins() {
    assert_eq!(
        json_load("{\"a\": 1, \"b\": 2, \"a\": 3}"),
        Ok(JsonValue::Object(vec![
            (String::from("a"), num("3")),
            (String::from("b"), num("2")),
        ]))
    );
}

#[test]
fn load_rejects_trailing_comma() {
    assert_eq!(json_load("[null,]"), Err(parser("Unexpected token, position is 0")));
    assert_eq!(
        json_load("{\"a\": null,}"),
        Err(parser("Unexpected token, expect String but RBrace"))
    );
}

#[test]
fn load_rejects_trailing_tokens() {
    assert_eq!(json_load("null null"), Err(parser("Unexpected token, expect Stop but Null")));
    assert_eq!(json_load("[] ]"), Err(parser("Unexpected token, expect Stop but RBracket")));
    assert_eq!(json_load("true,"), Err(parser("Unexpected token, expect Stop but Comma")));
}

#[test]
fn load_rejects_pair_without_value() {
    assert_eq!(json_load("[{\"a\":}}]"), Err(parser("Unexpected token, position is 0")));
}

#[test]
fn load_empty_containers() {
    assert_eq!(json_load("[ ]"), Ok(JsonValue::Array(vec![])));
    assert_eq!(json_load("{ }"), Ok(JsonValue::Object(vec![])));
    assert_eq!(
        json_load("[[], {}]"),
        Ok(JsonValue::Array(vec![JsonValue::Array(vec![]), JsonValue::Object(vec![])]))
    );
}

// Loading: each error.

#[test]
fn load_empty_text() {
    assert_eq!(json_load(""), Err(parser("json is empty")));
    assert_eq!(json_load(" \n\t\r "), Err(parser("json is empty")));
}

#[test]
fn load_lexical_errors() {
    assert_eq!(json_load("@"), Err(lexical("invalid character")));
    assert_eq!(json_load("tru"), Err(lexical("invalid literal")));
    assert_eq!(json_load("nul"), Err(lexical("invalid literal")));
    assert_eq!(json_load("\"abc"), Err(lexical("invalid string")));
    assert_eq!(json_load("\"a\\x\""), Err(lexical("invalid string")));
    assert_eq!(json_load("\"a\nb\""), Err(lexical("invalid string")));
}

#[test]
fn load_invalid_numbers() {
    for text in ["01", "-01", "1.", "-", "1e", "1e+", ".5", "1.2.3", "1-2", "1x", "+1"] {
        let expected = if text == "+1" {
            Err(lexical("invalid character"))
        } else if text == ".5" {
            Err(lexical("invalid character"))
        } else {
            Err(lexical("invalid number"))
        };
        assert_eq!(json_load(text), expected, "text {:?}", text);
    }
}

#[test]
fn load_parser_errors() {
    assert_eq!(json_load(":"), Err(parser("Unexpected token, position is 0")));
    assert_eq!(
        json_load("[1"),
        Err(parser("[JsonParser.next_token] Index is out of range"))
    );
    assert_eq!(
        json_load("{"),
        Err(parser("[JsonParser.next_token] Index is out of range"))
    );
    assert_eq!(
        json_load("{\"a\" 1}"),
        Err(parser("Unexpected token, expect RBrace but Number"))
    );
    assert_eq!(
        json_load("[1 2]"),
        Err(parser("Unexpected token, expect RBracket but Number"))
    );
}

#[test]
fn load_reports_the_first_error_met() {
    assert_eq!(
        json_load("[[1"),
        Err(parser("Unexpected token, expect RBracket but Number"))
    );
    assert_eq!(
        json_load("[:]"),
        Err(parser("Unexpected token, expect RBracket but Colon"))
    );
}

// Building objects.

#[test]
fn object_refuses_a_repeated_key() {
    let members = vec![
        (String::from("a"), num("1")),
        (String::from("b"), JsonValue::Null),
        (String::from("a"), num("2")),
    ];
    assert_eq!(JsonValue::object(members), None);
    let value = JsonValue::object(vec![
        (String::from("a"), num("1")),
        (String::from("b"), JsonValue::Null),
    ])
    .unwrap();
    assert_eq!(
        value,
        JsonValue::Object(vec![(String::from("a"), num("1")), (String::from("b"), JsonValue::Null)])
    );
    assert_eq!(json_load(&json_dumps(&value).unwrap()), Ok(value));
    assert_eq!(JsonValue::object(vec![]), Some(JsonValue::Object(vec![])));
}

// Dumping and the round trip.

#[test]
fn dump_sample() {
    assert_eq!(
        json_dumps(&sample()),
        Ok(String::from(
            "{\"name\":\"rs parser\",\"list\":[1,-2.5e+3,null],\"flags\":[true,false],\"empty\":{},\"escaped\":\"a\\\"b\\u00e9\\n\"}"
        ))
    );
}

#[test]
fn serialize_object() {
    let value = JsonValue::Object(vec![
        (String::from("a"), num("1")),
        (String::from("b"), JsonValue::Array(vec![])),
    ]);
    assert_eq!(value.serialize(), Ok(String::from("{\"a\": 1,\"b\": []}")));
}

#[test]
fn dumped_text_loads_back() {
    let text = json_dumps(&sample()).unwrap();
    assert_eq!(json_load(&text), Ok(sample()));
}

#[test]
fn serialized_text_loads_back() {
    let text = sample().serialize().unwrap();
    assert_eq!(json_load(&text), Ok(sample()));
}

#[test]
fn loaded_value_dumps_back() {
    let source = " {\"a\": [1, \"x\\u0041\\\"\", {\"b\": null}], \"a\": true, \"c\": -0.5e3} ";
    let value = json_load(source).unwrap();
    assert_eq!(
        value,
        JsonValue::Object(vec![
            (String::from("a"), JsonValue::True),
            (String::from("c"), num("-0.5e3")),
        ])
    );
    let text = json_dumps(&value).unwrap();
    assert_eq!(text, String::from("{\"a\":true,\"c\":-0.5e3}"));
    assert_eq!(json_load(&text), Ok(value));
    let nested = json_load("[\"x\\u0041\\\"\", [[]], {}]").unwrap();
    assert_eq!(json_load(&json_dumps(&nested).unwrap()), Ok(nested));
}

#[test]
fn duplicate_keys_do_not_load_back() {
    let value = JsonValue::Object(vec![
        (String::from("a"), num("1")),
        (String::from("a"), num("2")),
    ]);
    let text = json_dumps(&value).unwrap();
    assert_eq!(
        json_load(&text),
        Ok(JsonValue::Object(vec![(String::from("a"), num("2"))]))
    );
}

#[test]
fn unescaped_quote_does_not_load_back() {
    let text = json_dumps(&string("a\"b")).unwrap();
    assert_eq!(text, String::from("\"a\"b\""));
    assert_eq!(json_load(&text), Err(lexical("invalid character")));
}

// The lexer.

#[test]
fn tokens_follow_the_text() {
    let source = " [ \"ab\" , 10 ] ";
    let tokens = Lexer::tokenize(source).unwrap();
    let kinds: Vec<JsonTokenKind> = tokens.iter().map(|t| t.kind).collect();
    assert_eq!(
        kinds,
        vec![
            JsonTokenKind::LBracket,
            JsonTokenKind::String,
            JsonTokenKind::Comma,
            JsonTokenKind::Number,
            JsonTokenKind::RBracket,
        ]
    );
    for pair in tokens.windows(2) {
        assert!(pair[0].span.start < pair[0].span.end);
        assert!(pair[0].span.end <= pair[1].span.start);
    }
    assert_eq!(tokens[1].span, Span { start: 3, end: 7 });
    assert_eq!(tokens[4].span, Span { start: 13, end: 14 });
}

#[test]
fn whitespace_prefix_shifts_tokens() {
    for text in ["[1, \"a\"]", "{\"k\": null}", "true", ""] {
        let plain = Lexer::tokenize(text).unwrap();
        for w in [" ", "\t", "\n", "\r"] {
            let padded = Lexer::tokenize(&format!("{}{}", w, text)).unwrap();
            let shifted: Vec<JsonToken> = plain
                .iter()
                .map(|t| JsonToken {
                    kind: t.kind,
                    span: Span { start: t.span.start + 1, end: t.span.end + 1 },
                })
                .collect();
            assert_eq!(padded, shifted, "text {:?}", text);
        }
    }
    assert_eq!(Lexer::tokenize(" @"), Lexer::tokenize("@"));
}

#[test]
fn next_token_stops_at_the_end() {
    let mut lexer = Lexer::new("1");
    assert_eq!(
        lexer.next_token(),
        Ok(JsonToken { kind: JsonTokenKind::Number, span: Span { start: 0, end: 1 } })
    );
    let stop = JsonToken { kind: JsonTokenKind::Stop, span: Span { start: 1, end: 2 } };
    assert_eq!(lexer.next_token(), Ok(stop));
    assert_eq!(lexer.next_token(), Ok(stop));
}

#[test]
fn next_token_keeps_position_on_error() {
    let mut lexer = Lexer::new("@1");
    assert_eq!(lexer.next_token(), Err(lexical("invalid character")));
    assert_eq!(lexer.next_token(), Err(lexical("invalid character")));
}

#[test]
fn number_running_into_non_ascii_is_invalid() {
    assert_eq!(json_load("1\u{e9}"), Err(lexical("invalid number")));
    assert_eq!(Lexer::tokenize("[true, -\u{20ac}]"), Err(lexical("invalid number")));
    assert_eq!(Lexer::tokenize("12\u{1f642}"), Err(lexical("invalid number")));
    let mut lexer = Lexer::new("1\u{e9}");
    assert_eq!(lexer.next_token(), Err(lexical("invalid number")));
    assert_eq!(lexer.next_token(), Err(lexical("invalid number")));
}

#[test]
fn token_display() {
    let source = "[\"h\u{e9}\"]";
    let token = JsonToken { kind: JsonTokenKind::String, span: Span { start: 1, end: 6 } };
    assert_eq!(
        token.display(source).to_string(),
        String::from("<kind=String, start=1, end=6, content=\"h\u{e9}\"")
    );
    let inside = JsonToken { kind: JsonTokenKind::String, span: Span { start: 4, end: 6 } };
    assert_eq!(
        inside.display(source).to_string(),
        String::from("<kind=String, start=4, end=6, content=")
    );
    assert_eq!(JsonTokenKind::RBrace.name(), "RBrace");
}

// Errors and the command-line logic.

#[test]
fn error_texts() {
    assert_eq!(lexical("x").to_string(), String::from("lexical error: x"));
    assert_eq!(parser("y").to_string(), String::from("parse error: y"));
    assert_eq!(
        JsonParserError::SerializeError(String::from("z")).to_string(),
        String::from("serialize error: z")
    );
    assert_eq!(
        JsonParserError::DeserializeError(String::from("w")).to_string(),
        String::from("deserialize error: w")
    );
    assert_eq!(JsonParserError::lexical("m"), lexical("m"));
    assert_eq!(JsonParserError::parser("m"), parser("m"));
}

#[test]
fn deserializer_reads_the_value() {
    assert_eq!(
        JsonValue::deserializer("[1, 2]"),
        Ok(JsonValue::Array(vec![num("1"), num("2")]))
    );
    assert_eq!(
        JsonValue::deserializer("[1"),
        Err(parser("[JsonParser.next_token] Index is out of range"))
    );
    assert_eq!(
        JsonValue::deserializer("@"),
        Err(parser("lexical error: invalid character"))
    );
}

#[test]
fn input_format_names() {
    assert_eq!(InputFormat::from_str("json").unwrap(), InputFormat::JSON);
    assert_eq!(InputFormat::from_str("auto").unwrap(), InputFormat::AUTO);
    assert!(matches!(InputFormat::from_str("xml"), Err(AppError::InvalidFormat)));
}

#[test]
fn options_validation() {
    let stdin_auto = Opts { input: String::from("-"), format: InputFormat::AUTO };
    assert!(stdin_auto.validate().is_ok());
    let file_json = Opts { input: String::from("a.json"), format: InputFormat::JSON };
    assert!(file_json.validate().is_ok());
    let file_auto = Opts { input: String::from("a.json"), format: InputFormat::AUTO };
    assert!(matches!(file_auto.validate(), Err(AppError::InvalidFormat)));
}

#[test]
fn process_source_results() {
    assert_eq!(process_source("[null]").unwrap(), JsonValue::Array(vec![JsonValue::Null]));
    match process_source("[") {
        Err(AppError::ParseError(m)) => assert_eq!(
            m,
            String::from("parse error: [JsonParser.next_token] Index is out of range")
        ),
        other => panic!("unexpected {:?}", other),
    }
    assert_eq!(
        AppError::ParseError(String::from("m")).to_string(),
        String::from("parse error: m")
    );
    assert_eq!(AppError::InvalidInput.to_string(), String::from("invalid input"));
    assert_eq!(AppError::InvalidFormat.to_string(), String::from("invalid format"));
}

// The text helpers.

#[test]
fn source_characters_and_slices() {
    let source = Source::new("h\u{e9}llo");
    assert_eq!(source.len(), 6);
    assert_eq!(source.char_at(0), Some('h'));
    assert_eq!(source.char_at(1), Some('\u{e9}'));
    assert_eq!(source.char_at(2), None);
    assert_eq!(source.char_at(6), None);
    assert_eq!(source.slice(0, 3), Some("h\u{e9}"));
    assert_eq!(source.slice(0, 2), None);
    assert_eq!(source.slice(4, 3), None);
    assert_eq!(source.slice(6, 7), None);
    assert_eq!(source.as_bytes()[0], b'h');
}

#[test]
fn text_helpers() {
    let mut out = string_from("n=");
    append_decimal(&mut out, 0);
    append_decimal(&mut out, 9071);
    assert_eq!(out, String::from("n=09071"));
    assert!(str_equal("abc", "abc"));
    assert!(!str_equal("abc", "abd"));
}
