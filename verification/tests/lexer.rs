use rs_parser::json::error::JsonParserError;
use rs_parser::json::lexer::Lexer;
use rs_parser::json::token::{JsonToken, JsonTokenKind, Span};

fn run(source: &str) -> Result<Vec<JsonToken>, JsonParserError> {
    let tokens = Lexer::tokenize(source)?;
    for token in tokens.clone() {
        println!("{}", token.display(source).to_string());
    }

    Ok(tokens)
}

fn tok(kind: JsonTokenKind, start: usize, end: usize) -> JsonToken {
    JsonToken {
        kind,
        span: Span { start, end },
    }
}

fn kinds(tokens: &[JsonToken]) -> Vec<JsonTokenKind> {
    tokens.iter().map(|t| t.kind.clone()).collect()
}

#[test]
fn structural_characters() {
    let input: [&str; 6] = ["{", "}", "[", "]", ":", ","];
    let expected: [JsonTokenKind; 6] = [
        JsonTokenKind::LBrace,
        JsonTokenKind::RBrace,
        JsonTokenKind::LBracket,
        JsonTokenKind::RBracket,
        JsonTokenKind::Colon,
        JsonTokenKind::Comma,
    ];
    for (s, kind) in input.iter().zip(expected.iter()) {
        assert_eq!(
            run(s),
            Ok(vec![tok(kind.clone(), 0, s.len())]),
            "structural {:?}",
            s
        );
    }
}

#[test]
fn whitespace_is_insignificant() {
    let input: [&str; 5] = ["", " ", "\t", "\n", "\r"];
    for s in input {
        assert_eq!(run(s), Ok(vec![]), "whitespace {:?}", s);
    }

    let padded: [&str; 4] = ["  true  ", "\tfalse\t", "\nnull\n", "\r1\r"];
    let expected_kinds: [JsonTokenKind; 4] = [
        JsonTokenKind::True,
        JsonTokenKind::False,
        JsonTokenKind::Null,
        JsonTokenKind::Number,
    ];
    for (s, kind) in padded.iter().zip(expected_kinds.iter()) {
        let tokens = run(s).expect("should lex");
        assert_eq!(kinds(&tokens), vec![kind.clone()], "padded {:?}", s);
    }
}

#[test]
fn literals() {
    let input: [&str; 3] = ["true", "false", "null"];
    let expected: [JsonToken; 3] = [
        tok(JsonTokenKind::True, 0, 4),
        tok(JsonTokenKind::False, 0, 5),
        tok(JsonTokenKind::Null, 0, 4),
    ];
    for (s, expected) in input.iter().zip(expected.iter()) {
        assert_eq!(&run(s), &Ok(vec![expected.clone()]));
    }
}

#[test]
fn incomplete_or_invalid_literals_are_errors() {
    let input: [&str; 9] = [
        "tru", "tr", "t", "fals", "fal", "nul", "nu", "TRUE", "False",
    ];
    for s in input {
        assert!(run(s).is_err(), "expected lexical error for {:?}", s);
    }
}

#[test]
fn strings_valid() {
    let cases: [(&str, usize, usize); 6] = [
        ("\"\"", 0, 2),
        ("\"hello\"", 0, 7),
        ("\" \"", 0, 3),
        ("\"\\\"\"", 0, 4),
        ("\"\\\\\"", 0, 4),
        ("\"\\n\\t\\r\\b\\f\\/\"", 0, 14),
    ];
    for (s, start, end) in cases {
        assert_eq!(
            run(s),
            Ok(vec![tok(JsonTokenKind::String, start, end)]),
            "string {:?}",
            s
        );
    }
}

#[test]
fn strings_unicode_escape() {
    let input = "\"\\u0041\"";
    assert_eq!(
        run(input),
        Ok(vec![tok(JsonTokenKind::String, 0, input.len())])
    );
    let input = "\"\\uD83D\\uDE00\"";
    assert_eq!(
        run(input),
        Ok(vec![tok(JsonTokenKind::String, 0, input.len())])
    );
}

#[test]
fn strings_raw_unicode() {
    let cases: [&str; 5] = ["\"é\"", "\"€\"", "\"🙂\"", "\"café\"", "\"é\\n🙂\""];
    for s in cases {
        assert_eq!(
            run(s),
            Ok(vec![tok(JsonTokenKind::String, 0, s.len())]),
            "string {:?}",
            s
        );
    }
}

#[test]
fn unicode_string_keeps_following_byte_spans() {
    let input = "\"é\",1";
    assert_eq!(
        run(input),
        Ok(vec![
            tok(JsonTokenKind::String, 0, 4),
            tok(JsonTokenKind::Comma, 4, 5),
            tok(JsonTokenKind::Number, 5, 6),
        ])
    );

    let input = "{\"a\":\"é\"}";
    assert_eq!(
        run(input),
        Ok(vec![
            tok(JsonTokenKind::LBrace, 0, 1),
            tok(JsonTokenKind::String, 1, 4),
            tok(JsonTokenKind::Colon, 4, 5),
            tok(JsonTokenKind::String, 5, 9),
            tok(JsonTokenKind::RBrace, 9, 10),
        ])
    );

    let input = "[\"🙂\"]";
    assert_eq!(
        run(input),
        Ok(vec![
            tok(JsonTokenKind::LBracket, 0, 1),
            tok(JsonTokenKind::String, 1, 7),
            tok(JsonTokenKind::RBracket, 7, 8),
        ])
    );
}

#[test]
fn raw_unicode_outside_string_is_error() {
    let input: [&str; 4] = ["é", "€", "🙂", "\u{00A0}1"];
    for s in input {
        assert!(run(s).is_err(), "expected lexical error for {:?}", s);
    }
}

#[test]
fn unescaped_controls_are_errors() {
    for ch in '\u{0000}'..='\u{001F}' {
        let input = format!("\"{ch}\"");
        assert!(
            run(&input).is_err(),
            "expected lexical error for U+{:04X}",
            u32::from(ch)
        );
    }

    let embedded: [&str; 3] = ["\"a\rb\"", "\"é\u{0001}\"", "\"\u{001F}x\""];
    for s in embedded {
        assert!(run(s).is_err(), "expected lexical error for {:?}", s);
    }
}

#[test]
fn escaped_controls_are_strings() {
    let cases: [&str; 6] = [
        "\"\\u0000\"",
        "\"\\u0001\"",
        "\"\\u001F\"",
        "\"\\n\"",
        "\"\\r\"",
        "\"\\t\"",
    ];
    for s in cases {
        assert_eq!(
            run(s),
            Ok(vec![tok(JsonTokenKind::String, 0, s.len())]),
            "escaped {:?}",
            s
        );
    }
}

#[test]
fn strings_invalid_are_errors() {
    let input: [&str; 8] = [
        "\"",
        "\"abc",
        "\"\\x\"",
        "\"\\u\"",
        "\"\\u12\"",
        "\"\\uZZZZ\"",
        "\"\n\"",
        "\"\t\"",
    ];
    for s in input {
        assert!(run(s).is_err(), "expected lexical error for {:?}", s);
    }
}

#[test]
fn numbers_valid() {
    let input: [&str; 15] = [
        "0", "1", "10", "100", "123", "-0", "-1", "-10", "0.1", "3.14", "10.0", "1e2", "1E2",
        "1e+2", "1e-2",
    ];
    for s in input {
        assert_eq!(
            run(s),
            Ok(vec![tok(JsonTokenKind::Number, 0, s.len())]),
            "number {:?}",
            s
        );
    }
}

#[test]
fn numbers_with_fraction_and_exponent() {
    let input: [&str; 4] = ["1.2e3", "1.2E+3", "-1.2e-3", "0.0e0"];
    for s in input {
        assert_eq!(
            run(s),
            Ok(vec![tok(JsonTokenKind::Number, 0, s.len())]),
            "number {:?}",
            s
        );
    }
}

#[test]
fn numbers_invalid_are_errors() {
    let input: [&str; 14] = [
        "+", "+1", "01", "-01", "1.", ".1", "-.1", "1e", "1e+", "1e-", "--1", "1.2.3", "1ee2",
        "0x1",
    ];
    for s in input {
        assert!(run(s).is_err(), "expected lexical error for {:?}", s);
    }
}

#[test]
fn number_then_structural() {
    let cases: [(&str, &[JsonTokenKind]); 3] = [
        ("10,", &[JsonTokenKind::Number, JsonTokenKind::Comma]),
        ("10]", &[JsonTokenKind::Number, JsonTokenKind::RBracket]),
        ("10}", &[JsonTokenKind::Number, JsonTokenKind::RBrace]),
    ];
    for (s, expected) in cases {
        let tokens = run(s).expect("should lex");
        assert_eq!(kinds(&tokens), expected, "source {:?}", s);
        assert_eq!(tokens[0].span, Span { start: 0, end: 2 });
    }
}

#[test]
fn array_tokens() {
    let input = "[1,2,true,false,null,\"x\"]";
    let tokens = run(input).expect("should lex");
    assert_eq!(
        kinds(&tokens),
        vec![
            JsonTokenKind::LBracket,
            JsonTokenKind::Number,
            JsonTokenKind::Comma,
            JsonTokenKind::Number,
            JsonTokenKind::Comma,
            JsonTokenKind::True,
            JsonTokenKind::Comma,
            JsonTokenKind::False,
            JsonTokenKind::Comma,
            JsonTokenKind::Null,
            JsonTokenKind::Comma,
            JsonTokenKind::String,
            JsonTokenKind::RBracket,
        ]
    );
}

#[test]
fn object_tokens() {
    let input = "{\"a\":1,\"b\":true}";
    let tokens = run(input).expect("should lex");
    assert_eq!(
        kinds(&tokens),
        vec![
            JsonTokenKind::LBrace,
            JsonTokenKind::String,
            JsonTokenKind::Colon,
            JsonTokenKind::Number,
            JsonTokenKind::Comma,
            JsonTokenKind::String,
            JsonTokenKind::Colon,
            JsonTokenKind::True,
            JsonTokenKind::RBrace,
        ]
    );
}

#[test]
fn nested_structure_tokens() {
    let input = "{\"arr\":[1,{\"k\":null}]}";
    let tokens = run(input).expect("should lex");
    assert_eq!(
        kinds(&tokens),
        vec![
            JsonTokenKind::LBrace,
            JsonTokenKind::String,
            JsonTokenKind::Colon,
            JsonTokenKind::LBracket,
            JsonTokenKind::Number,
            JsonTokenKind::Comma,
            JsonTokenKind::LBrace,
            JsonTokenKind::String,
            JsonTokenKind::Colon,
            JsonTokenKind::Null,
            JsonTokenKind::RBrace,
            JsonTokenKind::RBracket,
            JsonTokenKind::RBrace,
        ]
    );
}

#[test]
fn unknown_characters_are_errors() {
    let input: [&str; 6] = ["@", "#", "'abc'", "NaN", "Infinity", "-Infinity"];
    for s in input {
        assert!(run(s).is_err(), "expected lexical error for {:?}", s);
    }
}

#[test]
fn literals_must_be_complete_tokens() {
    let input: [&str; 3] = ["truex", "falsey", "nullable"];
    for s in input {
        assert!(run(s).is_err(), "expected lexical error for {:?}", s);
    }
}
