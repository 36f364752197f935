use rs_parser::json::traits::{Deserializer, Serializer};
use rs_parser::json::value::JsonValue;

/// A number value holding the text that the float renders as.
fn number(n: f32) -> JsonValue {
    JsonValue::Number(n.to_string())
}

fn single_values() -> JsonValue {
    JsonValue::Array(vec![
        number(1.),
        JsonValue::String(String::from("Hello world")),
        JsonValue::True,
        JsonValue::False,
        JsonValue::Null,
    ])
}

#[test]
fn test_serialize_single_value() {
    assert_eq!(JsonValue::Null.serialize().unwrap(), String::from("null"));
    assert_eq!(JsonValue::True.serialize().unwrap(), String::from("true"));
    assert_eq!(JsonValue::False.serialize().unwrap(), String::from("false"));
    assert_eq!(
        JsonValue::String(String::from("Hello world"))
            .serialize()
            .unwrap(),
        String::from("\"Hello world\"")
    );
    assert_eq!(number(3.14).serialize().unwrap(), String::from("3.14"));
}

#[test]
fn test_array_of_single_value() {
    assert_eq!(
        single_values().serialize().unwrap(),
        String::from("[1,\"Hello world\",true,false,null]")
    );
}

#[test]
fn test_array_of_complex_value() {
    assert_eq!(
        JsonValue::Array(vec![single_values(), single_values()])
            .serialize()
            .unwrap(),
        String::from("[[1,\"Hello world\",true,false,null],[1,\"Hello world\",true,false,null]]")
    );
}

#[test]
fn test_object_of_complex_value() {
    let value = JsonValue::Object(vec![
        (String::from("key1"), single_values()),
        (String::from("key2"), single_values()),
    ]);
    let serialized = JsonValue::Object(vec![
        (String::from("key1"), single_values()),
        (String::from("key2"), single_values()),
    ])
    .serialize()
    .unwrap();
    assert_eq!(JsonValue::deserializer(&serialized).unwrap(), value);
}
