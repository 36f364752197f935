use vstd::prelude::*;
use vstd::string::StringSliceAdditionalSpecFns;

use crate::json::error::{JsonErrorView, JsonParserError};
use crate::json::lexer::{spec_tokenize, Lexer};
use crate::json::parser::{
    parser_result, spec_parse, value_result_view, JsonParser,
};
use crate::json::value::{spec_render, JsonData, JsonValue};
use crate::text::string_from;

verus! {

/// Turns a value into text.
pub trait Serializer: Sized {
    fn serialize(self) -> Result<String, JsonParserError>;
}

/// Reads a value from text.
pub trait Deserializer {
    fn deserializer(value: &str) -> Result<JsonValue, JsonParserError>
        requires
            value.spec_bytes().len() < usize::MAX,
    ;
}

impl Serializer for JsonValue {
    /// The text of the value, with `: ` between each key and its value.
    fn serialize(self) -> (r: Result<String, JsonParserError>)
        ensures
            r matches Ok(s) && s@ == spec_render(self.data(), ": "@),
    {
        let mut out = string_from("");
        proof {
            reveal_strlit("");
        }
        self.write_json(&mut out, ": ");
        Ok(out)
    }
}

impl Deserializer for JsonValue {
    /// Reads the value from the text as `json_load` does; a lexical error comes back
    /// as a parser error holding its text.
    fn deserializer(source: &str) -> (r: Result<JsonValue, JsonParserError>)
        ensures
            match spec_tokenize(source.spec_bytes()) {
                Ok(toks) => value_result_view(r) == parser_result(
                    spec_parse(toks, source.spec_bytes(), 0).0,
                ),
                Err(e) => r matches Err(e2) && e2@ == JsonErrorView::Parser(e.text()),
            },
    {
        let tokens = match Lexer::tokenize(source) {
            Ok(t) => t,
            Err(err) => return Err(JsonParserError::ParserError(err.to_string())),
        };
        let mut parser = JsonParser::new(tokens.as_slice(), source);
        parser.parse()
    }
}

} // verus!
