pub mod error;
pub mod grammar;
pub mod laws;
pub mod lexer;
pub mod parser;
pub mod reload;
pub mod round_trip;
pub mod token;
pub mod traits;
pub mod value;

use vstd::prelude::*;
use vstd::string::StringSliceAdditionalSpecFns;

use crate::json::error::{JsonErrorView, JsonParserError};
use crate::json::lexer::{spec_tokenize, Lexer};
use crate::json::parser::{
    parser_result, spec_parse, value_result_view, JsonParser,
};
use crate::json::value::{spec_render, JsonData, JsonValue};
use crate::text::string_from;

verus! {

/// Loading a text: its tokens, then the value they start with; or the first lexical
/// or parser error.
pub open spec fn spec_json_load(b: Seq<u8>) -> Result<JsonData, JsonErrorView> {
    match spec_tokenize(b) {
        Err(e) => Err(e),
        Ok(toks) => parser_result(spec_parse(toks, b, 0).0),
    }
}

/// Reads a JSON value from a text.
pub fn json_load(source: &str) -> (r: Result<JsonValue, JsonParserError>)
    requires
        source.spec_bytes().len() < usize::MAX,
    ensures
        value_result_view(r) == spec_json_load(source.spec_bytes()),
{
    let tokens = match Lexer::tokenize(source) {
        Ok(t) => t,
        Err(e) => return Err(e),
    };
    let mut parser = JsonParser::new(tokens.as_slice(), source);
    parser.parse()
}

/// The text of a value, with `:` between each key and its value.
pub fn json_dumps(value: &JsonValue) -> (r: Result<String, JsonParserError>)
    ensures
        r matches Ok(s) && s@ == spec_render(value.data(), ":"@),
{
    let mut out = string_from("");
    proof {
        reveal_strlit("");
    }
    value.write_json(&mut out, ":");
    Ok(out)
}

} // verus!
