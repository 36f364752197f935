use vstd::prelude::*;

use crate::text::string_from;

verus! {

/// The errors of loading and dumping JSON, each with its message.
#[derive(Debug, Clone, PartialEq)]
pub enum JsonParserError {
    LexicalError(String),
    ParserError(String),
    SerializeError(String),
    DeserializeError(String),
}

/// What an error is, as a mathematical value.
pub enum JsonErrorView {
    Lexical(Seq<char>),
    Parser(Seq<char>),
    Serialize(Seq<char>),
    Deserialize(Seq<char>),
}

impl View for JsonParserError {
    type V = JsonErrorView;

    open spec fn view(&self) -> JsonErrorView {
        match self {
            JsonParserError::LexicalError(m) => JsonErrorView::Lexical(m@),
            JsonParserError::ParserError(m) => JsonErrorView::Parser(m@),
            JsonParserError::SerializeError(m) => JsonErrorView::Serialize(m@),
            JsonParserError::DeserializeError(m) => JsonErrorView::Deserialize(m@),
        }
    }
}

impl JsonErrorView {
    /// The text shown for the error: a prefix naming its kind, then its message.
    pub open spec fn text(self) -> Seq<char> {
        match self {
            JsonErrorView::Lexical(m) => "lexical error: "@ + m,
            JsonErrorView::Parser(m) => "parse error: "@ + m,
            JsonErrorView::Serialize(m) => "serialize error: "@ + m,
            JsonErrorView::Deserialize(m) => "deserialize error: "@ + m,
        }
    }
}

impl JsonParserError {
    /// A lexical error with the given message.
    pub fn lexical(msg: &str) -> (e: Self)
        ensures
            e@ == JsonErrorView::Lexical(msg@),
    {
        JsonParserError::LexicalError(string_from(msg))
    }

    /// A parser error with the given message.
    pub fn parser(msg: &str) -> (e: Self)
        ensures
            e@ == JsonErrorView::Parser(msg@),
    {
        JsonParserError::ParserError(string_from(msg))
    }

    /// The text shown for the error.
    pub fn to_string(&self) -> (s: String)
        ensures
            s@ == self@.text(),
    {
        let (prefix, msg) = match self {
            JsonParserError::LexicalError(m) => ("lexical error: ", m),
            JsonParserError::ParserError(m) => ("parse error: ", m),
            JsonParserError::SerializeError(m) => ("serialize error: ", m),
            JsonParserError::DeserializeError(m) => ("deserialize error: ", m),
        };
        let mut out = string_from(prefix);
        out.append(msg.as_str());
        out
    }
}

} // verus!
