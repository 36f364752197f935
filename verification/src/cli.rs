use vstd::prelude::*;
use vstd::string::StringSliceAdditionalSpecFns;

use crate::json::error::JsonErrorView;
use crate::json::json_load;
use crate::json::parser::value_result_view;
use crate::json::spec_json_load;
use crate::json::value::{JsonData, JsonValue};
use crate::text::{str_equal, string_from};

verus! {

/// The errors of the command-line program.
#[derive(Debug, Clone)]
pub enum AppError {
    InvalidFormat,
    InvalidInput,
    ParseError(String),
}

/// What an application error is, as a mathematical value.
pub enum AppErrorView {
    InvalidFormat,
    InvalidInput,
    ParseError(Seq<char>),
}

impl View for AppError {
    type V = AppErrorView;

    open spec fn view(&self) -> AppErrorView {
        match self {
            AppError::InvalidFormat => AppErrorView::InvalidFormat,
            AppError::InvalidInput => AppErrorView::InvalidInput,
            AppError::ParseError(m) => AppErrorView::ParseError(m@),
        }
    }
}

impl AppErrorView {
    /// The text shown for the error.
    pub open spec fn text(self) -> Seq<char> {
        match self {
            AppErrorView::InvalidFormat => "invalid format"@,
            AppErrorView::InvalidInput => "invalid input"@,
            AppErrorView::ParseError(m) => "parse error: "@ + m,
        }
    }
}

impl AppError {
    /// The text shown for the error.
    pub fn to_string(&self) -> (s: String)
        ensures
            s@ == self@.text(),
    {
        match self {
            AppError::InvalidFormat => string_from("invalid format"),
            AppError::InvalidInput => string_from("invalid input"),
            AppError::ParseError(m) => {
                let mut out = string_from("parse error: ");
                out.append(m.as_str());
                out
            },
        }
    }
}

/// The formats that the input may be declared in.
#[derive(Debug, Clone, Copy, PartialEq, Eq, Structural, PartialOrd, Ord)]
pub enum InputFormat {
    JSON,
    AUTO,
}

impl InputFormat {
    /// Reads a format name: `json` or `auto`.
    pub fn from_str(s: &str) -> (r: Result<InputFormat, AppError>)
        ensures
            s@ == "json"@ ==> r == Ok::<InputFormat, AppError>(InputFormat::JSON),
            s@ == "auto"@ ==> r == Ok::<InputFormat, AppError>(InputFormat::AUTO),
            s@ != "json"@ && s@ != "auto"@ ==> (r matches Err(e) && e@ == AppErrorView::InvalidFormat),
    {
        proof {
            reveal_strlit("json");
            reveal_strlit("auto");
            assert("json"@[0] != "auto"@[0]);
        }
        if str_equal(s, "json") {
            Ok(InputFormat::JSON)
        } else if str_equal(s, "auto") {
            Ok(InputFormat::AUTO)
        } else {
            Err(AppError::InvalidFormat)
        }
    }
}

/// The options of the command-line program.
#[derive(Debug)]
pub struct Opts {
    pub input: String,
    pub format: InputFormat,
}

impl Opts {
    /// An input other than standard input (`-`) must declare its format.
    pub fn validate(&self) -> (r: Result<(), AppError>)
        ensures
            r is Err <==> (self.input@ != "-"@ && self.format == InputFormat::AUTO),
            r matches Err(e) ==> e@ == AppErrorView::InvalidFormat,
    {
        if !str_equal(self.input.as_str(), "-") && self.format == InputFormat::AUTO {
            return Err(AppError::InvalidFormat);
        }
        Ok(())
    }
}

/// Loads the text read from the input; a load error becomes a parse error holding
/// the error's text.
pub fn process_source(source: &str) -> (r: Result<JsonValue, AppError>)
    requires
        source.spec_bytes().len() < usize::MAX,
    ensures
        match spec_json_load(source.spec_bytes()) {
            Ok(d) => r matches Ok(v) && v.data() == d,
            Err(e) => r matches Err(a) && a@ == AppErrorView::ParseError(e.text()),
        },
{
    match json_load(source) {
        Ok(v) => Ok(v),
        Err(err) => Err(AppError::ParseError(err.to_string())),
    }
}

} // verus!
