use vstd::prelude::*;
use vstd::string::StringSliceAdditionalSpecFns;

use crate::json::error::{JsonErrorView, JsonParserError};
use crate::json::token::{JsonToken, JsonTokenKind};
use crate::json::value::{
    data_of, data_of_items, data_of_members, lemma_data_of_members, JsonData, JsonValue,
};
use crate::source::{spec_decode, Source};
use crate::text::string_from;

verus! {

// ---------------------------------------------------------------------------
// The parser's messages.
// ---------------------------------------------------------------------------

/// The message when the parser is asked to move past the last token.
pub open spec fn msg_next() -> Seq<char> {
    "[JsonParser.next_token] Index is out of range"@
}

/// The message when the parser is asked to move before the first token.
pub open spec fn msg_back() -> Seq<char> {
    "[JsonParser.back_token] Index is out of range"@
}

/// The message when a value is expected and another token stands there.
pub open spec fn msg_unexpected() -> Seq<char> {
    "Unexpected token, position is 0"@
}

/// The message when a string token's content cannot be taken.
pub open spec fn msg_string_content() -> Seq<char> {
    "Can't get content of string"@
}

/// The message when a number token's content cannot be taken.
pub open spec fn msg_number_content() -> Seq<char> {
    "Can't get content of number"@
}

/// The message when there are no tokens.
pub open spec fn msg_empty() -> Seq<char> {
    "json is empty"@
}

/// The message when one kind of token was expected and another found.
pub open spec fn msg_expect(expected: JsonTokenKind, found: JsonTokenKind) -> Seq<char> {
    "Unexpected token, expect "@ + expected.spec_name() + " but "@ + found.spec_name()
}

// ---------------------------------------------------------------------------
// What the parser does, as functions from the tokens, the source bytes and the
// current token index to a result and the index where the parser is left.
// ---------------------------------------------------------------------------

/// Moving to the next token.
pub open spec fn spec_next(toks: Seq<JsonToken>, idx: int) -> (Result<int, Seq<char>>, int) {
    if idx == toks.len() - 1 {
        (Err(msg_next()), idx)
    } else {
        (Ok(idx + 1), idx + 1)
    }
}

/// Moving back to the previous token.
pub open spec fn spec_back(idx: int) -> (Result<int, Seq<char>>, int) {
    if idx == 0 {
        (Err(msg_back()), idx)
    } else {
        (Ok(idx - 1), idx - 1)
    }
}

/// Moving back after a successful move to the next token returns to where the parser was.
pub proof fn law_back_undoes_next(toks: Seq<JsonToken>, idx: int)
    requires
        0 <= idx,
        spec_next(toks, idx).0 is Ok,
    ensures
        spec_back(spec_next(toks, idx).1) == (Ok::<int, Seq<char>>(idx), idx),
{
}

/// Expecting a token of `kind` at `idx`; on a mismatch the parser moves back one token.
pub open spec fn spec_parse_token(toks: Seq<JsonToken>, idx: int, kind: JsonTokenKind) -> (
    Result<JsonToken, Seq<char>>,
    int,
) {
    let t = toks[idx];
    if t.kind != kind {
        let (br, bi) = spec_back(idx);
        match br {
            Err(m) => (Err(m), bi),
            Ok(_) => (Err(msg_expect(kind, t.kind)), bi),
        }
    } else {
        (Ok(t), idx)
    }
}

/// The text between the quotes of a string token.
pub open spec fn spec_string_content(b: Seq<u8>, t: JsonToken) -> Result<Seq<char>, Seq<char>> {
    if t.kind == JsonTokenKind::String && Source::spec_slice_ok(
        b,
        t.span.start + 1,
        t.span.end - 1,
    ) {
        Ok(spec_decode(b.subrange(t.span.start + 1, t.span.end - 1)))
    } else {
        Err(msg_string_content())
    }
}

/// The text of a number token.
pub open spec fn spec_number_content(b: Seq<u8>, t: JsonToken) -> Result<Seq<char>, Seq<char>> {
    if t.kind == JsonTokenKind::Number && Source::spec_slice_ok(
        b,
        t.span.start as int,
        t.span.end as int,
    ) {
        Ok(spec_decode(b.subrange(t.span.start as int, t.span.end as int)))
    } else {
        Err(msg_number_content())
    }
}

/// Parsing a value that starts at `idx`; on success the parser is left on the value's
/// last token.
pub open spec fn spec_value(toks: Seq<JsonToken>, b: Seq<u8>, idx: int) -> (
    Result<JsonData, Seq<char>>,
    int,
)
    decreases toks.len() - idx, 2int,
{
    if idx < 0 || idx >= toks.len() {
        (Err(msg_unexpected()), idx)
    } else {
        let t = toks[idx];
        match t.kind {
            JsonTokenKind::Null => (Ok(JsonData::Null), idx),
            JsonTokenKind::True => (Ok(JsonData::True), idx),
            JsonTokenKind::False => (Ok(JsonData::False), idx),
            JsonTokenKind::String => match spec_string_content(b, t) {
                Ok(s) => (Ok(JsonData::Str(s)), idx),
                Err(m) => (Err(m), idx),
            },
            JsonTokenKind::Number => match spec_number_content(b, t) {
                Ok(s) => (Ok(JsonData::Num(s)), idx),
                Err(m) => (Err(m), idx),
            },
            JsonTokenKind::LBracket => spec_array(toks, b, idx),
            JsonTokenKind::LBrace => spec_object(toks, b, idx),
            _ => (Err(msg_unexpected()), idx),
        }
    }
}

/// Parsing an array whose `[` is at `idx`.
pub open spec fn spec_array(toks: Seq<JsonToken>, b: Seq<u8>, idx: int) -> (
    Result<JsonData, Seq<char>>,
    int,
)
    decreases toks.len() - idx, 1int,
{
    if idx < 0 || idx >= toks.len() {
        (Err(msg_unexpected()), idx)
    } else {
        let (r1, i1) = spec_parse_token(toks, idx, JsonTokenKind::LBracket);
        match r1 {
            Err(m) => (Err(m), i1),
            Ok(_) => {
                let (r2, i2) = spec_next(toks, i1);
                match r2 {
                    Err(m) => (Err(m), i2),
                    Ok(_) => {
                        if i2 <= idx || i2 >= toks.len() {
                            (Err(msg_unexpected()), i2)
                        } else if toks[i2].kind == JsonTokenKind::RBracket {
                            (Ok(JsonData::Array(Seq::empty())), i2)
                        } else {
                            let (r3, i3) = spec_elements(toks, b, i2, Seq::empty());
                            match r3 {
                                Err(m) => (Err(m), i3),
                                Ok(items) => {
                                    let (r4, i4) = spec_next(toks, i3);
                                    match r4 {
                                        Err(m) => (Err(m), i4),
                                        Ok(_) => {
                                            let (r5, i5) = spec_parse_token(
                                                toks,
                                                i4,
                                                JsonTokenKind::RBracket,
                                            );
                                            match r5 {
                                                Err(m) => (Err(m), i5),
                                                Ok(_) => (Ok(JsonData::Array(items)), i5),
                                            }
                                        },
                                    }
                                },
                            }
                        }
                    },
                }
            },
        }
    }
}

/// Parsing the elements of an array from `idx`, after the elements in `items`: a value,
/// then on a comma another round; otherwise the parser is left on the value's last token.
pub open spec fn spec_elements(
    toks: Seq<JsonToken>,
    b: Seq<u8>,
    idx: int,
    items: Seq<JsonData>,
) -> (Result<Seq<JsonData>, Seq<char>>, int)
    decreases toks.len() - idx, 4int,
{
    if idx < 0 || idx >= toks.len() {
        (Err(msg_unexpected()), idx)
    } else {
        let (r, i1) = spec_value(toks, b, idx);
        match r {
            Ok(item) => {
                let items2 = items.push(item);
                let (n1, i2) = spec_next(toks, i1);
                match n1 {
                    Err(m) => (Err(m), i2),
                    Ok(_) => {
                        let (c, i3) = spec_parse_token(toks, i2, JsonTokenKind::Comma);
                        match c {
                            Ok(_) => {
                                let (n2, i4) = spec_next(toks, i3);
                                match n2 {
                                    Err(m) => (Err(m), i4),
                                    Ok(_) => {
                                        if i4 <= idx || i4 > toks.len() {
                                            (Ok(items2), i4)
                                        } else {
                                            spec_elements(toks, b, i4, items2)
                                        }
                                    },
                                }
                            },
                            Err(_) => (Ok(items2), i3),
                        }
                    },
                }
            },
            Err(m) => (Err(m), i1),
        }
    }
}

/// Parsing a member `"key" : value` whose key is at `idx`.
pub open spec fn spec_pair(toks: Seq<JsonToken>, b: Seq<u8>, idx: int) -> (
    Result<(Seq<char>, JsonData), Seq<char>>,
    int,
)
    decreases toks.len() - idx, 3int,
{
    if idx < 0 || idx >= toks.len() {
        (Err(msg_unexpected()), idx)
    } else {
        let (r1, i1) = spec_parse_token(toks, idx, JsonTokenKind::String);
        match r1 {
            Err(m) => (Err(m), i1),
            Ok(key_token) => match spec_string_content(b, key_token) {
                Err(m) => (Err(m), i1),
                Ok(key) => {
                    let (r2, i2) = spec_next(toks, i1);
                    match r2 {
                        Err(m) => (Err(m), i2),
                        Ok(_) => {
                            let (r3, i3) = spec_parse_token(toks, i2, JsonTokenKind::Colon);
                            match r3 {
                                Err(m) => (Err(m), i3),
                                Ok(_) => {
                                    let (r4, i4) = spec_next(toks, i3);
                                    match r4 {
                                        Err(m) => (Err(m), i4),
                                        Ok(_) => {
                                            if i4 <= idx || i4 > toks.len() {
                                                (Err(msg_unexpected()), i4)
                                            } else {
                                                let (r5, i5) = spec_value(toks, b, i4);
                                                match r5 {
                                                    Err(m) => (Err(m), i5),
                                                    Ok(v) => (Ok((key, v)), i5),
                                                }
                                            }
                                        },
                                    }
                                },
                            }
                        },
                    }
                },
            },
        }
    }
}

/// Parsing the members of an object from `idx`, after the members in `ms`: a member,
/// then on a comma another round; otherwise the parser is left on the member's last token.
pub open spec fn spec_members(
    toks: Seq<JsonToken>,
    b: Seq<u8>,
    idx: int,
    ms: Seq<(Seq<char>, JsonData)>,
) -> (Result<Seq<(Seq<char>, JsonData)>, Seq<char>>, int)
    decreases toks.len() - idx, 4int,
{
    if idx < 0 || idx >= toks.len() {
        (Err(msg_unexpected()), idx)
    } else {
        let (r, i1) = spec_pair(toks, b, idx);
        match r {
            Ok(p) => {
                let ms2 = ms.push(p);
                let (n1, i2) = spec_next(toks, i1);
                match n1 {
                    Err(m) => (Err(m), i2),
                    Ok(_) => {
                        let (c, i3) = spec_parse_token(toks, i2, JsonTokenKind::Comma);
                        match c {
                            Ok(_) => {
                                let (n2, i4) = spec_next(toks, i3);
                                match n2 {
                                    Err(m) => (Err(m), i4),
                                    Ok(_) => {
                                        if i4 <= idx || i4 > toks.len() {
                                            (Ok(ms2), i4)
                                        } else {
                                            spec_members(toks, b, i4, ms2)
                                        }
                                    },
                                }
                            },
                            Err(_) => (Ok(ms2), i3),
                        }
                    },
                }
            },
            Err(m) => (Err(m), i1),
        }
    }
}

/// Parsing an object whose `{` is at `idx`; a key given twice keeps the later value.
pub open spec fn spec_object(toks: Seq<JsonToken>, b: Seq<u8>, idx: int) -> (
    Result<JsonData, Seq<char>>,
    int,
)
    decreases toks.len() - idx, 1int,
{
    if idx < 0 || idx >= toks.len() {
        (Err(msg_unexpected()), idx)
    } else {
        let (r1, i1) = spec_parse_token(toks, idx, JsonTokenKind::LBrace);
        match r1 {
            Err(m) => (Err(m), i1),
            Ok(_) => {
                let (r2, i2) = spec_next(toks, i1);
                match r2 {
                    Err(m) => (Err(m), i2),
                    Ok(_) => {
                        if i2 <= idx || i2 >= toks.len() {
                            (Err(msg_unexpected()), i2)
                        } else if toks[i2].kind == JsonTokenKind::RBrace {
                            (Ok(JsonData::Object(Seq::empty())), i2)
                        } else {
                            let (r3, i3) = spec_members(toks, b, i2, Seq::empty());
                            match r3 {
                                Err(m) => (Err(m), i3),
                                Ok(ms) => {
                                    let (r4, i4) = spec_next(toks, i3);
                                    match r4 {
                                        Err(m) => (Err(m), i4),
                                        Ok(_) => {
                                            let (r5, i5) = spec_parse_token(
                                                toks,
                                                i4,
                                                JsonTokenKind::RBrace,
                                            );
                                            match r5 {
                                                Err(m) => (Err(m), i5),
                                                Ok(_) => (
                                                    Ok(JsonData::Object(spec_dedup_members(ms))),
                                                    i5,
                                                ),
                                            }
                                        },
                                    }
                                },
                            }
                        }
                    },
                }
            },
        }
    }
}

/// Reading exactly one value from `idx` to the last token, by the grammar.
pub open spec fn spec_strict_parse(toks: Seq<JsonToken>, b: Seq<u8>, idx: int) -> (
    Result<JsonData, Seq<char>>,
    int,
) {
    let (r, e) = spec_value(toks, b, idx);
    match r {
        Ok(v) => if 0 <= e + 1 < toks.len() {
            (Err(msg_expect(JsonTokenKind::Stop, toks[e + 1].kind)), e)
        } else {
            (Ok(v), e)
        },
        Err(m) => (Err(m), e),
    }
}

// ---------------------------------------------------------------------------
// The lenient reading: where a text breaks the grammar, the error reported is the one
// this reading meets first.
// ---------------------------------------------------------------------------

/// The lenient reading of a value at `idx`: lists end at the first item that cannot be
/// read, and the reader moves on from there. On success it is left on the value's last token.
pub open spec fn spec_lenient_value(toks: Seq<JsonToken>, b: Seq<u8>, idx: int) -> (
    Result<JsonData, Seq<char>>,
    int,
)
    decreases toks.len() - idx, 2int,
{
    if idx < 0 || idx >= toks.len() {
        (Err(msg_unexpected()), idx)
    } else {
        let t = toks[idx];
        match t.kind {
            JsonTokenKind::Null => (Ok(JsonData::Null), idx),
            JsonTokenKind::True => (Ok(JsonData::True), idx),
            JsonTokenKind::False => (Ok(JsonData::False), idx),
            JsonTokenKind::String => match spec_string_content(b, t) {
                Ok(s) => (Ok(JsonData::Str(s)), idx),
                Err(m) => (Err(m), idx),
            },
            JsonTokenKind::Number => match spec_number_content(b, t) {
                Ok(s) => (Ok(JsonData::Num(s)), idx),
                Err(m) => (Err(m), idx),
            },
            JsonTokenKind::LBracket => spec_lenient_array(toks, b, idx),
            JsonTokenKind::LBrace => spec_lenient_object(toks, b, idx),
            _ => (Err(msg_unexpected()), idx),
        }
    }
}

/// Parsing an array whose `[` is at `idx`.
pub open spec fn spec_lenient_array(toks: Seq<JsonToken>, b: Seq<u8>, idx: int) -> (
    Result<JsonData, Seq<char>>,
    int,
)
    decreases toks.len() - idx, 1int,
{
    if idx < 0 || idx >= toks.len() {
        (Err(msg_unexpected()), idx)
    } else {
        let (r1, i1) = spec_parse_token(toks, idx, JsonTokenKind::LBracket);
        match r1 {
            Err(m) => (Err(m), i1),
            Ok(_) => {
                let (r2, i2) = spec_next(toks, i1);
                match r2 {
                    Err(m) => (Err(m), i2),
                    Ok(_) => {
                        if i2 <= idx || i2 > toks.len() {
                            (Err(msg_unexpected()), i2)
                        } else {
                            let (r3, i3) = spec_lenient_elements(toks, b, i2, Seq::empty());
                            match r3 {
                                Err(m) => (Err(m), i3),
                                Ok(items) => {
                                    let (r4, i4) = spec_next(toks, i3);
                                    match r4 {
                                        Err(m) => (Err(m), i4),
                                        Ok(_) => {
                                            let (r5, i5) = spec_parse_token(
                                                toks,
                                                i4,
                                                JsonTokenKind::RBracket,
                                            );
                                            match r5 {
                                                Err(m) => (Err(m), i5),
                                                Ok(_) => (Ok(JsonData::Array(items)), i5),
                                            }
                                        },
                                    }
                                },
                            }
                        }
                    },
                }
            },
        }
    }
}

/// Parsing the elements of an array from `idx`, after the elements in `items`: a value,
/// then on a comma another round; a failed value moves the parser back one token
/// and ends the elements.
pub open spec fn spec_lenient_elements(
    toks: Seq<JsonToken>,
    b: Seq<u8>,
    idx: int,
    items: Seq<JsonData>,
) -> (Result<Seq<JsonData>, Seq<char>>, int)
    decreases toks.len() - idx, 4int,
{
    if idx < 0 || idx >= toks.len() {
        (Err(msg_unexpected()), idx)
    } else {
        let (r, i1) = spec_lenient_value(toks, b, idx);
        match r {
            Ok(item) => {
                let items2 = items.push(item);
                let (n1, i2) = spec_next(toks, i1);
                match n1 {
                    Err(m) => (Err(m), i2),
                    Ok(_) => {
                        let (c, i3) = spec_parse_token(toks, i2, JsonTokenKind::Comma);
                        match c {
                            Ok(_) => {
                                let (n2, i4) = spec_next(toks, i3);
                                match n2 {
                                    Err(m) => (Err(m), i4),
                                    Ok(_) => {
                                        if i4 <= idx || i4 > toks.len() {
                                            (Ok(items2), i4)
                                        } else {
                                            spec_lenient_elements(toks, b, i4, items2)
                                        }
                                    },
                                }
                            },
                            Err(_) => (Ok(items2), i3),
                        }
                    },
                }
            },
            Err(_) => {
                let (br, i2) = spec_back(i1);
                match br {
                    Err(m) => (Err(m), i2),
                    Ok(_) => (Ok(items), i2),
                }
            },
        }
    }
}

/// Parsing a member `"key" : value` whose key is at `idx`.
pub open spec fn spec_lenient_pair(toks: Seq<JsonToken>, b: Seq<u8>, idx: int) -> (
    Result<(Seq<char>, JsonData), Seq<char>>,
    int,
)
    decreases toks.len() - idx, 3int,
{
    if idx < 0 || idx >= toks.len() {
        (Err(msg_unexpected()), idx)
    } else {
        let (r1, i1) = spec_parse_token(toks, idx, JsonTokenKind::String);
        match r1 {
            Err(m) => (Err(m), i1),
            Ok(key_token) => match spec_string_content(b, key_token) {
                Err(m) => (Err(m), i1),
                Ok(key) => {
                    let (r2, i2) = spec_next(toks, i1);
                    match r2 {
                        Err(m) => (Err(m), i2),
                        Ok(_) => {
                            let (r3, i3) = spec_parse_token(toks, i2, JsonTokenKind::Colon);
                            match r3 {
                                Err(m) => (Err(m), i3),
                                Ok(_) => {
                                    let (r4, i4) = spec_next(toks, i3);
                                    match r4 {
                                        Err(m) => (Err(m), i4),
                                        Ok(_) => {
                                            if i4 <= idx || i4 > toks.len() {
                                                (Err(msg_unexpected()), i4)
                                            } else {
                                                let (r5, i5) = spec_lenient_value(toks, b, i4);
                                                match r5 {
                                                    Err(m) => (Err(m), i5),
                                                    Ok(v) => (Ok((key, v)), i5),
                                                }
                                            }
                                        },
                                    }
                                },
                            }
                        },
                    }
                },
            },
        }
    }
}

/// Parsing the members of an object from `idx`, after the members in `ms`: a member,
/// then on a comma another round; a failed member ends the members.
pub open spec fn spec_lenient_members(
    toks: Seq<JsonToken>,
    b: Seq<u8>,
    idx: int,
    ms: Seq<(Seq<char>, JsonData)>,
) -> (Result<Seq<(Seq<char>, JsonData)>, Seq<char>>, int)
    decreases toks.len() - idx, 4int,
{
    if idx < 0 || idx >= toks.len() {
        (Err(msg_unexpected()), idx)
    } else {
        let (r, i1) = spec_lenient_pair(toks, b, idx);
        match r {
            Ok(p) => {
                let ms2 = ms.push(p);
                let (n1, i2) = spec_next(toks, i1);
                match n1 {
                    Err(m) => (Err(m), i2),
                    Ok(_) => {
                        let (c, i3) = spec_parse_token(toks, i2, JsonTokenKind::Comma);
                        match c {
                            Ok(_) => {
                                let (n2, i4) = spec_next(toks, i3);
                                match n2 {
                                    Err(m) => (Err(m), i4),
                                    Ok(_) => {
                                        if i4 <= idx || i4 > toks.len() {
                                            (Ok(ms2), i4)
                                        } else {
                                            spec_lenient_members(toks, b, i4, ms2)
                                        }
                                    },
                                }
                            },
                            Err(_) => (Ok(ms2), i3),
                        }
                    },
                }
            },
            Err(_) => (Ok(ms), i1),
        }
    }
}

/// Parsing an object whose `{` is at `idx`; a key given twice keeps the later value.
pub open spec fn spec_lenient_object(toks: Seq<JsonToken>, b: Seq<u8>, idx: int) -> (
    Result<JsonData, Seq<char>>,
    int,
)
    decreases toks.len() - idx, 1int,
{
    if idx < 0 || idx >= toks.len() {
        (Err(msg_unexpected()), idx)
    } else {
        let (r1, i1) = spec_parse_token(toks, idx, JsonTokenKind::LBrace);
        match r1 {
            Err(m) => (Err(m), i1),
            Ok(_) => {
                let (r2, i2) = spec_next(toks, i1);
                match r2 {
                    Err(m) => (Err(m), i2),
                    Ok(_) => {
                        if i2 <= idx || i2 > toks.len() {
                            (Err(msg_unexpected()), i2)
                        } else {
                            let (r3, i3) = spec_lenient_members(toks, b, i2, Seq::empty());
                            match r3 {
                                Err(m) => (Err(m), i3),
                                Ok(ms) => {
                                    let (r4, i4) = spec_next(toks, i3);
                                    match r4 {
                                        Err(m) => (Err(m), i4),
                                        Ok(_) => {
                                            let (r5, i5) = spec_parse_token(
                                                toks,
                                                i4,
                                                JsonTokenKind::RBrace,
                                            );
                                            match r5 {
                                                Err(m) => (Err(m), i5),
                                                Ok(_) => (
                                                    Ok(JsonData::Object(spec_dedup_members(ms))),
                                                    i5,
                                                ),
                                            }
                                        },
                                    }
                                },
                            }
                        }
                    },
                }
            },
        }
    }
}

/// Parsing from `idx`: an error when there are no tokens; else the value read by the
/// grammar. When the grammar refuses the tokens, the error is the one the lenient
/// reading meets, or, where the lenient reading gets through, the grammar's own.
pub open spec fn spec_parse(toks: Seq<JsonToken>, b: Seq<u8>, idx: int) -> (
    Result<JsonData, Seq<char>>,
    int,
) {
    if toks.len() == 0 {
        (Err(msg_empty()), idx)
    } else {
        let (r, e) = spec_strict_parse(toks, b, idx);
        match r {
            Ok(v) => (Ok(v), e),
            Err(m) => {
                let (r2, e2) = spec_lenient_value(toks, b, idx);
                match r2 {
                    Err(m2) => (Err(m2), e2),
                    Ok(_) => (Err(m), e),
                }
            },
        }
    }
}

// ---------------------------------------------------------------------------
// Objects: members with distinct keys, a later member replacing an earlier one.
// ---------------------------------------------------------------------------

/// The index of the first member whose key is `k`, or -1.
pub open spec fn spec_key_index(ms: Seq<(Seq<char>, JsonData)>, k: Seq<char>) -> int
    decreases ms.len(),
{
    if ms.len() == 0 {
        -1
    } else {
        let j = spec_key_index(ms.drop_last(), k);
        if j >= 0 {
            j
        } else if ms.last().0 == k {
            ms.len() - 1
        } else {
            -1
        }
    }
}

/// Adds a member: it replaces the value of a member with the same key, in place, or
/// goes at the end.
pub open spec fn spec_insert_member(
    ms: Seq<(Seq<char>, JsonData)>,
    m: (Seq<char>, JsonData),
) -> Seq<(Seq<char>, JsonData)> {
    let j = spec_key_index(ms, m.0);
    if j >= 0 {
        ms.update(j, m)
    } else {
        ms.push(m)
    }
}

/// The members of an object built from `ms` in order.
pub open spec fn spec_dedup_members(ms: Seq<(Seq<char>, JsonData)>) -> Seq<(Seq<char>, JsonData)>
    decreases ms.len(),
{
    if ms.len() == 0 {
        Seq::empty()
    } else {
        spec_insert_member(spec_dedup_members(ms.drop_last()), ms.last())
    }
}

/// `spec_key_index` finds the first member with the key.
pub proof fn lemma_key_index(ms: Seq<(Seq<char>, JsonData)>, k: Seq<char>)
    ensures
        -1 <= spec_key_index(ms, k) < ms.len(),
        spec_key_index(ms, k) == -1 ==> forall|i: int| 0 <= i < ms.len() ==> ms[i].0 != k,
        spec_key_index(ms, k) >= 0 ==> ms[spec_key_index(ms, k)].0 == k && forall|i: int|
            0 <= i < spec_key_index(ms, k) ==> ms[i].0 != k,
    decreases ms.len(),
{
    if ms.len() > 0 {
        lemma_key_index(ms.drop_last(), k);
        assert forall|i: int| 0 <= i < ms.len() - 1 implies ms.drop_last()[i] == ms[i] by {}
    }
}

// ---------------------------------------------------------------------------
// Facts about the mathematical values of exec values.
// ---------------------------------------------------------------------------

/// Adds a member to an object's members: it replaces the value of a member with the
/// same key, in place, or goes at the end.
fn insert_member(members: &mut Vec<(String, JsonValue)>, m: (String, JsonValue))
    ensures
        data_of_members(final(members)@) == spec_insert_member(
            data_of_members(old(members)@),
            (m.0@, data_of(m.1)),
        ),
{
    let ghost old_ms = data_of_members(members@);
    proof {
        lemma_data_of_members(members@);
        lemma_key_index(old_ms, m.0@);
    }
    let mut j: usize = 0;
    while j < members.len()
        invariant
            0 <= j <= members@.len(),
            members@ == old(members)@,
            old_ms == data_of_members(members@),
            old_ms.len() == members@.len(),
            forall|i: int| 0 <= i < members@.len() ==> old_ms[i] == (members@[i].0@, data_of(members@[i].1)),
            forall|i: int| 0 <= i < j ==> members@[i].0@ != m.0@,
        decreases members@.len() - j,
    {
        if members[j].0 == m.0 {
            let ghost before = members@;
            members.set(j, m);
            proof {
                lemma_key_index(old_ms, m.0@);
                assert(spec_key_index(old_ms, m.0@) == j as int) by {
                    let ki = spec_key_index(old_ms, m.0@);
                    if ki < 0 {
                        assert(old_ms[j as int].0 == m.0@);
                    } else if ki < j {
                        assert(before[ki].0@ != m.0@);
                    } else if ki > j {
                        assert(old_ms[j as int].0 == m.0@);
                    }
                }
                lemma_data_of_members(members@);
                assert(data_of_members(members@) =~= old_ms.update(j as int, (m.0@, data_of(m.1))));
            }
            return;
        }
        j = j + 1;
    }
    let ghost before = members@;
    members.push(m);
    proof {
        lemma_key_index(old_ms, m.0@);
        if spec_key_index(old_ms, m.0@) >= 0 {
            let ki = spec_key_index(old_ms, m.0@);
            assert(before[ki].0@ != m.0@);
        }
        assert(members@.drop_last() =~= before);
    }
}

/// An object's members built from `members` in order: each key once, a later
/// member's value replacing an earlier one's.
fn object_from_members(members: Vec<(String, JsonValue)>) -> (r: Vec<(String, JsonValue)>)
    ensures
        data_of_members(r@) == spec_dedup_members(data_of_members(members@)),
{
    let ghost all = members@;
    let mut rest = members;
    let mut out: Vec<(String, JsonValue)> = Vec::new();
    let mut k: usize = 0;
    let n = rest.len();
    proof {
        lemma_data_of_members(all);
        assert(all.subrange(0, 0) =~= Seq::<(String, JsonValue)>::empty());
        assert(all.subrange(0, all.len() as int) =~= all);
    }
    while rest.len() > 0
        invariant
            k <= all.len(),
            all.len() == n,
            rest@ == all.subrange(k as int, all.len() as int),
            data_of_members(out@) == spec_dedup_members(data_of_members(all.subrange(0, k as int))),
        decreases rest@.len(),
    {
        let m = rest.remove(0);
        proof {
            let p = all.subrange(0, k + 1);
            assert(p.drop_last() =~= all.subrange(0, k as int));
            lemma_data_of_members(p);
            lemma_data_of_members(all.subrange(0, k as int));
            assert(data_of_members(p).drop_last() =~= data_of_members(all.subrange(0, k as int)));
            assert(m == all[k as int]);
        }
        insert_member(&mut out, m);
        k = k + 1;
        proof {
            assert(rest@ =~= all.subrange(k as int, all.len() as int));
        }
    }
    proof {
        assert(all.subrange(0, k as int) =~= all);
    }
    out
}

// ---------------------------------------------------------------------------
// The parser.
// ---------------------------------------------------------------------------

/// A value result as a mathematical value.
pub open spec fn value_result_view(r: Result<JsonValue, JsonParserError>) -> Result<
    JsonData,
    JsonErrorView,
> {
    match r {
        Ok(v) => Ok(data_of(v)),
        Err(e) => Err(e@),
    }
}

/// A parser result as the error view it carries: parser messages become parser errors.
pub open spec fn parser_result(r: Result<JsonData, Seq<char>>) -> Result<JsonData, JsonErrorView> {
    match r {
        Ok(d) => Ok(d),
        Err(m) => Err(JsonErrorView::Parser(m)),
    }
}

/// Reads a JSON value from a sequence of tokens.
#[derive(Debug, Clone)]
pub struct JsonParser<'a> {
    pub current_token_idx: usize,
    pub source: &'a str,
    pub tokens: &'a [JsonToken],
}

impl<'a> JsonParser<'a> {
    /// The tokens are nonempty and the index points at one of them.
    pub open spec fn ready(&self) -> bool {
        &&& self.tokens@.len() > 0
        &&& self.current_token_idx < self.tokens@.len()
    }

    /// The same tokens and source as `other`.
    pub open spec fn same_input(&self, other: &Self) -> bool {
        &&& self.tokens == other.tokens
        &&& self.source == other.source
    }

    /// Parses a value from the current token by the grammar; no token may follow the
    /// value. On tokens the grammar refuses, the error is the lenient reading's, where
    /// that reading fails.
    pub fn parse(&mut self) -> (r: Result<JsonValue, JsonParserError>)
        requires
            old(self).tokens@.len() > 0 ==> old(self).current_token_idx < old(
                self,
            ).tokens@.len(),
        ensures
            final(self).same_input(old(self)),
            value_result_view(r) == parser_result(
                spec_parse(
                    old(self).tokens@,
                    old(self).source.spec_bytes(),
                    old(self).current_token_idx as int,
                ).0,
            ),
            final(self).current_token_idx == spec_parse(
                old(self).tokens@,
                old(self).source.spec_bytes(),
                old(self).current_token_idx as int,
            ).1,
    {
        if self.tokens.len() == 0 {
            return Err(JsonParserError::parser("json is empty"));
        }
        let start = self.current_token_idx;
        let strict = match self.parse_value() {
            Ok(v) => {
                if self.current_token_idx + 1 < self.tokens.len() {
                    let next = &self.tokens[self.current_token_idx + 1];
                    let mut msg = string_from("Unexpected token, expect ");
                    msg.append(JsonTokenKind::Stop.name());
                    msg.append(" but ");
                    msg.append(next.kind.name());
                    Err(JsonParserError::ParserError(msg))
                } else {
                    Ok(v)
                }
            },
            Err(e) => Err(e),
        };
        match strict {
            Ok(v) => Ok(v),
            Err(e) => {
                let end = self.current_token_idx;
                self.current_token_idx = start;
                match self.lenient_value() {
                    Err(e2) => Err(e2),
                    Ok(_) => {
                        self.current_token_idx = end;
                        Err(e)
                    },
                }
            },
        }
    }

    /// A parser at the first of `tokens`.
    pub fn new(tokens: &'a [JsonToken], source: &'a str) -> (p: Self)
        ensures
            p.current_token_idx == 0,
            p.source == source,
            p.tokens == tokens,
    {
        Self { current_token_idx: 0, source, tokens }
    }

    fn next_token(&mut self) -> (r: Result<usize, JsonParserError>)
        requires
            old(self).ready(),
        ensures
            final(self).ready(),
            final(self).same_input(old(self)),
            ({
                let (sr, si) = spec_next(old(self).tokens@, old(self).current_token_idx as int);
                &&& final(self).current_token_idx == si
                &&& match sr {
                    Ok(i) => r matches Ok(i2) && i2 == i,
                    Err(m) => r matches Err(e) && e@ == JsonErrorView::Parser(m),
                }
            }),
    {
        if self.current_token_idx == self.tokens.len() - 1 {
            return Err(JsonParserError::parser("[JsonParser.next_token] Index is out of range"));
        }
        self.current_token_idx = self.current_token_idx + 1;
        Ok(self.current_token_idx)
    }

    fn back_token(&mut self) -> (r: Result<usize, JsonParserError>)
        requires
            old(self).ready(),
        ensures
            final(self).ready(),
            final(self).same_input(old(self)),
            ({
                let (sr, si) = spec_back(old(self).current_token_idx as int);
                &&& final(self).current_token_idx == si
                &&& match sr {
                    Ok(i) => r matches Ok(i2) && i2 == i,
                    Err(m) => r matches Err(e) && e@ == JsonErrorView::Parser(m),
                }
            }),
    {
        if self.current_token_idx == 0 {
            return Err(JsonParserError::parser("[JsonParser.back_token] Index is out of range"));
        }
        self.current_token_idx = self.current_token_idx - 1;
        Ok(self.current_token_idx)
    }

    fn get_token(&self) -> (t: &'a JsonToken)
        requires
            self.ready(),
        ensures
            *t == self.tokens@[self.current_token_idx as int],
    {
        &self.tokens[self.current_token_idx]
    }

    fn parse_token(&mut self, kind: JsonTokenKind) -> (r: Result<JsonToken, JsonParserError>)
        requires
            old(self).ready(),
        ensures
            final(self).ready(),
            final(self).same_input(old(self)),
            ({
                let (sr, si) = spec_parse_token(
                    old(self).tokens@,
                    old(self).current_token_idx as int,
                    kind,
                );
                &&& final(self).current_token_idx == si
                &&& match sr {
                    Ok(t) => r matches Ok(t2) && t2 == t,
                    Err(m) => r matches Err(e) && e@ == JsonErrorView::Parser(m),
                }
            }),
    {
        let token = self.get_token();
        if token.kind != kind {
            let mut msg = string_from("Unexpected token, expect ");
            msg.append(kind.name());
            msg.append(" but ");
            msg.append(token.kind.name());
            match self.back_token() {
                Ok(_) => {},
                Err(e) => return Err(e),
            }
            return Err(JsonParserError::ParserError(msg));
        }
        Ok(*token)
    }

    fn get_string_content(&self, token: &JsonToken) -> (r: Result<String, JsonParserError>)
        ensures
            match spec_string_content(self.source.spec_bytes(), *token) {
                Ok(s) => r matches Ok(s2) && s2@ == s,
                Err(m) => r matches Err(e) && e@ == JsonErrorView::Parser(m),
            },
    {
        if token.kind == JsonTokenKind::String && token.span.start < usize::MAX
            && token.span.end >= 1 {
            let src = Source::new(self.source);
            match src.slice(token.span.start + 1, token.span.end - 1) {
                Some(content) => {
                    proof {
                        vstd::utf8::encode_utf8_decode_utf8(content@);
                    }
                    Ok(string_from(content))
                },
                None => Err(JsonParserError::parser("Can't get content of string")),
            }
        } else {
            Err(JsonParserError::parser("Can't get content of string"))
        }
    }

    fn get_number_content(&self, token: &JsonToken) -> (r: Result<String, JsonParserError>)
        ensures
            match spec_number_content(self.source.spec_bytes(), *token) {
                Ok(s) => r matches Ok(s2) && s2@ == s,
                Err(m) => r matches Err(e) && e@ == JsonErrorView::Parser(m),
            },
    {
        if token.kind == JsonTokenKind::Number {
            let src = Source::new(self.source);
            match src.slice(token.span.start, token.span.end) {
                Some(content) => {
                    proof {
                        vstd::utf8::encode_utf8_decode_utf8(content@);
                    }
                    Ok(string_from(content))
                },
                None => Err(JsonParserError::parser("Can't get content of number")),
            }
        } else {
            Err(JsonParserError::parser("Can't get content of number"))
        }
    }

    fn parse_value(&mut self) -> (r: Result<JsonValue, JsonParserError>)
        requires
            old(self).ready(),
        ensures
            final(self).ready(),
            final(self).same_input(old(self)),
            final(self).current_token_idx >= old(self).current_token_idx,
            ({
                let (sr, si) = spec_value(
                    old(self).tokens@,
                    old(self).source.spec_bytes(),
                    old(self).current_token_idx as int,
                );
                &&& final(self).current_token_idx == si
                &&& value_result_view(r) == parser_result(sr)
            }),
        decreases old(self).tokens@.len() - old(self).current_token_idx, 2int,
    {
        let first = self.get_token();
        let idx = self.current_token_idx;
        match first.kind {
            JsonTokenKind::Null => Ok(JsonValue::Null),
            JsonTokenKind::True => Ok(JsonValue::True),
            JsonTokenKind::False => Ok(JsonValue::False),
            JsonTokenKind::String => match self.get_string_content(first) {
                Ok(s) => Ok(JsonValue::String(s)),
                Err(e) => Err(e),
            },
            JsonTokenKind::Number => match self.get_number_content(first) {
                Ok(s) => Ok(JsonValue::Number(s)),
                Err(e) => Err(e),
            },
            JsonTokenKind::LBracket => self.parse_array(),
            JsonTokenKind::LBrace => self.parse_object(),
            _ => Err(JsonParserError::parser("Unexpected token, position is 0")),
        }
    }

    fn parse_array(&mut self) -> (r: Result<JsonValue, JsonParserError>)
        requires
            old(self).ready(),
            old(self).tokens@[old(self).current_token_idx as int].kind == JsonTokenKind::LBracket,
        ensures
            final(self).ready(),
            final(self).same_input(old(self)),
            final(self).current_token_idx >= old(self).current_token_idx,
            ({
                let (sr, si) = spec_array(
                    old(self).tokens@,
                    old(self).source.spec_bytes(),
                    old(self).current_token_idx as int,
                );
                &&& final(self).current_token_idx == si
                &&& value_result_view(r) == parser_result(sr)
            }),
        decreases old(self).tokens@.len() - old(self).current_token_idx, 1int,
    {
        match self.parse_token(JsonTokenKind::LBracket) {
            Ok(_) => {},
            Err(e) => return Err(e),
        }
        match self.next_token() {
            Ok(_) => {},
            Err(e) => return Err(e),
        }
        if self.tokens[self.current_token_idx].kind == JsonTokenKind::RBracket {
            return Ok(JsonValue::Array(Vec::new()));
        }
        let elements = match self.parse_elements() {
            Ok(items) => items,
            Err(e) => return Err(e),
        };
        match self.next_token() {
            Ok(_) => {},
            Err(e) => return Err(e),
        }
        match self.parse_token(JsonTokenKind::RBracket) {
            Ok(_) => {},
            Err(e) => return Err(e),
        }
        Ok(JsonValue::Array(elements))
    }

    fn parse_elements(&mut self) -> (r: Result<Vec<JsonValue>, JsonParserError>)
        requires
            old(self).ready(),
            old(self).current_token_idx >= 1,
        ensures
            final(self).ready(),
            final(self).same_input(old(self)),
            final(self).current_token_idx + 1 >= old(self).current_token_idx,
            ({
                let (sr, si) = spec_elements(
                    old(self).tokens@,
                    old(self).source.spec_bytes(),
                    old(self).current_token_idx as int,
                    Seq::empty(),
                );
                &&& final(self).current_token_idx == si
                &&& match sr {
                    Ok(items) => r matches Ok(v) && data_of_items(v@) == items,
                    Err(m) => r matches Err(e) && e@ == JsonErrorView::Parser(m),
                }
            }),
        decreases old(self).tokens@.len() - old(self).current_token_idx, 4int,
    {
        let ghost toks = self.tokens@;
        let ghost b = self.source.spec_bytes();
        let ghost start = self.current_token_idx as int;
        let mut items: Vec<JsonValue> = Vec::new();
        proof {
            assert(data_of_items(items@) =~= Seq::<JsonData>::empty());
        }
        loop
            invariant
                self.ready(),
                self.same_input(old(self)),
                start == old(self).current_token_idx,
                toks == self.tokens@,
                b == self.source.spec_bytes(),
                start >= 1,
                self.current_token_idx >= start,
                spec_elements(toks, b, start, Seq::empty()) == spec_elements(
                    toks,
                    b,
                    self.current_token_idx as int,
                    data_of_items(items@),
                ),
            decreases toks.len() - self.current_token_idx,
        {
            let ghost i0 = self.current_token_idx as int;
            match self.parse_value() {
                Ok(item) => {
                    let ghost before = items@;
                    let ghost item_data = data_of(item);
                    items.push(item);
                    proof {
                        assert(items@.drop_last() =~= before);
                    }
                    match self.next_token() {
                        Ok(_) => {},
                        Err(e) => return Err(e),
                    }
                    match self.parse_token(JsonTokenKind::Comma) {
                        Ok(_) => {
                            match self.next_token() {
                                Ok(_) => {},
                                Err(e) => return Err(e),
                            }
                            continue;
                        },
                        Err(_) => {
                            return Ok(items);
                        },
                    }
                },
                Err(e) => {
                    return Err(e);
                },
            }
        }
    }

    fn parse_pair(&mut self) -> (r: Result<(String, JsonValue), JsonParserError>)
        requires
            old(self).ready(),
        ensures
            final(self).ready(),
            final(self).same_input(old(self)),
            final(self).current_token_idx + 1 >= old(self).current_token_idx,
            r is Ok ==> final(self).current_token_idx >= old(self).current_token_idx + 2,
            ({
                let (sr, si) = spec_pair(
                    old(self).tokens@,
                    old(self).source.spec_bytes(),
                    old(self).current_token_idx as int,
                );
                &&& final(self).current_token_idx == si
                &&& match sr {
                    Ok((k, v)) => r matches Ok(p) && p.0@ == k && data_of(p.1) == v,
                    Err(m) => r matches Err(e) && e@ == JsonErrorView::Parser(m),
                }
            }),
        decreases old(self).tokens@.len() - old(self).current_token_idx, 3int,
    {
        let key_token = match self.parse_token(JsonTokenKind::String) {
            Ok(t) => t,
            Err(e) => return Err(e),
        };
        proof {
            assert(self.tokens@[self.current_token_idx as int] == key_token);
        }
        let key = match self.get_string_content(&key_token) {
            Ok(k) => k,
            Err(e) => return Err(e),
        };
        match self.next_token() {
            Ok(_) => {},
            Err(e) => return Err(e),
        }
        match self.parse_token(JsonTokenKind::Colon) {
            Ok(_) => {},
            Err(e) => return Err(e),
        }
        match self.next_token() {
            Ok(_) => {},
            Err(e) => return Err(e),
        }
        let value = match self.parse_value() {
            Ok(v) => v,
            Err(e) => return Err(e),
        };
        Ok((key, value))
    }

    fn parse_members(&mut self) -> (r: Result<Vec<(String, JsonValue)>, JsonParserError>)
        requires
            old(self).ready(),
            old(self).current_token_idx >= 1,
        ensures
            final(self).ready(),
            final(self).same_input(old(self)),
            final(self).current_token_idx + 1 >= old(self).current_token_idx,
            ({
                let (sr, si) = spec_members(
                    old(self).tokens@,
                    old(self).source.spec_bytes(),
                    old(self).current_token_idx as int,
                    Seq::empty(),
                );
                &&& final(self).current_token_idx == si
                &&& match sr {
                    Ok(ms) => r matches Ok(v) && data_of_members(v@) == ms,
                    Err(m) => r matches Err(e) && e@ == JsonErrorView::Parser(m),
                }
            }),
        decreases old(self).tokens@.len() - old(self).current_token_idx, 4int,
    {
        let ghost toks = self.tokens@;
        let ghost b = self.source.spec_bytes();
        let ghost start = self.current_token_idx as int;
        let mut members: Vec<(String, JsonValue)> = Vec::new();
        proof {
            assert(data_of_members(members@) =~= Seq::<(Seq<char>, JsonData)>::empty());
        }
        loop
            invariant
                self.ready(),
                self.same_input(old(self)),
                start == old(self).current_token_idx,
                toks == self.tokens@,
                b == self.source.spec_bytes(),
                start >= 1,
                self.current_token_idx >= start,
                spec_members(toks, b, start, Seq::empty()) == spec_members(
                    toks,
                    b,
                    self.current_token_idx as int,
                    data_of_members(members@),
                ),
            decreases toks.len() - self.current_token_idx,
        {
            match self.parse_pair() {
                Ok(pair) => {
                    let ghost before = members@;
                    members.push(pair);
                    proof {
                        assert(members@.drop_last() =~= before);
                    }
                    match self.next_token() {
                        Ok(_) => {},
                        Err(e) => return Err(e),
                    }
                    match self.parse_token(JsonTokenKind::Comma) {
                        Ok(_) => {
                            match self.next_token() {
                                Ok(_) => {},
                                Err(e) => return Err(e),
                            }
                            continue;
                        },
                        Err(_) => {
                            return Ok(members);
                        },
                    }
                },
                Err(e) => {
                    return Err(e);
                },
            }
        }
    }

    fn parse_object(&mut self) -> (r: Result<JsonValue, JsonParserError>)
        requires
            old(self).ready(),
            old(self).tokens@[old(self).current_token_idx as int].kind == JsonTokenKind::LBrace,
        ensures
            final(self).ready(),
            final(self).same_input(old(self)),
            final(self).current_token_idx >= old(self).current_token_idx,
            ({
                let (sr, si) = spec_object(
                    old(self).tokens@,
                    old(self).source.spec_bytes(),
                    old(self).current_token_idx as int,
                );
                &&& final(self).current_token_idx == si
                &&& value_result_view(r) == parser_result(sr)
            }),
        decreases old(self).tokens@.len() - old(self).current_token_idx, 1int,
    {
        match self.parse_token(JsonTokenKind::LBrace) {
            Ok(_) => {},
            Err(e) => return Err(e),
        }
        match self.next_token() {
            Ok(_) => {},
            Err(e) => return Err(e),
        }
        if self.tokens[self.current_token_idx].kind == JsonTokenKind::RBrace {
            return Ok(JsonValue::Object(Vec::new()));
        }
        let members = match self.parse_members() {
            Ok(ms) => ms,
            Err(e) => return Err(e),
        };
        match self.next_token() {
            Ok(_) => {},
            Err(e) => return Err(e),
        }
        match self.parse_token(JsonTokenKind::RBrace) {
            Ok(_) => {},
            Err(e) => return Err(e),
        }
        Ok(JsonValue::Object(object_from_members(members)))
    }

    fn lenient_value(&mut self) -> (r: Result<JsonValue, JsonParserError>)
        requires
            old(self).ready(),
        ensures
            final(self).ready(),
            final(self).same_input(old(self)),
            final(self).current_token_idx >= old(self).current_token_idx,
            ({
                let (sr, si) = spec_lenient_value(
                    old(self).tokens@,
                    old(self).source.spec_bytes(),
                    old(self).current_token_idx as int,
                );
                &&& final(self).current_token_idx == si
                &&& value_result_view(r) == parser_result(sr)
            }),
        decreases old(self).tokens@.len() - old(self).current_token_idx, 2int,
    {
        let first = self.get_token();
        let idx = self.current_token_idx;
        match first.kind {
            JsonTokenKind::Null => Ok(JsonValue::Null),
            JsonTokenKind::True => Ok(JsonValue::True),
            JsonTokenKind::False => Ok(JsonValue::False),
            JsonTokenKind::String => match self.get_string_content(first) {
                Ok(s) => Ok(JsonValue::String(s)),
                Err(e) => Err(e),
            },
            JsonTokenKind::Number => match self.get_number_content(first) {
                Ok(s) => Ok(JsonValue::Number(s)),
                Err(e) => Err(e),
            },
            JsonTokenKind::LBracket => self.lenient_array(),
            JsonTokenKind::LBrace => self.lenient_object(),
            _ => Err(JsonParserError::parser("Unexpected token, position is 0")),
        }
    }

    fn lenient_array(&mut self) -> (r: Result<JsonValue, JsonParserError>)
        requires
            old(self).ready(),
            old(self).tokens@[old(self).current_token_idx as int].kind == JsonTokenKind::LBracket,
        ensures
            final(self).ready(),
            final(self).same_input(old(self)),
            final(self).current_token_idx >= old(self).current_token_idx,
            ({
                let (sr, si) = spec_lenient_array(
                    old(self).tokens@,
                    old(self).source.spec_bytes(),
                    old(self).current_token_idx as int,
                );
                &&& final(self).current_token_idx == si
                &&& value_result_view(r) == parser_result(sr)
            }),
        decreases old(self).tokens@.len() - old(self).current_token_idx, 1int,
    {
        match self.parse_token(JsonTokenKind::LBracket) {
            Ok(_) => {},
            Err(e) => return Err(e),
        }
        match self.next_token() {
            Ok(_) => {},
            Err(e) => return Err(e),
        }
        let elements = match self.lenient_elements() {
            Ok(items) => items,
            Err(e) => return Err(e),
        };
        match self.next_token() {
            Ok(_) => {},
            Err(e) => return Err(e),
        }
        match self.parse_token(JsonTokenKind::RBracket) {
            Ok(_) => {},
            Err(e) => return Err(e),
        }
        Ok(JsonValue::Array(elements))
    }

    fn lenient_elements(&mut self) -> (r: Result<Vec<JsonValue>, JsonParserError>)
        requires
            old(self).ready(),
            old(self).current_token_idx >= 1,
        ensures
            final(self).ready(),
            final(self).same_input(old(self)),
            final(self).current_token_idx + 1 >= old(self).current_token_idx,
            ({
                let (sr, si) = spec_lenient_elements(
                    old(self).tokens@,
                    old(self).source.spec_bytes(),
                    old(self).current_token_idx as int,
                    Seq::empty(),
                );
                &&& final(self).current_token_idx == si
                &&& match sr {
                    Ok(items) => r matches Ok(v) && data_of_items(v@) == items,
                    Err(m) => r matches Err(e) && e@ == JsonErrorView::Parser(m),
                }
            }),
        decreases old(self).tokens@.len() - old(self).current_token_idx, 4int,
    {
        let ghost toks = self.tokens@;
        let ghost b = self.source.spec_bytes();
        let ghost start = self.current_token_idx as int;
        let mut items: Vec<JsonValue> = Vec::new();
        proof {
            assert(data_of_items(items@) =~= Seq::<JsonData>::empty());
        }
        loop
            invariant
                self.ready(),
                self.same_input(old(self)),
                start == old(self).current_token_idx,
                toks == self.tokens@,
                b == self.source.spec_bytes(),
                start >= 1,
                self.current_token_idx >= start,
                spec_lenient_elements(toks, b, start, Seq::empty()) == spec_lenient_elements(
                    toks,
                    b,
                    self.current_token_idx as int,
                    data_of_items(items@),
                ),
            decreases toks.len() - self.current_token_idx,
        {
            let ghost i0 = self.current_token_idx as int;
            match self.lenient_value() {
                Ok(item) => {
                    let ghost before = items@;
                    let ghost item_data = data_of(item);
                    items.push(item);
                    proof {
                        assert(items@.drop_last() =~= before);
                    }
                    match self.next_token() {
                        Ok(_) => {},
                        Err(e) => return Err(e),
                    }
                    match self.parse_token(JsonTokenKind::Comma) {
                        Ok(_) => {
                            match self.next_token() {
                                Ok(_) => {},
                                Err(e) => return Err(e),
                            }
                            continue;
                        },
                        Err(_) => {
                            return Ok(items);
                        },
                    }
                },
                Err(_) => {
                    match self.back_token() {
                        Ok(_) => {},
                        Err(e) => return Err(e),
                    }
                    return Ok(items);
                },
            }
        }
    }

    fn lenient_pair(&mut self) -> (r: Result<(String, JsonValue), JsonParserError>)
        requires
            old(self).ready(),
        ensures
            final(self).ready(),
            final(self).same_input(old(self)),
            final(self).current_token_idx + 1 >= old(self).current_token_idx,
            r is Ok ==> final(self).current_token_idx >= old(self).current_token_idx + 2,
            ({
                let (sr, si) = spec_lenient_pair(
                    old(self).tokens@,
                    old(self).source.spec_bytes(),
                    old(self).current_token_idx as int,
                );
                &&& final(self).current_token_idx == si
                &&& match sr {
                    Ok((k, v)) => r matches Ok(p) && p.0@ == k && data_of(p.1) == v,
                    Err(m) => r matches Err(e) && e@ == JsonErrorView::Parser(m),
                }
            }),
        decreases old(self).tokens@.len() - old(self).current_token_idx, 3int,
    {
        let key_token = match self.parse_token(JsonTokenKind::String) {
            Ok(t) => t,
            Err(e) => return Err(e),
        };
        proof {
            assert(self.tokens@[self.current_token_idx as int] == key_token);
        }
        let key = match self.get_string_content(&key_token) {
            Ok(k) => k,
            Err(e) => return Err(e),
        };
        match self.next_token() {
            Ok(_) => {},
            Err(e) => return Err(e),
        }
        match self.parse_token(JsonTokenKind::Colon) {
            Ok(_) => {},
            Err(e) => return Err(e),
        }
        match self.next_token() {
            Ok(_) => {},
            Err(e) => return Err(e),
        }
        let value = match self.lenient_value() {
            Ok(v) => v,
            Err(e) => return Err(e),
        };
        Ok((key, value))
    }

    fn lenient_members(&mut self) -> (r: Result<Vec<(String, JsonValue)>, JsonParserError>)
        requires
            old(self).ready(),
            old(self).current_token_idx >= 1,
        ensures
            final(self).ready(),
            final(self).same_input(old(self)),
            final(self).current_token_idx + 1 >= old(self).current_token_idx,
            ({
                let (sr, si) = spec_lenient_members(
                    old(self).tokens@,
                    old(self).source.spec_bytes(),
                    old(self).current_token_idx as int,
                    Seq::empty(),
                );
                &&& final(self).current_token_idx == si
                &&& match sr {
                    Ok(ms) => r matches Ok(v) && data_of_members(v@) == ms,
                    Err(m) => r matches Err(e) && e@ == JsonErrorView::Parser(m),
                }
            }),
        decreases old(self).tokens@.len() - old(self).current_token_idx, 4int,
    {
        let ghost toks = self.tokens@;
        let ghost b = self.source.spec_bytes();
        let ghost start = self.current_token_idx as int;
        let mut members: Vec<(String, JsonValue)> = Vec::new();
        proof {
            assert(data_of_members(members@) =~= Seq::<(Seq<char>, JsonData)>::empty());
        }
        loop
            invariant
                self.ready(),
                self.same_input(old(self)),
                start == old(self).current_token_idx,
                toks == self.tokens@,
                b == self.source.spec_bytes(),
                start >= 1,
                self.current_token_idx >= start,
                spec_lenient_members(toks, b, start, Seq::empty()) == spec_lenient_members(
                    toks,
                    b,
                    self.current_token_idx as int,
                    data_of_members(members@),
                ),
            decreases toks.len() - self.current_token_idx,
        {
            match self.lenient_pair() {
                Ok(pair) => {
                    let ghost before = members@;
                    members.push(pair);
                    proof {
                        assert(members@.drop_last() =~= before);
                    }
                    match self.next_token() {
                        Ok(_) => {},
                        Err(e) => return Err(e),
                    }
                    match self.parse_token(JsonTokenKind::Comma) {
                        Ok(_) => {
                            match self.next_token() {
                                Ok(_) => {},
                                Err(e) => return Err(e),
                            }
                            continue;
                        },
                        Err(_) => {
                            return Ok(members);
                        },
                    }
                },
                Err(_) => {
                    return Ok(members);
                },
            }
        }
    }

    fn lenient_object(&mut self) -> (r: Result<JsonValue, JsonParserError>)
        requires
            old(self).ready(),
            old(self).tokens@[old(self).current_token_idx as int].kind == JsonTokenKind::LBrace,
        ensures
            final(self).ready(),
            final(self).same_input(old(self)),
            final(self).current_token_idx >= old(self).current_token_idx,
            ({
                let (sr, si) = spec_lenient_object(
                    old(self).tokens@,
                    old(self).source.spec_bytes(),
                    old(self).current_token_idx as int,
                );
                &&& final(self).current_token_idx == si
                &&& value_result_view(r) == parser_result(sr)
            }),
        decreases old(self).tokens@.len() - old(self).current_token_idx, 1int,
    {
        match self.parse_token(JsonTokenKind::LBrace) {
            Ok(_) => {},
            Err(e) => return Err(e),
        }
        match self.next_token() {
            Ok(_) => {},
            Err(e) => return Err(e),
        }
        let members = match self.lenient_members() {
            Ok(ms) => ms,
            Err(e) => return Err(e),
        };
        match self.next_token() {
            Ok(_) => {},
            Err(e) => return Err(e),
        }
        match self.parse_token(JsonTokenKind::RBrace) {
            Ok(_) => {},
            Err(e) => return Err(e),
        }
        Ok(JsonValue::Object(object_from_members(members)))
    }
}

} // verus!
