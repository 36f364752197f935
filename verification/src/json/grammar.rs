use vstd::prelude::*;

use crate::json::parser::{
    spec_array, spec_back, spec_dedup_members, spec_elements, spec_members, spec_next,
    spec_number_content, spec_object, spec_pair, spec_parse, spec_parse_token,
    spec_string_content, spec_value,
};
use crate::json::token::{JsonToken, JsonTokenKind};
use crate::json::value::JsonData;

verus! {

// ---------------------------------------------------------------------------
// The grammar of JSON over tokens:
//   value    ::= string | number | literal | array | object
//   array    ::= "[" elements? "]"          elements ::= value | value "," elements
//   object   ::= "{" members? "}"           members  ::= pair | pair "," members
//   pair     ::= string ":" value
// A value that opens with `[` or `{` runs to the bracket that closes it, so the tokens
// of a list split at the end of its first value. An object's value holds its members
// with each key once, a later member replacing an earlier one.
// ---------------------------------------------------------------------------

/// `[` or `{`.
pub open spec fn spec_opens(k: JsonTokenKind) -> bool {
    k == JsonTokenKind::LBracket || k == JsonTokenKind::LBrace
}

/// `]` or `}`.
pub open spec fn spec_closes(k: JsonTokenKind) -> bool {
    k == JsonTokenKind::RBracket || k == JsonTokenKind::RBrace
}

/// The index of the bracket that brings the nesting `depth` (counted from `p` on) back
/// to zero; the number of tokens when none does.
pub open spec fn spec_close_index(toks: Seq<JsonToken>, p: int, depth: int) -> int
    decreases toks.len() - p,
{
    if p < 0 || p >= toks.len() {
        toks.len() as int
    } else {
        let d = if spec_opens(toks[p].kind) {
            depth + 1
        } else if spec_closes(toks[p].kind) {
            depth - 1
        } else {
            depth
        };
        if d <= 0 {
            p
        } else {
            spec_close_index(toks, p + 1, d)
        }
    }
}

/// Where the value that starts at `i` ends (exclusive): past its closing bracket, or
/// past its one token.
pub open spec fn spec_value_end(toks: Seq<JsonToken>, i: int) -> int {
    if 0 <= i < toks.len() && spec_opens(toks[i].kind) {
        spec_close_index(toks, i + 1, 1) + 1
    } else {
        i + 1
    }
}

/// The value that the tokens from `i` up to `j` (not included) derive, if they derive one.
pub open spec fn spec_grammar_value(toks: Seq<JsonToken>, b: Seq<u8>, i: int, j: int) -> Option<
    JsonData,
>
    decreases j - i, 1int,
{
    if !(0 <= i < j <= toks.len()) {
        None
    } else {
        let t = toks[i];
        if t.kind == JsonTokenKind::Null && j == i + 1 {
            Some(JsonData::Null)
        } else if t.kind == JsonTokenKind::True && j == i + 1 {
            Some(JsonData::True)
        } else if t.kind == JsonTokenKind::False && j == i + 1 {
            Some(JsonData::False)
        } else if t.kind == JsonTokenKind::String && j == i + 1 {
            match spec_string_content(b, t) {
                Ok(s) => Some(JsonData::Str(s)),
                Err(_) => None,
            }
        } else if t.kind == JsonTokenKind::Number && j == i + 1 {
            match spec_number_content(b, t) {
                Ok(n) => Some(JsonData::Num(n)),
                Err(_) => None,
            }
        } else if t.kind == JsonTokenKind::LBracket && i + 2 <= j && toks[j - 1].kind
            == JsonTokenKind::RBracket {
            if i + 2 == j {
                Some(JsonData::Array(Seq::empty()))
            } else {
                match spec_grammar_elements(toks, b, i + 1, j - 1) {
                    Some(items) => Some(JsonData::Array(items)),
                    None => None,
                }
            }
        } else if t.kind == JsonTokenKind::LBrace && i + 2 <= j && toks[j - 1].kind
            == JsonTokenKind::RBrace {
            if i + 2 == j {
                Some(JsonData::Object(Seq::empty()))
            } else {
                match spec_grammar_members(toks, b, i + 1, j - 1) {
                    Some(ms) => Some(JsonData::Object(spec_dedup_members(ms))),
                    None => None,
                }
            }
        } else {
            None
        }
    }
}

/// The elements that the tokens from `i` up to `j` derive: values with `,` between them.
pub open spec fn spec_grammar_elements(toks: Seq<JsonToken>, b: Seq<u8>, i: int, j: int) -> Option<
    Seq<JsonData>,
>
    decreases j - i, 2int,
{
    if !(0 <= i < j <= toks.len()) {
        None
    } else {
        let k = spec_value_end(toks, i);
        if k == j {
            match spec_grammar_value(toks, b, i, j) {
                Some(v) => Some(seq![v]),
                None => None,
            }
        } else if i < k && k + 1 < j && toks[k].kind == JsonTokenKind::Comma {
            match spec_grammar_value(toks, b, i, k) {
                Some(v) => match spec_grammar_elements(toks, b, k + 1, j) {
                    Some(rest) => Some(seq![v] + rest),
                    None => None,
                },
                None => None,
            }
        } else {
            None
        }
    }
}

/// The member that the tokens from `i` up to `j` derive: a string, `:`, and a value.
pub open spec fn spec_grammar_pair(toks: Seq<JsonToken>, b: Seq<u8>, i: int, j: int) -> Option<
    (Seq<char>, JsonData),
>
    decreases j - i, 1int,
{
    if !(0 <= i && i + 3 <= j <= toks.len()) || toks[i].kind != JsonTokenKind::String || toks[i
        + 1].kind != JsonTokenKind::Colon {
        None
    } else {
        match spec_string_content(b, toks[i]) {
            Ok(key) => match spec_grammar_value(toks, b, i + 2, j) {
                Some(v) => Some((key, v)),
                None => None,
            },
            Err(_) => None,
        }
    }
}

/// The members that the tokens from `i` up to `j` derive: members with `,` between them.
pub open spec fn spec_grammar_members(toks: Seq<JsonToken>, b: Seq<u8>, i: int, j: int) -> Option<
    Seq<(Seq<char>, JsonData)>,
>
    decreases j - i, 2int,
{
    if !(0 <= i < j <= toks.len()) {
        None
    } else {
        let k = spec_value_end(toks, i + 2);
        if k == j {
            match spec_grammar_pair(toks, b, i, j) {
                Some(m) => Some(seq![m]),
                None => None,
            }
        } else if i < k && k + 1 < j && toks[k].kind == JsonTokenKind::Comma {
            match spec_grammar_pair(toks, b, i, k) {
                Some(m) => match spec_grammar_members(toks, b, k + 1, j) {
                    Some(rest) => Some(seq![m] + rest),
                    None => None,
                },
                None => None,
            }
        } else {
            None
        }
    }
}

/// The value that all the tokens together derive, if they derive one.
pub open spec fn spec_grammar(toks: Seq<JsonToken>, b: Seq<u8>) -> Option<JsonData> {
    spec_grammar_value(toks, b, 0, toks.len() as int)
}

// ---------------------------------------------------------------------------
// The parser reads exactly what the grammar derives.
// ---------------------------------------------------------------------------

/// The tokens from `i` up to `j` leave every nesting depth as they found it.
pub open spec fn spec_balanced(toks: Seq<JsonToken>, i: int, j: int) -> bool {
    forall|d: int| d >= 1 ==> #[trigger] spec_close_index(toks, i, d) == spec_close_index(toks, j, d)
}

/// A token that is no bracket leaves the nesting depth as it is.
proof fn lemma_flat_token(toks: Seq<JsonToken>, p: int)
    requires
        0 <= p < toks.len(),
        !spec_opens(toks[p].kind),
        !spec_closes(toks[p].kind),
    ensures
        spec_balanced(toks, p, p + 1),
{
}

/// What the parser reads as a value, the grammar derives from the same tokens, and
/// the tokens are balanced.
proof fn lemma_value_sound(toks: Seq<JsonToken>, b: Seq<u8>, i: int)
    ensures
        spec_value(toks, b, i) matches (Ok(v), e) ==> {
            &&& i <= e < toks.len()
            &&& spec_grammar_value(toks, b, i, e + 1) == Some(v)
            &&& spec_value_end(toks, i) == e + 1
            &&& spec_balanced(toks, i, e + 1)
        },
    decreases toks.len() - i, 2int,
{
    if 0 <= i < toks.len() {
        let k = toks[i].kind;
        if k == JsonTokenKind::LBracket {
            lemma_array_sound(toks, b, i);
        } else if k == JsonTokenKind::LBrace {
            lemma_object_sound(toks, b, i);
        } else if !spec_closes(k) {
            lemma_flat_token(toks, i);
        }
    }
}

proof fn lemma_array_sound(toks: Seq<JsonToken>, b: Seq<u8>, i: int)
    requires
        0 <= i < toks.len(),
        toks[i].kind == JsonTokenKind::LBracket,
    ensures
        spec_array(toks, b, i) matches (Ok(v), e) ==> {
            &&& i <= e < toks.len()
            &&& spec_grammar_value(toks, b, i, e + 1) == Some(v)
            &&& spec_value_end(toks, i) == e + 1
            &&& spec_balanced(toks, i, e + 1)
        },
    decreases toks.len() - i, 1int,
{
    let (r2, i2) = spec_next(toks, i);
    if r2 is Ok && i < i2 < toks.len() {
        if toks[i2].kind == JsonTokenKind::RBracket {
            assert forall|d: int| d >= 1 implies #[trigger] spec_close_index(toks, i, d)
                == spec_close_index(toks, i + 2, d) by {
                assert(spec_close_index(toks, i, d) == spec_close_index(toks, i + 1, d + 1));
            }
        } else {
            let rest = lemma_elements_sound(toks, b, i2, Seq::empty());
            let (r3, i3) = spec_elements(toks, b, i2, Seq::empty());
            if let Ok(items) = r3 {
                assert(items =~= rest);
                let (r4, i4) = spec_next(toks, i3);
                if r4 is Ok {
                    let (r5, i5) = spec_parse_token(toks, i4, JsonTokenKind::RBracket);
                    if r5 is Ok {
                        assert(i5 == i3 + 1);
                        assert(spec_close_index(toks, i + 1, 1) == spec_close_index(toks, i5, 1));
                        assert forall|d: int| d >= 1 implies #[trigger] spec_close_index(toks, i, d)
                            == spec_close_index(toks, i5 + 1, d) by {
                            assert(spec_close_index(toks, i, d) == spec_close_index(toks, i + 1, d + 1));
                            assert(spec_close_index(toks, i + 1, d + 1) == spec_close_index(toks, i5, d + 1));
                        }
                    }
                }
            }
        }
    }
}

proof fn lemma_elements_sound(toks: Seq<JsonToken>, b: Seq<u8>, i: int, acc: Seq<JsonData>) -> (rest:
    Seq<JsonData>)
    ensures
        spec_elements(toks, b, i, acc) matches (Ok(r), e) ==> {
            &&& i <= e < toks.len()
            &&& r == acc + rest
            &&& spec_grammar_elements(toks, b, i, e + 1) == Some(rest)
            &&& spec_balanced(toks, i, e + 1)
        },
    decreases toks.len() - i, 4int,
{
    if 0 <= i < toks.len() {
        lemma_value_sound(toks, b, i);
        let (r, i1) = spec_value(toks, b, i);
        if let Ok(item) = r {
            let items2 = acc.push(item);
            let (n1, i2) = spec_next(toks, i1);
            if n1 is Ok {
                let (c, i3) = spec_parse_token(toks, i2, JsonTokenKind::Comma);
                if c is Ok {
                    let (n2, i4) = spec_next(toks, i3);
                    if n2 is Ok && i < i4 <= toks.len() {
                        let rest2 = lemma_elements_sound(toks, b, i4, items2);
                        let rest = seq![item] + rest2;
                        assert(spec_elements(toks, b, i, acc) == spec_elements(toks, b, i4, items2));
                        if let (Ok(r), e) = spec_elements(toks, b, i, acc) {
                            assert(r =~= acc + rest);
                            lemma_flat_token(toks, i2);
                            assert(spec_grammar_elements(toks, b, i, e + 1) == Some(rest));
                        }
                        return rest;
                    }
                } else {
                    let rest = seq![item];
                    assert(items2 =~= acc + rest);
                    return rest;
                }
            }
        }
    }
    Seq::empty()
}

proof fn lemma_pair_sound(toks: Seq<JsonToken>, b: Seq<u8>, i: int)
    ensures
        spec_pair(toks, b, i) matches (Ok(m), e) ==> {
            &&& i + 2 <= e < toks.len()
            &&& spec_grammar_pair(toks, b, i, e + 1) == Some(m)
            &&& spec_value_end(toks, i + 2) == e + 1
            &&& spec_balanced(toks, i, e + 1)
        },
    decreases toks.len() - i, 3int,
{
    if 0 <= i < toks.len() {
        let (r1, i1) = spec_parse_token(toks, i, JsonTokenKind::String);
        if r1 is Ok {
            let (r2, i2) = spec_next(toks, i1);
            if r2 is Ok {
                let (r3, i3) = spec_parse_token(toks, i2, JsonTokenKind::Colon);
                if r3 is Ok {
                    let (r4, i4) = spec_next(toks, i3);
                    if r4 is Ok && i < i4 <= toks.len() {
                        lemma_value_sound(toks, b, i4);
                        lemma_flat_token(toks, i);
                        lemma_flat_token(toks, i + 1);
                    }
                }
            }
        }
    }
}

proof fn lemma_members_sound(
    toks: Seq<JsonToken>,
    b: Seq<u8>,
    i: int,
    acc: Seq<(Seq<char>, JsonData)>,
) -> (rest: Seq<(Seq<char>, JsonData)>)
    ensures
        spec_members(toks, b, i, acc) matches (Ok(r), e) ==> {
            &&& i <= e < toks.len()
            &&& r == acc + rest
            &&& spec_grammar_members(toks, b, i, e + 1) == Some(rest)
            &&& spec_balanced(toks, i, e + 1)
        },
    decreases toks.len() - i, 4int,
{
    if 0 <= i < toks.len() {
        lemma_pair_sound(toks, b, i);
        let (r, i1) = spec_pair(toks, b, i);
        if let Ok(m) = r {
            let ms2 = acc.push(m);
            let (n1, i2) = spec_next(toks, i1);
            if n1 is Ok {
                let (c, i3) = spec_parse_token(toks, i2, JsonTokenKind::Comma);
                if c is Ok {
                    let (n2, i4) = spec_next(toks, i3);
                    if n2 is Ok && i < i4 <= toks.len() {
                        let rest2 = lemma_members_sound(toks, b, i4, ms2);
                        let rest = seq![m] + rest2;
                        assert(spec_members(toks, b, i, acc) == spec_members(toks, b, i4, ms2));
                        if let (Ok(r), e) = spec_members(toks, b, i, acc) {
                            assert(r =~= acc + rest);
                            lemma_flat_token(toks, i2);
                            assert(spec_grammar_members(toks, b, i, e + 1) == Some(rest));
                        }
                        return rest;
                    }
                } else {
                    let rest = seq![m];
                    assert(ms2 =~= acc + rest);
                    return rest;
                }
            }
        }
    }
    Seq::empty()
}

proof fn lemma_object_sound(toks: Seq<JsonToken>, b: Seq<u8>, i: int)
    requires
        0 <= i < toks.len(),
        toks[i].kind == JsonTokenKind::LBrace,
    ensures
        spec_object(toks, b, i) matches (Ok(v), e) ==> {
            &&& i <= e < toks.len()
            &&& spec_grammar_value(toks, b, i, e + 1) == Some(v)
            &&& spec_value_end(toks, i) == e + 1
            &&& spec_balanced(toks, i, e + 1)
        },
    decreases toks.len() - i, 1int,
{
    let (r2, i2) = spec_next(toks, i);
    if r2 is Ok && i < i2 < toks.len() {
        if toks[i2].kind == JsonTokenKind::RBrace {
            assert forall|d: int| d >= 1 implies #[trigger] spec_close_index(toks, i, d)
                == spec_close_index(toks, i + 2, d) by {
                assert(spec_close_index(toks, i, d) == spec_close_index(toks, i + 1, d + 1));
            }
        } else {
            let rest = lemma_members_sound(toks, b, i2, Seq::empty());
            let (r3, i3) = spec_members(toks, b, i2, Seq::empty());
            if let Ok(ms) = r3 {
                assert(ms =~= rest);
                let (r4, i4) = spec_next(toks, i3);
                if r4 is Ok {
                    let (r5, i5) = spec_parse_token(toks, i4, JsonTokenKind::RBrace);
                    if r5 is Ok {
                        assert(i5 == i3 + 1);
                        assert(spec_close_index(toks, i + 1, 1) == spec_close_index(toks, i5, 1));
                        assert forall|d: int| d >= 1 implies #[trigger] spec_close_index(toks, i, d)
                            == spec_close_index(toks, i5 + 1, d) by {
                            assert(spec_close_index(toks, i, d) == spec_close_index(toks, i + 1, d + 1));
                            assert(spec_close_index(toks, i + 1, d + 1) == spec_close_index(toks, i5, d + 1));
                        }
                    }
                }
            }
        }
    }
}

/// Tokens that derive a value parse to that value, leaving the parser on its last token.
proof fn lemma_value_complete(toks: Seq<JsonToken>, b: Seq<u8>, i: int, j: int)
    requires
        spec_grammar_value(toks, b, i, j) is Some,
    ensures
        spec_value(toks, b, i) == (
            Ok::<JsonData, Seq<char>>(spec_grammar_value(toks, b, i, j)->0),
            j - 1,
        ),
    decreases j - i, 1int,
{
    let k = toks[i].kind;
    if k == JsonTokenKind::LBracket {
        if i + 2 < j {
            let items = spec_grammar_elements(toks, b, i + 1, j - 1)->0;
            lemma_elements_complete(toks, b, i + 1, j - 1, Seq::empty());
            assert(Seq::<JsonData>::empty() + items =~= items);
            lemma_first_token(toks, b, i + 1, j - 1);
        }
    } else if k == JsonTokenKind::LBrace {
        if i + 2 < j {
            let ms = spec_grammar_members(toks, b, i + 1, j - 1)->0;
            lemma_members_complete(toks, b, i + 1, j - 1, Seq::empty());
            assert(Seq::<(Seq<char>, JsonData)>::empty() + ms =~= ms);
            lemma_first_member(toks, b, i + 1, j - 1);
        }
    }
}

/// The first of the tokens that derive elements starts a value.
proof fn lemma_first_token(toks: Seq<JsonToken>, b: Seq<u8>, i: int, j: int)
    requires
        spec_grammar_elements(toks, b, i, j) is Some,
    ensures
        toks[i].kind != JsonTokenKind::RBracket,
{
    let k = spec_value_end(toks, i);
    if k == j {
        assert(spec_grammar_value(toks, b, i, j) is Some);
    } else {
        assert(spec_grammar_value(toks, b, i, k) is Some);
    }
}

/// The first of the tokens that derive members is a string.
proof fn lemma_first_member(toks: Seq<JsonToken>, b: Seq<u8>, i: int, j: int)
    requires
        spec_grammar_members(toks, b, i, j) is Some,
    ensures
        toks[i].kind == JsonTokenKind::String,
{
    let k = spec_value_end(toks, i + 2);
    if k == j {
        assert(spec_grammar_pair(toks, b, i, j) is Some);
    } else {
        assert(spec_grammar_pair(toks, b, i, k) is Some);
    }
}

proof fn lemma_elements_complete(
    toks: Seq<JsonToken>,
    b: Seq<u8>,
    i: int,
    j: int,
    acc: Seq<JsonData>,
)
    requires
        spec_grammar_elements(toks, b, i, j) is Some,
        j < toks.len(),
        toks[j].kind != JsonTokenKind::Comma,
    ensures
        spec_elements(toks, b, i, acc) == (
            Ok::<Seq<JsonData>, Seq<char>>(acc + spec_grammar_elements(toks, b, i, j)->0),
            j - 1,
        ),
    decreases j - i, 2int,
{
    let items = spec_grammar_elements(toks, b, i, j)->0;
    let k = spec_value_end(toks, i);
    if k == j {
        lemma_value_complete(toks, b, i, j);
        assert(spec_back(j) == (Ok::<int, Seq<char>>(j - 1), j - 1));
        assert(acc.push(items[0]) =~= acc + items);
    } else {
        let v = spec_grammar_value(toks, b, i, k)->0;
        let rest = spec_grammar_elements(toks, b, k + 1, j)->0;
        lemma_value_complete(toks, b, i, k);
        lemma_elements_complete(toks, b, k + 1, j, acc.push(v));
        assert(acc.push(v) + rest =~= acc + items);
    }
}

proof fn lemma_pair_complete(toks: Seq<JsonToken>, b: Seq<u8>, i: int, j: int)
    requires
        spec_grammar_pair(toks, b, i, j) is Some,
    ensures
        spec_pair(toks, b, i) == (
            Ok::<(Seq<char>, JsonData), Seq<char>>(spec_grammar_pair(toks, b, i, j)->0),
            j - 1,
        ),
    decreases j - i, 1int,
{
    lemma_value_complete(toks, b, i + 2, j);
}

proof fn lemma_members_complete(
    toks: Seq<JsonToken>,
    b: Seq<u8>,
    i: int,
    j: int,
    acc: Seq<(Seq<char>, JsonData)>,
)
    requires
        spec_grammar_members(toks, b, i, j) is Some,
        j < toks.len(),
        toks[j].kind != JsonTokenKind::Comma,
    ensures
        spec_members(toks, b, i, acc) == (
            Ok::<Seq<(Seq<char>, JsonData)>, Seq<char>>(
                acc + spec_grammar_members(toks, b, i, j)->0,
            ),
            j - 1,
        ),
    decreases j - i, 2int,
{
    let ms = spec_grammar_members(toks, b, i, j)->0;
    let k = spec_value_end(toks, i + 2);
    if k == j {
        lemma_pair_complete(toks, b, i, j);
        assert(spec_back(j) == (Ok::<int, Seq<char>>(j - 1), j - 1));
        assert(acc.push(ms[0]) =~= acc + ms);
    } else {
        let m = spec_grammar_pair(toks, b, i, k)->0;
        let rest = spec_grammar_members(toks, b, k + 1, j)->0;
        lemma_pair_complete(toks, b, i, k);
        lemma_members_complete(toks, b, k + 1, j, acc.push(m));
        assert(acc.push(m) + rest =~= acc + ms);
    }
}

/// The parser reads a value from a sequence of tokens exactly when the grammar derives
/// that value from all of them: a trailing comma, a member without a value and a token
/// after the value are never read. Every other outcome is an error.
pub proof fn law_parse_is_grammar(toks: Seq<JsonToken>, b: Seq<u8>)
    ensures
        spec_parse(toks, b, 0).0 matches Ok(v) ==> spec_grammar(toks, b) == Some(v),
        spec_grammar(toks, b) matches Some(v) ==> spec_parse(toks, b, 0).0 == Ok::<
            JsonData,
            Seq<char>,
        >(v),
{
    lemma_value_sound(toks, b, 0);
    if spec_grammar(toks, b) is Some {
        lemma_value_complete(toks, b, 0, toks.len() as int);
    }
}

} // verus!
