use vstd::prelude::*;
use vstd::utf8::*;

use crate::json::laws::{lemma_dedup_distinct, spec_distinct_keys};
use crate::json::lexer::{
    lemma_number_state_rejects_for_good, lemma_string_close_bounds, spec_candidate_end,
    spec_is_digit, spec_is_separator, spec_is_short_escape,
    spec_literal_text, spec_number_state,
    spec_number_step, spec_single_kind, spec_string_close, spec_token, spec_tokenize,
    spec_tokens_from, spec_valid_number,
};
use crate::json::parser::{
    spec_array, spec_back, spec_elements, spec_members, spec_next, spec_number_content,
    spec_object, spec_pair, spec_parse_token, spec_string_content, spec_value,
};
use crate::json::spec_json_load;
use crate::json::token::{JsonToken, JsonTokenKind};
use crate::json::value::{
    spec_render, spec_render_items, spec_render_member, spec_render_members, JsonData,
};
use crate::source::{spec_decode, Source};

verus! {

// ---------------------------------------------------------------------------
// UTF-8 facts.
// ---------------------------------------------------------------------------

/// Encoding distributes over concatenation.
pub proof fn lemma_encode_concat(a: Seq<char>, c: Seq<char>)
    ensures
        encode_utf8(a + c) == encode_utf8(a) + encode_utf8(c),
    decreases a.len(),
{
    if a.len() == 0 {
        assert(a + c =~= c);
    } else {
        assert((a + c).drop_first() =~= a.drop_first() + c);
        assert((a + c)[0] == a[0]);
        lemma_encode_concat(a.drop_first(), c);
        assert(encode_utf8(a + c) =~= encode_utf8(a) + encode_utf8(c));
    }
}

/// An ASCII character encodes as its own byte.
pub proof fn lemma_encode_ascii_char(c: char)
    requires
        (c as u32) < 0x80,
    ensures
        encode_utf8(seq![c]) == seq![c as u8],
{
    let v = c as u32;
    assert(seq![c].drop_first() =~= Seq::<char>::empty());
    assert(encode_utf8(Seq::<char>::empty()) =~= Seq::<u8>::empty());
    assert(leading_byte_width_1(v) == v as u8) by (bit_vector)
        requires
            v < 0x80,
    ;
    assert(encode_utf8(seq![c]) =~= seq![c as u8]);
}

/// ASCII text encodes as its own bytes.
pub proof fn lemma_encode_ascii(t: Seq<char>)
    requires
        forall|i: int| 0 <= i < t.len() ==> (#[trigger] t[i] as u32) < 0x80,
    ensures
        encode_utf8(t) == Seq::new(t.len(), |i: int| t[i] as u8),
    decreases t.len(),
{
    if t.len() == 0 {
        assert(encode_utf8(t) =~= Seq::new(t.len(), |i: int| t[i] as u8));
    } else {
        let rest = t.drop_first();
        assert forall|i: int| 0 <= i < rest.len() implies (#[trigger] rest[i] as u32) < 0x80 by {
            assert(rest[i] == t[i + 1]);
        }
        lemma_encode_ascii(rest);
        assert((t[0] as u32) < 0x80);
        lemma_encode_ascii_char(t[0]);
        assert(seq![t[0]].drop_first() =~= Seq::<char>::empty());
        assert(encode_scalar(t[0] as u32) == encode_utf8(seq![t[0]]));
        assert(encode_utf8(t) =~= Seq::new(t.len(), |i: int| t[i] as u8));
    }
}


// ---------------------------------------------------------------------------
// Values whose text reads back as themselves.
// ---------------------------------------------------------------------------

/// A string whose text, put between quotes, reads as a string token that ends at the
/// closing quote: each backslash in it starts a valid escape, and no quote or control
/// character stands in it unescaped.
pub open spec fn spec_plain_string(s: Seq<char>) -> bool {
    spec_string_close(encode_utf8(s) + seq![0x22u8], 0) == Some(encode_utf8(s).len() + 1int)
}

/// The bytes of ASCII text.
pub open spec fn spec_ascii_bytes(t: Seq<char>) -> Seq<u8> {
    Seq::new(t.len(), |i: int| t[i] as u8)
}

/// A number text that is ASCII and a valid number token.
pub open spec fn spec_plain_number(t: Seq<char>) -> bool {
    &&& forall|i: int| 0 <= i < t.len() ==> (#[trigger] t[i] as u32) < 0x80
    &&& spec_valid_number(spec_ascii_bytes(t))
}

/// A value whose text reads back as the value: its strings and keys are written as
/// they stand in a string token (each backslash starting a valid escape, no quote or
/// control character unescaped), its numbers are ASCII texts of valid numbers, and the
/// keys of each of its objects are distinct.
pub open spec fn spec_plain(d: JsonData) -> bool
    decreases d,
{
    match d {
        JsonData::Str(s) => spec_plain_string(s),
        JsonData::Num(t) => spec_plain_number(t),
        JsonData::Array(items) => spec_plain_items(items),
        JsonData::Object(ms) => spec_plain_members(ms) && spec_distinct_keys(ms),
        _ => true,
    }
}

/// All the values are plain.
pub open spec fn spec_plain_items(items: Seq<JsonData>) -> bool
    decreases items,
{
    items.len() == 0 || (spec_plain(items[0]) && spec_plain_items(items.drop_first()))
}

/// All the members have plain keys and plain values.
pub open spec fn spec_plain_members(ms: Seq<(Seq<char>, JsonData)>) -> bool
    decreases ms,
{
    ms.len() == 0 || (spec_plain_string(ms[0].0) && spec_plain(ms[0].1) && spec_plain_members(
        ms.drop_first(),
    ))
}

/// The two texts written between a key and its value: `:` and `: `.
pub open spec fn spec_colon_ok(colon: Seq<char>) -> bool {
    colon == seq![':'] || colon == seq![':', ' ']
}

/// The bytes of the text of a value.
pub open spec fn spec_rb(d: JsonData, colon: Seq<char>) -> Seq<u8> {
    encode_utf8(spec_render(d, colon))
}

/// A token result with tokens put in front.
pub open spec fn spec_prepend_tokens(
    ts: Seq<JsonToken>,
    r: Result<Seq<JsonToken>, crate::json::error::JsonErrorView>,
) -> Result<Seq<JsonToken>, crate::json::error::JsonErrorView> {
    match r {
        Ok(rest) => Ok(ts + rest),
        Err(e) => Err(e),
    }
}

// ---------------------------------------------------------------------------
// Sequence facts.
// ---------------------------------------------------------------------------

/// A window of `b` that holds `x + y` holds `x`, then `y`.
pub proof fn lemma_window_split<T>(b: Seq<T>, p: int, x: Seq<T>, y: Seq<T>)
    requires
        0 <= p,
        p + x.len() + y.len() <= b.len(),
        b.subrange(p, p + x.len() + y.len()) == x + y,
    ensures
        b.subrange(p, p + x.len()) == x,
        b.subrange(p + x.len(), p + x.len() + y.len()) == y,
        forall|j: int| 0 <= j < x.len() ==> b[p + j] == x[j],
        forall|j: int| 0 <= j < y.len() ==> b[p + x.len() + j] == y[j],
        y.len() > 0 ==> b[p + x.len()] == y[0],
        x.len() > 0 ==> b[p] == x[0],
{
    let w = b.subrange(p, p + x.len() + y.len());
    assert forall|j: int| 0 <= j < x.len() implies b[p + j] == x[j] by {
        assert(w[j] == b[p + j]);
        assert(w[j] == (x + y)[j]);
    }
    assert forall|j: int| 0 <= j < y.len() implies b[p + x.len() + j] == y[j] by {
        assert(w[x.len() + j] == b[p + x.len() + j]);
        assert(w[x.len() + j] == (x + y)[x.len() + j]);
    }
    assert(b.subrange(p, p + x.len()) =~= x);
    assert(b.subrange(p + x.len(), p + x.len() + y.len()) =~= y);
}

// ---------------------------------------------------------------------------
// Reading tokens from known bytes.
// ---------------------------------------------------------------------------

/// A one-byte token at `p`: read it (or skip it, for whitespace) and go on.
pub proof fn lemma_lex_single(b: Seq<u8>, p: int)
    requires
        0 <= p < b.len(),
        b.len() < usize::MAX,
        spec_single_kind(b[p]) is Some,
    ensures
        spec_tokens_from(b, p) == if b[p] == 0x20 || b[p] == 0x0a || b[p] == 0x0d || b[p] == 0x09 {
            spec_tokens_from(b, p + 1)
        } else {
            spec_prepend_tokens(
                seq![spec_token(spec_single_kind(b[p])->0, p, p + 1)],
                spec_tokens_from(b, p + 1),
            )
        },
{
}

/// Scanning string content gives the same result in any text that holds the same bytes
/// up to where the scan ends.
pub proof fn lemma_close_in_window(x: Seq<u8>, b: Seq<u8>, q: int, j: int, m: int)
    requires
        0 <= j,
        0 <= q + j,
        spec_string_close(x, j) == Some(m),
        q + m <= b.len(),
        forall|k: int| j <= k < m ==> b[q + k] == x[k],
    ensures
        spec_string_close(b, q + j) == Some(q + m),
    decreases x.len() - j,
{
    lemma_string_close_bounds(x, j);
    assert(b[q + j] == x[j]);
    if x[j] == 0x5c {
        if spec_is_short_escape(x, j) {
            lemma_string_close_bounds(x, j + 2);
            assert(b[q + j + 1] == x[j + 1]);
            lemma_close_in_window(x, b, q, j + 2, m);
        } else {
            lemma_string_close_bounds(x, j + 6);
            assert(b[q + j + 1] == x[j + 1]);
            assert(b[q + j + 2] == x[j + 2]);
            assert(b[q + j + 3] == x[j + 3]);
            assert(b[q + j + 4] == x[j + 4]);
            assert(b[q + j + 5] == x[j + 5]);
            lemma_close_in_window(x, b, q, j + 6, m);
        }
    } else if x[j] != 0x22 {
        lemma_close_in_window(x, b, q, j + 1, m);
    }
}

/// The content of a plain string, between quotes in a text, reads up to its closing quote.
pub proof fn lemma_scan_string(b: Seq<u8>, p: int, s: Seq<char>)
    requires
        spec_plain_string(s),
        0 <= p,
        p + encode_utf8(s).len() + 2 <= b.len(),
        b.subrange(p + 1, p + 1 + encode_utf8(s).len()) == encode_utf8(s),
        b[p + 1 + encode_utf8(s).len()] == 0x22,
    ensures
        spec_string_close(b, p + 1) == Some(p + encode_utf8(s).len() + 2),
{
    let e = encode_utf8(s);
    let x = e + seq![0x22u8];
    assert forall|k: int| 0 <= k < e.len() + 1 implies b[p + 1 + k] == x[k] by {
        if k < e.len() {
            assert(b[p + 1 + k] == b.subrange(p + 1, p + 1 + e.len())[k]);
        }
    }
    lemma_close_in_window(x, b, p + 1, 0, e.len() + 1int);
}

/// The candidate of a number runs to the first separator.
pub proof fn lemma_candidate_end_at(b: Seq<u8>, q: int, e: int)
    requires
        0 <= q <= e <= b.len(),
        forall|j: int| q <= j < e ==> !spec_is_separator(#[trigger] b[j]),
        e == b.len() || spec_is_separator(b[e]),
    ensures
        spec_candidate_end(b, q) == e,
    decreases e - q,
{
    if q < e {
        assert(!spec_is_separator(b[q]));
        lemma_candidate_end_at(b, q + 1, e);
    }
}

/// The bytes a number in the automaton's alphabet: digits, signs, the dot and `e`/`E`.
pub open spec fn spec_number_byte(c: u8) -> bool {
    spec_is_digit(c) || c == 0x2d || c == 0x2b || c == 0x2e || c == 0x65 || c == 0x45
}

/// A text that the number automaton has not rejected holds only number bytes.
pub proof fn lemma_number_alphabet(x: Seq<u8>)
    requires
        spec_number_state(x) != -1,
    ensures
        forall|j: int| 0 <= j < x.len() ==> spec_number_byte(#[trigger] x[j]),
        0 <= spec_number_state(x) <= 7,
    decreases x.len(),
{
    if x.len() > 0 {
        let prev = x.drop_last();
        if spec_number_state(prev) == -1 {
            assert(spec_number_state(x) == -1);
        }
        lemma_number_alphabet(prev);
        assert forall|j: int| 0 <= j < x.len() implies spec_number_byte(#[trigger] x[j]) by {
            if j < x.len() - 1 {
                assert(x[j] == prev[j]);
            }
        }
    }
}

/// A valid number starts with a digit or a minus sign.
pub proof fn lemma_number_first(x: Seq<u8>)
    requires
        spec_valid_number(x),
    ensures
        x.len() > 0,
        spec_is_digit(x[0]) || x[0] == 0x2d,
{
    if x.len() == 0 {
        assert(spec_number_state(x) == 0);
    }
    let first = x.subrange(0, 1);
    assert(first.drop_last() =~= Seq::<u8>::empty());
    assert(spec_number_state(Seq::<u8>::empty()) == 0);
    assert(spec_number_state(first.drop_last()) == 0);
    assert(first.last() == x[0]);
    assert(spec_number_state(first) == spec_number_step(0, x[0]));
    if spec_number_state(first) == -1 {
        lemma_number_state_rejects_for_good(x, 1);
    }
}


// ---------------------------------------------------------------------------
// The tokens of the text of a value, with their spans, when the text starts at
// byte offset `p`.
// ---------------------------------------------------------------------------

/// The tokens of a value's text.
pub open spec fn spec_value_tokens(d: JsonData, p: int, colon: Seq<char>) -> Seq<JsonToken>
    decreases d,
{
    let n = spec_rb(d, colon).len() as int;
    match d {
        JsonData::Str(_) => seq![spec_token(JsonTokenKind::String, p, p + n)],
        JsonData::Num(_) => seq![spec_token(JsonTokenKind::Number, p, p + n)],
        JsonData::Null => seq![spec_token(JsonTokenKind::Null, p, p + n)],
        JsonData::True => seq![spec_token(JsonTokenKind::True, p, p + n)],
        JsonData::False => seq![spec_token(JsonTokenKind::False, p, p + n)],
        JsonData::Array(items) => seq![spec_token(JsonTokenKind::LBracket, p, p + 1)]
            + spec_items_tokens(items, p + 1, colon) + seq![
            spec_token(JsonTokenKind::RBracket, p + n - 1, p + n),
        ],
        JsonData::Object(ms) => seq![spec_token(JsonTokenKind::LBrace, p, p + 1)]
            + spec_members_tokens(ms, p + 1, colon) + seq![
            spec_token(JsonTokenKind::RBrace, p + n - 1, p + n),
        ],
    }
}

/// The tokens of the texts of values with `,` between them.
pub open spec fn spec_items_tokens(items: Seq<JsonData>, p: int, colon: Seq<char>) -> Seq<
    JsonToken,
>
    decreases items,
{
    if items.len() == 0 {
        Seq::empty()
    } else if items.len() == 1 {
        spec_value_tokens(items[0], p, colon)
    } else {
        let n0 = spec_rb(items[0], colon).len() as int;
        spec_value_tokens(items[0], p, colon) + seq![
            spec_token(JsonTokenKind::Comma, p + n0, p + n0 + 1),
        ] + spec_items_tokens(items.drop_first(), p + n0 + 1, colon)
    }
}

/// The tokens of a member's text.
pub open spec fn spec_member_tokens(m: (Seq<char>, JsonData), p: int, colon: Seq<char>) -> Seq<
    JsonToken,
>
    decreases m,
{
    let kn = encode_utf8(m.0).len() + 2;
    seq![
        spec_token(JsonTokenKind::String, p, p + kn),
        spec_token(JsonTokenKind::Colon, p + kn, p + kn + 1),
    ] + spec_value_tokens(m.1, p + kn + colon.len(), colon)
}

/// The tokens of the texts of members with `,` between them.
pub open spec fn spec_members_tokens(ms: Seq<(Seq<char>, JsonData)>, p: int, colon: Seq<char>) -> Seq<
    JsonToken,
>
    decreases ms,
{
    if ms.len() == 0 {
        Seq::empty()
    } else if ms.len() == 1 {
        spec_member_tokens(ms[0], p, colon)
    } else {
        let n0 = encode_utf8(spec_render_member(ms[0], colon)).len() as int;
        spec_member_tokens(ms[0], p, colon) + seq![
            spec_token(JsonTokenKind::Comma, p + n0, p + n0 + 1),
        ] + spec_members_tokens(ms.drop_first(), p + n0 + 1, colon)
    }
}

// ---------------------------------------------------------------------------
// The bytes of texts.
// ---------------------------------------------------------------------------

/// The encoding of an ASCII character written in the text.
pub proof fn lemma_encode_lit(c: char)
    requires
        (c as u32) < 0x80,
    ensures
        encode_utf8(seq![c]) == seq![c as u8],
{
    lemma_encode_ascii_char(c);
}

/// The bytes of the texts of scalars and composites, part by part.
pub proof fn lemma_rb_parts(d: JsonData, colon: Seq<char>)
    ensures
        d matches JsonData::Str(s) ==> spec_rb(d, colon) == seq![0x22u8] + encode_utf8(s) + seq![
            0x22u8,
        ],
        d matches JsonData::Array(items) ==> spec_rb(d, colon) == seq![0x5bu8] + encode_utf8(
            spec_render_items(items, colon),
        ) + seq![0x5du8],
        d matches JsonData::Object(ms) ==> spec_rb(d, colon) == seq![0x7bu8] + encode_utf8(
            spec_render_members(ms, colon),
        ) + seq![0x7du8],
        d is Null ==> spec_rb(d, colon) == spec_literal_text(JsonTokenKind::Null),
        d is True ==> spec_rb(d, colon) == spec_literal_text(JsonTokenKind::True),
        d is False ==> spec_rb(d, colon) == spec_literal_text(JsonTokenKind::False),
{
    match d {
        JsonData::Str(s) => {
            lemma_encode_lit('"');
            lemma_encode_concat(seq!['"'], s);
            lemma_encode_concat(seq!['"'] + s, seq!['"']);
        },
        JsonData::Array(items) => {
            let x = spec_render_items(items, colon);
            lemma_encode_lit('[');
            lemma_encode_lit(']');
            lemma_encode_concat(seq!['['], x);
            lemma_encode_concat(seq!['['] + x, seq![']']);
        },
        JsonData::Object(ms) => {
            let x = spec_render_members(ms, colon);
            lemma_encode_lit('{');
            lemma_encode_lit('}');
            lemma_encode_concat(seq!['{'], x);
            lemma_encode_concat(seq!['{'] + x, seq!['}']);
        },
        JsonData::Num(_) => {},
        _ => {
            let t = spec_render(d, colon);
            lemma_encode_ascii(t);
            assert(encode_utf8(t) =~= spec_literal_text(
                if d is Null {
                    JsonTokenKind::Null
                } else if d is True {
                    JsonTokenKind::True
                } else {
                    JsonTokenKind::False
                },
            ));
        },
    }
}

/// The bytes of the texts of values with `,` between them.
pub proof fn lemma_rb_items(items: Seq<JsonData>, colon: Seq<char>)
    requires
        items.len() >= 2,
    ensures
        encode_utf8(spec_render_items(items, colon)) == spec_rb(items[0], colon) + seq![0x2cu8]
            + encode_utf8(spec_render_items(items.drop_first(), colon)),
{
    let a = spec_render(items[0], colon);
    let r = spec_render_items(items.drop_first(), colon);
    lemma_encode_lit(',');
    lemma_encode_concat(a, seq![',']);
    lemma_encode_concat(a + seq![','], r);
}

/// The bytes of a member's text.
pub proof fn lemma_rb_member(m: (Seq<char>, JsonData), colon: Seq<char>)
    requires
        spec_colon_ok(colon),
    ensures
        encode_utf8(spec_render_member(m, colon)) == seq![0x22u8] + encode_utf8(m.0) + seq![0x22u8]
            + encode_utf8(colon) + spec_rb(m.1, colon),
        encode_utf8(colon) == seq![0x3au8] || encode_utf8(colon) == seq![0x3au8, 0x20u8],
        encode_utf8(colon).len() == colon.len(),
{
    let q = seq!['"'];
    lemma_encode_lit('"');
    lemma_encode_concat(q, m.0);
    lemma_encode_concat(q + m.0, q);
    lemma_encode_concat(q + m.0 + q, colon);
    lemma_encode_concat(q + m.0 + q + colon, spec_render(m.1, colon));
    lemma_encode_ascii(colon);
    assert(encode_utf8(colon) =~= seq![0x3au8] || encode_utf8(colon) =~= seq![0x3au8, 0x20u8]);
}

/// The bytes of the texts of members with `,` between them.
pub proof fn lemma_rb_members(ms: Seq<(Seq<char>, JsonData)>, colon: Seq<char>)
    requires
        ms.len() >= 2,
    ensures
        encode_utf8(spec_render_members(ms, colon)) == encode_utf8(spec_render_member(ms[0], colon))
            + seq![0x2cu8] + encode_utf8(spec_render_members(ms.drop_first(), colon)),
{
    let a = spec_render_member(ms[0], colon);
    let r = spec_render_members(ms.drop_first(), colon);
    lemma_encode_lit(',');
    lemma_encode_concat(a, seq![',']);
    lemma_encode_concat(a + seq![','], r);
}


// ---------------------------------------------------------------------------
// Reading the text of a plain value gives its tokens.
// ---------------------------------------------------------------------------

/// Putting tokens in front twice puts their concatenation in front.
pub proof fn lemma_prepend_assoc(
    a: Seq<JsonToken>,
    b: Seq<JsonToken>,
    r: Result<Seq<JsonToken>, crate::json::error::JsonErrorView>,
)
    ensures
        spec_prepend_tokens(a, spec_prepend_tokens(b, r)) == spec_prepend_tokens(a + b, r),
        spec_prepend_tokens(Seq::empty(), r) == r,
{
    match r {
        Ok(rest) => {
            assert(a + (b + rest) =~= (a + b) + rest);
            assert(Seq::<JsonToken>::empty() + rest =~= rest);
        },
        Err(_) => {},
    }
}

/// The text of a value is never empty.
pub proof fn lemma_rb_nonempty(d: JsonData, colon: Seq<char>)
    requires
        spec_plain(d),
    ensures
        spec_rb(d, colon).len() >= 1,
{
    lemma_rb_parts(d, colon);
    if let JsonData::Num(t) = d {
        lemma_encode_ascii(t);
        lemma_number_first(spec_ascii_bytes(t));
    }
}

/// The hypotheses shared by the reading lemmas: `x` stands in `b` at `p`, followed by a
/// separator or the end.
pub open spec fn spec_stands_at(b: Seq<u8>, p: int, x: Seq<u8>) -> bool {
    &&& b.len() < usize::MAX
    &&& 0 <= p
    &&& p + x.len() <= b.len()
    &&& b.subrange(p, p + x.len()) == x
    &&& (p + x.len() == b.len() || spec_is_separator(b[p + x.len()]))
}

/// What reading from `p` gives when the text `x` there has the tokens `ts`.
pub open spec fn spec_reads_as(b: Seq<u8>, p: int, x: Seq<u8>, ts: Seq<JsonToken>) -> bool {
    spec_tokens_from(b, p) == spec_prepend_tokens(ts, spec_tokens_from(b, p + x.len()))
}

/// Reading a plain string.
proof fn lemma_lex_string(b: Seq<u8>, p: int, s: Seq<char>, colon: Seq<char>)
    requires
        spec_plain_string(s),
        spec_stands_at(b, p, spec_rb(JsonData::Str(s), colon)),
    ensures
        spec_reads_as(
            b,
            p,
            spec_rb(JsonData::Str(s), colon),
            spec_value_tokens(JsonData::Str(s), p, colon),
        ),
{
    let d = JsonData::Str(s);
    lemma_rb_parts(d, colon);
    let e = encode_utf8(s);
    lemma_window_split(b, p, seq![0x22u8] + e, seq![0x22u8]);
    lemma_window_split(b, p, seq![0x22u8], e);
    lemma_scan_string(b, p, s);
}

/// Reading a plain number.
proof fn lemma_lex_number(b: Seq<u8>, p: int, t: Seq<char>, colon: Seq<char>)
    requires
        spec_plain_number(t),
        spec_stands_at(b, p, spec_rb(JsonData::Num(t), colon)),
    ensures
        spec_reads_as(
            b,
            p,
            spec_rb(JsonData::Num(t), colon),
            spec_value_tokens(JsonData::Num(t), p, colon),
        ),
{
    let x = spec_rb(JsonData::Num(t), colon);
    let n = x.len() as int;
    lemma_encode_ascii(t);
    let a = spec_ascii_bytes(t);
    assert(x =~= a);
    lemma_number_first(a);
    lemma_number_alphabet(a);
    assert forall|j: int| p <= j < p + n implies !spec_is_separator(#[trigger] b[j]) by {
        assert(b[j] == b.subrange(p, p + n)[j - p]);
        assert(spec_number_byte(a[j - p]));
    }
    lemma_candidate_end_at(b, p, p + n);
    assert(b[p] == b.subrange(p, p + n)[0]);
}

/// Reading a literal.
proof fn lemma_lex_literal(b: Seq<u8>, p: int, d: JsonData, colon: Seq<char>)
    requires
        d is Null || d is True || d is False,
        spec_stands_at(b, p, spec_rb(d, colon)),
    ensures
        spec_reads_as(b, p, spec_rb(d, colon), spec_value_tokens(d, p, colon)),
{
    lemma_rb_parts(d, colon);
    assert(b[p] == b.subrange(p, p + spec_rb(d, colon).len())[0]);
}

/// Reading the text of a plain value, followed by a separator or the end, gives the
/// value's tokens, then whatever follows.
pub proof fn lemma_lex_value(b: Seq<u8>, p: int, d: JsonData, colon: Seq<char>)
    requires
        spec_plain(d),
        spec_colon_ok(colon),
        spec_stands_at(b, p, spec_rb(d, colon)),
    ensures
        spec_reads_as(b, p, spec_rb(d, colon), spec_value_tokens(d, p, colon)),
    decreases d, 2int,
{
    match d {
        JsonData::Str(s) => lemma_lex_string(b, p, s, colon),
        JsonData::Num(t) => lemma_lex_number(b, p, t, colon),
        JsonData::Array(items) => lemma_lex_array(b, p, items, colon),
        JsonData::Object(ms) => lemma_lex_object(b, p, ms, colon),
        _ => lemma_lex_literal(b, p, d, colon),
    }
}

/// Reading an array of plain values.
proof fn lemma_lex_array(b: Seq<u8>, p: int, items: Seq<JsonData>, colon: Seq<char>)
    requires
        spec_plain_items(items),
        spec_colon_ok(colon),
        spec_stands_at(b, p, spec_rb(JsonData::Array(items), colon)),
    ensures
        spec_reads_as(
            b,
            p,
            spec_rb(JsonData::Array(items), colon),
            spec_value_tokens(JsonData::Array(items), p, colon),
        ),
    decreases items, 1int,
{
    let d = JsonData::Array(items);
    let n = spec_rb(d, colon).len() as int;
    lemma_rb_parts(d, colon);
    let y = encode_utf8(spec_render_items(items, colon));
    lemma_window_split(b, p, seq![0x5bu8] + y, seq![0x5du8]);
    lemma_window_split(b, p, seq![0x5bu8], y);
    lemma_lex_single(b, p);
    lemma_lex_items(b, p + 1, items, colon);
    lemma_lex_single(b, p + 1 + y.len());
    let open_t = seq![spec_token(JsonTokenKind::LBracket, p, p + 1)];
    let close_t = seq![spec_token(JsonTokenKind::RBracket, p + n - 1, p + n)];
    let mid = spec_items_tokens(items, p + 1, colon);
    lemma_prepend_assoc(mid, close_t, spec_tokens_from(b, p + n));
    lemma_prepend_assoc(open_t, mid + close_t, spec_tokens_from(b, p + n));
    assert(open_t + (mid + close_t) =~= open_t + mid + close_t);
}

/// Reading an object of plain members.
proof fn lemma_lex_object(
    b: Seq<u8>,
    p: int,
    ms: Seq<(Seq<char>, JsonData)>,
    colon: Seq<char>,
)
    requires
        spec_plain_members(ms),
        spec_colon_ok(colon),
        spec_stands_at(b, p, spec_rb(JsonData::Object(ms), colon)),
    ensures
        spec_reads_as(
            b,
            p,
            spec_rb(JsonData::Object(ms), colon),
            spec_value_tokens(JsonData::Object(ms), p, colon),
        ),
    decreases ms, 1int,
{
    let d = JsonData::Object(ms);
    let n = spec_rb(d, colon).len() as int;
    lemma_rb_parts(d, colon);
    let y = encode_utf8(spec_render_members(ms, colon));
    lemma_window_split(b, p, seq![0x7bu8] + y, seq![0x7du8]);
    lemma_window_split(b, p, seq![0x7bu8], y);
    lemma_lex_single(b, p);
    lemma_lex_members(b, p + 1, ms, colon);
    lemma_lex_single(b, p + 1 + y.len());
    let open_t = seq![spec_token(JsonTokenKind::LBrace, p, p + 1)];
    let close_t = seq![spec_token(JsonTokenKind::RBrace, p + n - 1, p + n)];
    let mid = spec_members_tokens(ms, p + 1, colon);
    lemma_prepend_assoc(mid, close_t, spec_tokens_from(b, p + n));
    lemma_prepend_assoc(open_t, mid + close_t, spec_tokens_from(b, p + n));
    assert(open_t + (mid + close_t) =~= open_t + mid + close_t);
}

/// Reading the texts of plain values with `,` between them.
pub proof fn lemma_lex_items(b: Seq<u8>, p: int, items: Seq<JsonData>, colon: Seq<char>)
    requires
        spec_plain_items(items),
        spec_colon_ok(colon),
        spec_stands_at(b, p, encode_utf8(spec_render_items(items, colon))),
    ensures
        spec_reads_as(
            b,
            p,
            encode_utf8(spec_render_items(items, colon)),
            spec_items_tokens(items, p, colon),
        ),
    decreases items, 0int,
{
    let y = encode_utf8(spec_render_items(items, colon));
    if items.len() == 0 {
        assert(y =~= Seq::<u8>::empty());
        lemma_prepend_assoc(Seq::empty(), Seq::empty(), spec_tokens_from(b, p));
    } else if items.len() == 1 {
        lemma_lex_value(b, p, items[0], colon);
    } else {
        let x0 = spec_rb(items[0], colon);
        let rest = items.drop_first();
        let yr = encode_utf8(spec_render_items(rest, colon));
        lemma_rb_items(items, colon);
        lemma_window_split(b, p, x0 + seq![0x2cu8], yr);
        lemma_window_split(b, p, x0, seq![0x2cu8]);
        lemma_lex_value(b, p, items[0], colon);
        lemma_lex_single(b, p + x0.len());
        lemma_lex_items(b, p + x0.len() + 1, rest, colon);
        let t0 = spec_value_tokens(items[0], p, colon);
        let tc = seq![spec_token(JsonTokenKind::Comma, p + x0.len(), p + x0.len() + 1)];
        let tr = spec_items_tokens(rest, p + x0.len() + 1, colon);
        let end = spec_tokens_from(b, p + y.len());
        lemma_prepend_assoc(tc, tr, end);
        lemma_prepend_assoc(t0, tc + tr, end);
        assert(t0 + (tc + tr) =~= t0 + tc + tr);
    }
}

/// Reading the text of a member.
pub proof fn lemma_lex_member(b: Seq<u8>, p: int, m: (Seq<char>, JsonData), colon: Seq<char>)
    requires
        spec_plain_string(m.0),
        spec_plain(m.1),
        spec_colon_ok(colon),
        spec_stands_at(b, p, encode_utf8(spec_render_member(m, colon))),
    ensures
        spec_reads_as(
            b,
            p,
            encode_utf8(spec_render_member(m, colon)),
            spec_member_tokens(m, p, colon),
        ),
    decreases m, 0int,
{
    let y = encode_utf8(spec_render_member(m, colon));
    let e = encode_utf8(m.0);
    let cb = encode_utf8(colon);
    let v = spec_rb(m.1, colon);
    lemma_rb_member(m, colon);
    let key = seq![0x22u8] + e + seq![0x22u8];
    lemma_window_split(b, p, key + cb, v);
    lemma_window_split(b, p, key, cb);
    lemma_window_split(b, p, seq![0x22u8] + e, seq![0x22u8]);
    lemma_window_split(b, p, seq![0x22u8], e);
    // the key
    lemma_scan_string(b, p, m.0);
    let kn = key.len() as int;
    let kt = seq![spec_token(JsonTokenKind::String, p, p + kn)];
    // the colon, and the space after it
    lemma_lex_single(b, p + kn);
    let ct = seq![spec_token(JsonTokenKind::Colon, p + kn, p + kn + 1)];
    if cb.len() == 2 {
        assert(b[p + kn + 1] == cb[1]);
        lemma_lex_single(b, p + kn + 1);
    }
    lemma_rb_nonempty(m.1, colon);
    lemma_lex_value(b, p + kn + cb.len(), m.1, colon);
    let vt = spec_value_tokens(m.1, p + kn + colon.len(), colon);
    let end = spec_tokens_from(b, p + y.len());
    lemma_prepend_assoc(ct, vt, end);
    lemma_prepend_assoc(kt, ct + vt, end);
    assert(kt + (ct + vt) =~= spec_member_tokens(m, p, colon));
}

/// Reading the texts of members with `,` between them.
pub proof fn lemma_lex_members(
    b: Seq<u8>,
    p: int,
    ms: Seq<(Seq<char>, JsonData)>,
    colon: Seq<char>,
)
    requires
        spec_plain_members(ms),
        spec_colon_ok(colon),
        spec_stands_at(b, p, encode_utf8(spec_render_members(ms, colon))),
    ensures
        spec_reads_as(
            b,
            p,
            encode_utf8(spec_render_members(ms, colon)),
            spec_members_tokens(ms, p, colon),
        ),
    decreases ms, 0int,
{
    let y = encode_utf8(spec_render_members(ms, colon));
    if ms.len() == 0 {
        assert(y =~= Seq::<u8>::empty());
        lemma_prepend_assoc(Seq::empty(), Seq::empty(), spec_tokens_from(b, p));
    } else if ms.len() == 1 {
        lemma_lex_member(b, p, ms[0], colon);
    } else {
        let x0 = encode_utf8(spec_render_member(ms[0], colon));
        let rest = ms.drop_first();
        let yr = encode_utf8(spec_render_members(rest, colon));
        lemma_rb_members(ms, colon);
        lemma_window_split(b, p, x0 + seq![0x2cu8], yr);
        lemma_window_split(b, p, x0, seq![0x2cu8]);
        lemma_lex_member(b, p, ms[0], colon);
        lemma_lex_single(b, p + x0.len());
        lemma_lex_members(b, p + x0.len() + 1, rest, colon);
        let t0 = spec_member_tokens(ms[0], p, colon);
        let tc = seq![spec_token(JsonTokenKind::Comma, p + x0.len(), p + x0.len() + 1)];
        let tr = spec_members_tokens(rest, p + x0.len() + 1, colon);
        let end = spec_tokens_from(b, p + y.len());
        lemma_prepend_assoc(tc, tr, end);
        lemma_prepend_assoc(t0, tc + tr, end);
        assert(t0 + (tc + tr) =~= t0 + tc + tr);
    }
}


// ---------------------------------------------------------------------------
// Parsing the tokens of a plain value gives the value.
// ---------------------------------------------------------------------------

/// `ts` stands in `toks` from index `i`.
pub open spec fn spec_tokens_at(toks: Seq<JsonToken>, i: int, ts: Seq<JsonToken>) -> bool {
    &&& 0 <= i
    &&& i + ts.len() <= toks.len()
    &&& toks.subrange(i, i + ts.len()) == ts
}

/// The tokens of a value's text are never none.
pub proof fn lemma_value_tokens_nonempty(d: JsonData, p: int, colon: Seq<char>)
    ensures
        spec_value_tokens(d, p, colon).len() >= 1,
        spec_value_tokens(d, p, colon)[0].span.start == p as usize,
{
}

/// A quoted plain string in valid UTF-8 text is a slice whose content decodes to the string.
proof fn lemma_string_slice(b: Seq<u8>, p: int, s: Seq<char>)
    requires
        valid_utf8(b),
        spec_plain_string(s),
        0 <= p,
        p + encode_utf8(s).len() + 2 <= b.len(),
        b.subrange(p, p + encode_utf8(s).len() + 2) == seq![0x22u8] + encode_utf8(s) + seq![0x22u8],
    ensures
        Source::spec_slice_ok(b, p + 1, p + encode_utf8(s).len() + 1),
        spec_decode(b.subrange(p + 1, p + encode_utf8(s).len() + 1)) == s,
{
    let e = encode_utf8(s);
    lemma_window_split(b, p, seq![0x22u8] + e, seq![0x22u8]);
    lemma_window_split(b, p, seq![0x22u8], e);
    if s.len() > 0 {
        encode_utf8_first_scalar(s);
    }
    is_char_boundary_iff_not_is_continuation_byte(b, p + 1);
    is_char_boundary_iff_not_is_continuation_byte(b, p + e.len() + 1);
    if e.len() > 0 {
        assert(b[p + 1] == e[0]);
    }
    encode_utf8_decode_utf8(s);
}

/// Parsing the tokens of a plain value, in a text that holds the value's text where
/// the tokens say, gives the value, leaving the parser on the value's last token.
pub proof fn lemma_parse_value(
    toks: Seq<JsonToken>,
    b: Seq<u8>,
    i: int,
    d: JsonData,
    p: int,
    colon: Seq<char>,
)
    requires
        spec_plain(d),
        spec_colon_ok(colon),
        valid_utf8(b),
        spec_stands_at(b, p, spec_rb(d, colon)),
        spec_tokens_at(toks, i, spec_value_tokens(d, p, colon)),
    ensures
        spec_value(toks, b, i) == (
            Ok::<JsonData, Seq<char>>(d),
            i + spec_value_tokens(d, p, colon).len() - 1,
        ),
    decreases d, 2int,
{
    let ts = spec_value_tokens(d, p, colon);
    let n = spec_rb(d, colon).len() as int;
    lemma_rb_parts(d, colon);
    lemma_rb_nonempty(d, colon);
    assert(toks[i] == ts[0]);
    match d {
        JsonData::Str(s) => {
            lemma_string_slice(b, p, s);
        },
        JsonData::Num(t) => {
            lemma_encode_ascii(t);
            let a = spec_ascii_bytes(t);
            assert(spec_rb(d, colon) =~= a);
            lemma_number_first(a);
            assert(b[p] == b.subrange(p, p + n)[0]);
            is_char_boundary_iff_not_is_continuation_byte(b, p);
            if p + n < b.len() {
                is_char_boundary_iff_not_is_continuation_byte(b, p + n);
            } else {
                is_char_boundary_start_end_of_seq(b);
            }
            assert(b.subrange(p, p + n) == encode_utf8(t));
            encode_utf8_decode_utf8(t);
        },
        JsonData::Array(items) => lemma_parse_array(toks, b, i, items, p, colon),
        JsonData::Object(ms) => lemma_parse_object(toks, b, i, ms, p, colon),
        _ => {},
    }
}

/// Parsing the tokens of an array of plain values.
proof fn lemma_parse_array(
    toks: Seq<JsonToken>,
    b: Seq<u8>,
    i: int,
    items: Seq<JsonData>,
    p: int,
    colon: Seq<char>,
)
    requires
        spec_plain_items(items),
        spec_colon_ok(colon),
        valid_utf8(b),
        spec_stands_at(b, p, spec_rb(JsonData::Array(items), colon)),
        spec_tokens_at(toks, i, spec_value_tokens(JsonData::Array(items), p, colon)),
    ensures
        spec_value(toks, b, i) == (
            Ok::<JsonData, Seq<char>>(JsonData::Array(items)),
            i + spec_value_tokens(JsonData::Array(items), p, colon).len() - 1,
        ),
    decreases items, 1int,
{
    let d = JsonData::Array(items);
    let ts = spec_value_tokens(d, p, colon);
    let n = spec_rb(d, colon).len() as int;
    let it = spec_items_tokens(items, p + 1, colon);
    let open_t = seq![spec_token(JsonTokenKind::LBracket, p, p + 1)];
    let close_t = seq![spec_token(JsonTokenKind::RBracket, p + n - 1, p + n)];
    assert(ts == open_t + it + close_t);
    lemma_window_split(toks, i, open_t + it, close_t);
    lemma_window_split(toks, i, open_t, it);
    lemma_rb_parts(d, colon);
    let y = encode_utf8(spec_render_items(items, colon));
    lemma_window_split(b, p, seq![0x5bu8] + y, seq![0x5du8]);
    lemma_window_split(b, p, seq![0x5bu8], y);
    let close_i = i + 1 + it.len();
    assert(toks[close_i] == close_t[0]);
    if items.len() == 0 {
        assert(it =~= Seq::<JsonToken>::empty());

    } else {
        lemma_parse_elements(toks, b, i + 1, Seq::empty(), items, p + 1, colon);
        assert(Seq::<JsonData>::empty() + items =~= items);
    }
    assert(spec_array(toks, b, i) == (Ok::<JsonData, Seq<char>>(d), close_i));
}

/// Parsing the tokens of plain values with `,` between them, followed by a `]`.
proof fn lemma_parse_elements(
    toks: Seq<JsonToken>,
    b: Seq<u8>,
    i: int,
    acc: Seq<JsonData>,
    items: Seq<JsonData>,
    p: int,
    colon: Seq<char>,
)
    requires
        items.len() > 0,
        spec_plain_items(items),
        spec_colon_ok(colon),
        valid_utf8(b),
        spec_stands_at(b, p, encode_utf8(spec_render_items(items, colon))),
        spec_tokens_at(toks, i, spec_items_tokens(items, p, colon)),
        i >= 1,
        i + spec_items_tokens(items, p, colon).len() < toks.len(),
        toks[i + spec_items_tokens(items, p, colon).len()].kind == JsonTokenKind::RBracket,
    ensures
        spec_elements(toks, b, i, acc) == (
            Ok::<Seq<JsonData>, Seq<char>>(acc + items),
            i + spec_items_tokens(items, p, colon).len() - 1,
        ),
    decreases items, 0int,
{
    let it = spec_items_tokens(items, p, colon);
    let t0 = spec_value_tokens(items[0], p, colon);
    let x0 = spec_rb(items[0], colon);
    lemma_value_tokens_nonempty(items[0], p, colon);
    if items.len() == 1 {
        assert(it == t0);
        assert(encode_utf8(spec_render_items(items, colon)) == x0);
        lemma_parse_value(toks, b, i, items[0], p, colon);
        assert(acc.push(items[0]) =~= acc + items);
    } else {
        let rest = items.drop_first();
        let tc = seq![spec_token(JsonTokenKind::Comma, p + x0.len(), p + x0.len() + 1)];
        let tr = spec_items_tokens(rest, p + x0.len() + 1, colon);
        assert(it == t0 + tc + tr);
        lemma_window_split(toks, i, t0 + tc, tr);
        lemma_window_split(toks, i, t0, tc);
        lemma_rb_items(items, colon);
        let yr = encode_utf8(spec_render_items(rest, colon));
        lemma_window_split(b, p, x0 + seq![0x2cu8], yr);
        lemma_window_split(b, p, x0, seq![0x2cu8]);
        lemma_parse_value(toks, b, i, items[0], p, colon);
        assert(toks[i + t0.len()] == tc[0]);
        assert(toks[i + it.len()] == toks[i + t0.len() + 1 + tr.len()]);
        lemma_parse_elements(toks, b, i + t0.len() + 1, acc.push(items[0]), rest, p + x0.len() + 1, colon);
        assert(acc.push(items[0]) + rest =~= acc + items);
    }
}

/// Parsing the tokens of a plain member.
proof fn lemma_parse_pair(
    toks: Seq<JsonToken>,
    b: Seq<u8>,
    i: int,
    m: (Seq<char>, JsonData),
    p: int,
    colon: Seq<char>,
)
    requires
        spec_plain_string(m.0),
        spec_plain(m.1),
        spec_colon_ok(colon),
        valid_utf8(b),
        spec_stands_at(b, p, encode_utf8(spec_render_member(m, colon))),
        spec_tokens_at(toks, i, spec_member_tokens(m, p, colon)),
    ensures
        spec_pair(toks, b, i) == (
            Ok::<(Seq<char>, JsonData), Seq<char>>(m),
            i + spec_member_tokens(m, p, colon).len() - 1,
        ),
    decreases m, 1int,
{
    let mt = spec_member_tokens(m, p, colon);
    let e = encode_utf8(m.0);
    let kn = e.len() + 2;
    let kc = seq![
        spec_token(JsonTokenKind::String, p, p + kn),
        spec_token(JsonTokenKind::Colon, p + kn, p + kn + 1),
    ];
    let vt = spec_value_tokens(m.1, p + kn + colon.len(), colon);
    assert(mt == kc + vt);
    lemma_window_split(toks, i, kc, vt);
    lemma_rb_member(m, colon);
    let cb = encode_utf8(colon);
    let v = spec_rb(m.1, colon);
    let key = seq![0x22u8] + e + seq![0x22u8];
    lemma_window_split(b, p, key + cb, v);
    lemma_window_split(b, p, key, cb);
    lemma_string_slice(b, p, m.0);
    lemma_value_tokens_nonempty(m.1, p + kn + colon.len(), colon);
    lemma_parse_value(toks, b, i + 2, m.1, p + kn + colon.len(), colon);
    assert(toks[i] == kc[0]);
    assert(toks[i + 1] == kc[1]);
}

/// Parsing the tokens of plain members with `,` between them, followed by a `}`.
proof fn lemma_parse_members(
    toks: Seq<JsonToken>,
    b: Seq<u8>,
    i: int,
    acc: Seq<(Seq<char>, JsonData)>,
    ms: Seq<(Seq<char>, JsonData)>,
    p: int,
    colon: Seq<char>,
)
    requires
        ms.len() > 0,
        spec_plain_members(ms),
        spec_colon_ok(colon),
        valid_utf8(b),
        spec_stands_at(b, p, encode_utf8(spec_render_members(ms, colon))),
        spec_tokens_at(toks, i, spec_members_tokens(ms, p, colon)),
        i >= 1,
        i + spec_members_tokens(ms, p, colon).len() < toks.len(),
        toks[i + spec_members_tokens(ms, p, colon).len()].kind == JsonTokenKind::RBrace,
    ensures
        spec_members(toks, b, i, acc) == (
            Ok::<Seq<(Seq<char>, JsonData)>, Seq<char>>(acc + ms),
            i + spec_members_tokens(ms, p, colon).len() - 1,
        ),
    decreases ms, 0int,
{
    let mts = spec_members_tokens(ms, p, colon);
    let t0 = spec_member_tokens(ms[0], p, colon);
    let x0 = encode_utf8(spec_render_member(ms[0], colon));
    if ms.len() == 1 {
        assert(mts == t0);
        lemma_parse_pair(toks, b, i, ms[0], p, colon);
        assert(acc.push(ms[0]) =~= acc + ms);
    } else {
        let rest = ms.drop_first();
        let tc = seq![spec_token(JsonTokenKind::Comma, p + x0.len(), p + x0.len() + 1)];
        let tr = spec_members_tokens(rest, p + x0.len() + 1, colon);
        assert(mts == t0 + tc + tr);
        lemma_window_split(toks, i, t0 + tc, tr);
        lemma_window_split(toks, i, t0, tc);
        lemma_rb_members(ms, colon);
        let yr = encode_utf8(spec_render_members(rest, colon));
        lemma_window_split(b, p, x0 + seq![0x2cu8], yr);
        lemma_window_split(b, p, x0, seq![0x2cu8]);
        lemma_parse_pair(toks, b, i, ms[0], p, colon);
        assert(toks[i + t0.len()] == tc[0]);
        assert(toks[i + mts.len()] == toks[i + t0.len() + 1 + tr.len()]);
        lemma_parse_members(toks, b, i + t0.len() + 1, acc.push(ms[0]), rest, p + x0.len() + 1, colon);
        assert(acc.push(ms[0]) + rest =~= acc + ms);
    }
}

/// Parsing the tokens of an object of plain members.
proof fn lemma_parse_object(
    toks: Seq<JsonToken>,
    b: Seq<u8>,
    i: int,
    ms: Seq<(Seq<char>, JsonData)>,
    p: int,
    colon: Seq<char>,
)
    requires
        spec_plain_members(ms),
        spec_distinct_keys(ms),
        spec_colon_ok(colon),
        valid_utf8(b),
        spec_stands_at(b, p, spec_rb(JsonData::Object(ms), colon)),
        spec_tokens_at(toks, i, spec_value_tokens(JsonData::Object(ms), p, colon)),
    ensures
        spec_value(toks, b, i) == (
            Ok::<JsonData, Seq<char>>(JsonData::Object(ms)),
            i + spec_value_tokens(JsonData::Object(ms), p, colon).len() - 1,
        ),
    decreases ms, 1int,
{
    let d = JsonData::Object(ms);
    let ts = spec_value_tokens(d, p, colon);
    let n = spec_rb(d, colon).len() as int;
    let mt = spec_members_tokens(ms, p + 1, colon);
    let open_t = seq![spec_token(JsonTokenKind::LBrace, p, p + 1)];
    let close_t = seq![spec_token(JsonTokenKind::RBrace, p + n - 1, p + n)];
    assert(ts == open_t + mt + close_t);
    lemma_window_split(toks, i, open_t + mt, close_t);
    lemma_window_split(toks, i, open_t, mt);
    lemma_rb_parts(d, colon);
    let y = encode_utf8(spec_render_members(ms, colon));
    lemma_window_split(b, p, seq![0x7bu8] + y, seq![0x7du8]);
    lemma_window_split(b, p, seq![0x7bu8], y);
    let close_i = i + 1 + mt.len();
    assert(toks[close_i] == close_t[0]);
    lemma_dedup_distinct(ms);
    if ms.len() == 0 {
        assert(mt =~= Seq::<JsonToken>::empty());

    } else {
        lemma_parse_members(toks, b, i + 1, Seq::empty(), ms, p + 1, colon);
        assert(Seq::<(Seq<char>, JsonData)>::empty() + ms =~= ms);
    }
    assert(spec_object(toks, b, i) == (Ok::<JsonData, Seq<char>>(d), close_i));
}


// ---------------------------------------------------------------------------
// Loading the text of a value gives the value back.
// ---------------------------------------------------------------------------

/// The text of a plain value, written with either separator between keys and values,
/// loads back to the value itself.
pub proof fn lemma_load_of_render(d: JsonData, colon: Seq<char>)
    requires
        spec_plain(d),
        spec_colon_ok(colon),
        spec_rb(d, colon).len() < usize::MAX,
    ensures
        spec_json_load(spec_rb(d, colon)) == Ok::<JsonData, crate::json::error::JsonErrorView>(d),
{
    let b = spec_rb(d, colon);
    let n = b.len() as int;
    assert(b.subrange(0, n) == b);
    lemma_lex_value(b, 0, d, colon);
    let ts = spec_value_tokens(d, 0, colon);
    assert(spec_tokens_from(b, n) == Ok::<Seq<JsonToken>, crate::json::error::JsonErrorView>(
        Seq::<JsonToken>::empty(),
    ));
    assert(ts + Seq::<JsonToken>::empty() == ts);
    assert(spec_tokenize(b) == Ok::<Seq<JsonToken>, crate::json::error::JsonErrorView>(ts));
    encode_utf8_valid_utf8(spec_render(d, colon));
    lemma_value_tokens_nonempty(d, 0, colon);
    assert(ts.subrange(0, ts.len() as int) == ts);
    lemma_parse_value(ts, b, 0, d, 0, colon);
}

/// For every value whose strings and keys stand in its text as in a string token, whose
/// numbers are ASCII texts of valid numbers and whose objects have distinct keys, the
/// text that `json_dumps` writes loads back, through `json_load`, to the same value.
pub proof fn law_load_dumped(d: JsonData)
    requires
        spec_plain(d),
        encode_utf8(spec_render(d, ":"@)).len() < usize::MAX,
    ensures
        spec_json_load(encode_utf8(spec_render(d, ":"@))) == Ok::<
            JsonData,
            crate::json::error::JsonErrorView,
        >(d),
{
    reveal_strlit(":");
    assert(":"@ =~= seq![':']);
    lemma_load_of_render(d, ":"@);
}

/// For every such value, the text that the serializer writes (`: ` between keys and
/// values) loads back, through `json_load`, to the same value.
pub proof fn law_load_serialized(d: JsonData)
    requires
        spec_plain(d),
        encode_utf8(spec_render(d, ": "@)).len() < usize::MAX,
    ensures
        spec_json_load(encode_utf8(spec_render(d, ": "@))) == Ok::<
            JsonData,
            crate::json::error::JsonErrorView,
        >(d),
{
    reveal_strlit(": ");
    assert(": "@ =~= seq![':', ' ']);
    lemma_load_of_render(d, ": "@);
}

} // verus!
