use vstd::prelude::*;
use vstd::utf8::*;

use crate::json::laws::{
    law_object_members, lemma_last_index, spec_distinct_keys, spec_has_key, spec_last_index,
};
use crate::json::lexer::{
    lemma_next_token_advances, lemma_string_close_bounds, spec_candidate_end, spec_next_token,
    spec_string_close, spec_tokenize,
    spec_tokens_from, spec_valid_number,
};
use crate::json::parser::{
    spec_array, spec_dedup_members, spec_elements, spec_members, spec_next, spec_number_content,
    spec_object, spec_pair, spec_parse, spec_parse_token, spec_string_content, spec_value,
};
use crate::json::round_trip::{
    lemma_close_in_window, lemma_encode_ascii, lemma_number_alphabet, spec_number_byte, lemma_load_of_render, spec_ascii_bytes,
    spec_plain, spec_plain_items, spec_plain_members, spec_plain_number, spec_plain_string,
};
use crate::json::spec_json_load;
use crate::json::token::{JsonToken, JsonTokenKind};
use crate::json::value::{spec_render, JsonData};
use crate::source::{lemma_boundary_in_prefix, Source};

verus! {

// ---------------------------------------------------------------------------
// What the tokens of a text say of its bytes.
// ---------------------------------------------------------------------------

/// A string token covers a quote and string content that closes where the token ends;
/// a number token covers the ASCII text of a valid number.
pub open spec fn spec_token_read(b: Seq<u8>, t: JsonToken) -> bool {
    &&& t.kind == JsonTokenKind::String ==> {
        &&& t.span.start < b.len()
        &&& b[t.span.start as int] == 0x22
        &&& spec_string_close(b, t.span.start + 1) == Some(t.span.end as int)
    }
    &&& t.kind == JsonTokenKind::Number ==> {
        &&& t.span.start <= t.span.end <= b.len()
        &&& spec_valid_number(b.subrange(t.span.start as int, t.span.end as int))
        &&& forall|j: int| t.span.start <= j < t.span.end ==> #[trigger] b[j] < 0x80
    }
}

/// Every token is read from the text as its kind says.
pub open spec fn spec_tokens_read(b: Seq<u8>, toks: Seq<JsonToken>) -> bool {
    forall|k: int| 0 <= k < toks.len() ==> spec_token_read(b, #[trigger] toks[k])
}

/// The tokens read from offset `i` on are read as their kinds say.
proof fn lemma_tokens_read(b: Seq<u8>, i: int)
    requires
        0 <= i,
        b.len() < usize::MAX,
    ensures
        spec_tokens_from(b, i) matches Ok(ts) ==> spec_tokens_read(b, ts),
    decreases b.len() - i,
{
    if i < b.len() {
        lemma_next_token_advances(b, i);
        if let Ok((t, n)) = spec_next_token(b, i) {
            lemma_tokens_read(b, n);
            if t.kind == JsonTokenKind::Number {
                assert(n == spec_candidate_end(b, i));
                let x = b.subrange(i, n);
                lemma_number_alphabet(x);
                assert forall|j: int| i <= j < n implies #[trigger] b[j] < 0x80 by {
                    assert(b[j] == x[j - i]);
                    assert(spec_number_byte(x[j - i]));
                }
            }
            assert(spec_token_read(b, t));
            if let Ok(rest) = spec_tokens_from(b, n) {
                if t.kind != JsonTokenKind::Whitespace {
                    let ts = seq![t] + rest;
                    assert forall|k: int| 0 <= k < ts.len() implies spec_token_read(
                        b,
                        #[trigger] ts[k],
                    ) by {
                        if k > 0 {
                            assert(ts[k] == rest[k - 1]);
                        }
                    }
                }
            }
        }
    }
}

// ---------------------------------------------------------------------------
// The contents of tokens are plain.
// ---------------------------------------------------------------------------

/// A slice of a valid text is valid text.
proof fn lemma_slice_valid(b: Seq<u8>, s: int, e: int)
    requires
        valid_utf8(b),
        Source::spec_slice_ok(b, s, e),
    ensures
        valid_utf8(b.subrange(s, e)),
{
    valid_utf8_split(b, e);
    lemma_boundary_in_prefix(b, s, e);
    let head = b.subrange(0, e);
    valid_utf8_split(head, s);
    assert(head.subrange(s, head.len() as int) =~= b.subrange(s, e));
}

/// Scanning string content stops just past a quote.
proof fn lemma_close_at_quote(b: Seq<u8>, i: int)
    requires
        spec_string_close(b, i) is Some,
    ensures
        b[spec_string_close(b, i)->0 - 1] == 0x22,
    decreases b.len() - i,
{
    if 0 <= i < b.len() {
        if b[i] == 0x5c {
            if crate::json::lexer::spec_is_short_escape(b, i) {
                lemma_close_at_quote(b, i + 2);
            } else {
                lemma_close_at_quote(b, i + 6);
            }
        } else if b[i] != 0x22 {
            lemma_close_at_quote(b, i + 1);
        }
    }
}

/// The content of a string token, in a valid text, is a plain string.
proof fn lemma_string_content_plain(b: Seq<u8>, t: JsonToken)
    requires
        valid_utf8(b),
        spec_token_read(b, t),
        t.kind == JsonTokenKind::String,
    ensures
        spec_string_content(b, t) matches Ok(s) ==> spec_plain_string(s),
{
    if let Ok(s) = spec_string_content(b, t) {
        let st = t.span.start as int;
        let e = t.span.end as int;
        lemma_string_close_bounds(b, st + 1);
        lemma_close_at_quote(b, st + 1);
        let x = b.subrange(st + 1, e - 1);
        lemma_slice_valid(b, st + 1, e - 1);
        decode_utf8_encode_utf8(x);
        assert(encode_utf8(s) == x);
        let y = x + seq![0x22u8];
        assert forall|k: int| st + 1 <= k < e implies y[-(st + 1) + k] == b[k] by {
            if k < e - 1 {
                assert(y[k - st - 1] == x[k - st - 1]);
            }
        }
        lemma_close_in_window(b, y, -(st + 1), st + 1, e);
    }
}

/// A character whose encoding starts with an ASCII byte is ASCII.
proof fn lemma_scalar_ascii(c: char)
    requires
        encode_scalar(c as u32)[0] < 0x80,
    ensures
        (c as u32) < 0x80,
{
    let v = c as u32;
    char_is_scalar(c);
    if has_width_2_encoding(v) {
        assert(leading_byte_width_2(v) >= 0xc0) by (bit_vector);
    } else if has_width_3_encoding(v) {
        assert(leading_byte_width_3(v) >= 0xe0) by (bit_vector);
    } else if !has_width_1_encoding(v) {
        assert(leading_byte_width_4(v) >= 0xf0) by (bit_vector);
    }
}

/// Characters that encode into ASCII bytes are ASCII.
proof fn lemma_chars_ascii(t: Seq<char>)
    requires
        forall|j: int| 0 <= j < encode_utf8(t).len() ==> #[trigger] encode_utf8(t)[j] < 0x80,
    ensures
        forall|i: int| 0 <= i < t.len() ==> (#[trigger] t[i] as u32) < 0x80,
    decreases t.len(),
{
    if t.len() > 0 {
        let e0 = encode_scalar(t[0] as u32);
        let rest = t.drop_first();
        char_is_scalar(t[0]);
        assert(e0.len() > 0);
        assert(encode_utf8(t)[0] == e0[0]);
        lemma_scalar_ascii(t[0]);
        assert forall|j: int| 0 <= j < encode_utf8(rest).len() implies #[trigger] encode_utf8(
            rest,
        )[j] < 0x80 by {
            assert(encode_utf8(t)[e0.len() + j] == encode_utf8(rest)[j]);
        }
        lemma_chars_ascii(rest);
        assert forall|i: int| 0 <= i < t.len() implies (#[trigger] t[i] as u32) < 0x80 by {
            if i > 0 {
                assert(t[i] == rest[i - 1]);
            }
        }
    }
}

/// The content of a number token, in a valid text, is a plain number.
proof fn lemma_number_content_plain(b: Seq<u8>, t: JsonToken)
    requires
        valid_utf8(b),
        spec_token_read(b, t),
        t.kind == JsonTokenKind::Number,
    ensures
        spec_number_content(b, t) matches Ok(s) ==> spec_plain_number(s),
{
    if let Ok(s) = spec_number_content(b, t) {
        let st = t.span.start as int;
        let e = t.span.end as int;
        let x = b.subrange(st, e);
        lemma_slice_valid(b, st, e);
        decode_utf8_encode_utf8(x);
        assert(encode_utf8(s) == x);
        assert forall|j: int| 0 <= j < encode_utf8(s).len() implies #[trigger] encode_utf8(s)[j]
            < 0x80 by {
            assert(x[j] == b[st + j]);
        }
        lemma_chars_ascii(s);
        lemma_encode_ascii(s);
        assert(spec_ascii_bytes(s) =~= x);
    }
}

// ---------------------------------------------------------------------------
// Parsing the tokens of a text gives a plain value.
// ---------------------------------------------------------------------------

/// Plain values, each one.
proof fn lemma_plain_items_all(items: Seq<JsonData>)
    ensures
        spec_plain_items(items) <==> forall|i: int| 0 <= i < items.len() ==> spec_plain(
            #[trigger] items[i],
        ),
    decreases items.len(),
{
    if items.len() > 0 {
        let rest = items.drop_first();
        lemma_plain_items_all(rest);
        if forall|i: int| 0 <= i < items.len() ==> spec_plain(#[trigger] items[i]) {
            assert forall|i: int| 0 <= i < rest.len() implies spec_plain(#[trigger] rest[i]) by {
                assert(rest[i] == items[i + 1]);
            }
        }
        if spec_plain_items(items) {
            assert forall|i: int| 0 <= i < items.len() implies spec_plain(#[trigger] items[i]) by {
                if i > 0 {
                    assert(items[i] == rest[i - 1]);
                }
            }
        }
    }
}

/// A member with a plain key and a plain value.
pub open spec fn spec_member_plain(m: (Seq<char>, JsonData)) -> bool {
    spec_plain_string(m.0) && spec_plain(m.1)
}

/// Members with plain keys and plain values, each one.
proof fn lemma_plain_members_all(ms: Seq<(Seq<char>, JsonData)>)
    ensures
        spec_plain_members(ms) <==> forall|i: int|
            0 <= i < ms.len() ==> spec_member_plain(#[trigger] ms[i]),
    decreases ms.len(),
{
    if ms.len() > 0 {
        let rest = ms.drop_first();
        lemma_plain_members_all(rest);
        if forall|i: int| 0 <= i < ms.len() ==> spec_member_plain(#[trigger] ms[i]) {
            assert forall|i: int| 0 <= i < rest.len() implies spec_member_plain(
                #[trigger] rest[i],
            ) by {
                assert(rest[i] == ms[i + 1]);
            }
            assert(spec_member_plain(ms[0]));
        }
        if spec_plain_members(ms) {
            assert forall|i: int| 0 <= i < ms.len() implies spec_member_plain(#[trigger] ms[i]) by {
                if i > 0 {
                    assert(ms[i] == rest[i - 1]);
                }
            }
        }
    }
}

/// The value parsed at `idx`, if any, is plain.
proof fn lemma_value_plain(toks: Seq<JsonToken>, b: Seq<u8>, idx: int)
    requires
        valid_utf8(b),
        spec_tokens_read(b, toks),
    ensures
        spec_value(toks, b, idx).0 matches Ok(d) ==> spec_plain(d),
    decreases toks.len() - idx, 2int,
{
    if 0 <= idx < toks.len() {
        let t = toks[idx];
        assert(spec_token_read(b, t));
        if t.kind == JsonTokenKind::String {
            lemma_string_content_plain(b, t);
        } else if t.kind == JsonTokenKind::Number {
            lemma_number_content_plain(b, t);
        } else if t.kind == JsonTokenKind::LBracket {
            lemma_array_plain(toks, b, idx);
        } else if t.kind == JsonTokenKind::LBrace {
            lemma_object_plain(toks, b, idx);
        }
    }
}

/// The array parsed at `idx`, if any, is plain.
proof fn lemma_array_plain(toks: Seq<JsonToken>, b: Seq<u8>, idx: int)
    requires
        valid_utf8(b),
        spec_tokens_read(b, toks),
    ensures
        spec_array(toks, b, idx).0 matches Ok(d) ==> spec_plain(d),
    decreases toks.len() - idx, 1int,
{
    if 0 <= idx < toks.len() {
        let (r1, i1) = spec_parse_token(toks, idx, JsonTokenKind::LBracket);
        if r1 is Ok {
            let (r2, i2) = spec_next(toks, i1);
            if r2 is Ok && idx < i2 <= toks.len() {
                lemma_elements_plain(toks, b, i2, Seq::empty());
            }
        }
    }
}

/// The elements parsed at `idx` after plain `items`, if any, are plain.
proof fn lemma_elements_plain(toks: Seq<JsonToken>, b: Seq<u8>, idx: int, items: Seq<JsonData>)
    requires
        valid_utf8(b),
        spec_tokens_read(b, toks),
        spec_plain_items(items),
    ensures
        spec_elements(toks, b, idx, items).0 matches Ok(r) ==> spec_plain_items(r),
    decreases toks.len() - idx, 4int,
{
    if 0 <= idx < toks.len() {
        lemma_value_plain(toks, b, idx);
        let (r, i1) = spec_value(toks, b, idx);
        if let Ok(item) = r {
            let items2 = items.push(item);
            lemma_plain_items_all(items);
            lemma_plain_items_all(items2);
            assert forall|i: int| 0 <= i < items2.len() implies spec_plain(#[trigger] items2[i]) by {
                if i < items.len() {
                    assert(items2[i] == items[i]);
                }
            }
            let (n1, i2) = spec_next(toks, i1);
            if n1 is Ok {
                let (c, i3) = spec_parse_token(toks, i2, JsonTokenKind::Comma);
                if c is Ok {
                    let (n2, i4) = spec_next(toks, i3);
                    if n2 is Ok && idx < i4 <= toks.len() {
                        lemma_elements_plain(toks, b, i4, items2);
                    }
                }
            }
        }
    }
}

/// The member parsed at `idx`, if any, has a plain key and a plain value.
proof fn lemma_pair_plain(toks: Seq<JsonToken>, b: Seq<u8>, idx: int)
    requires
        valid_utf8(b),
        spec_tokens_read(b, toks),
    ensures
        spec_pair(toks, b, idx).0 matches Ok(m) ==> spec_plain_string(m.0) && spec_plain(m.1),
    decreases toks.len() - idx, 3int,
{
    if 0 <= idx < toks.len() {
        let (r1, i1) = spec_parse_token(toks, idx, JsonTokenKind::String);
        if let Ok(key_token) = r1 {
            assert(key_token == toks[idx]);
            assert(spec_token_read(b, toks[idx]));
            lemma_string_content_plain(b, key_token);
            let (r2, i2) = spec_next(toks, i1);
            if r2 is Ok {
                let (r3, i3) = spec_parse_token(toks, i2, JsonTokenKind::Colon);
                if r3 is Ok {
                    let (r4, i4) = spec_next(toks, i3);
                    if r4 is Ok && idx < i4 <= toks.len() {
                        lemma_value_plain(toks, b, i4);
                    }
                }
            }
        }
    }
}

/// The members parsed at `idx` after plain members `ms`, if any, are plain.
proof fn lemma_members_plain(
    toks: Seq<JsonToken>,
    b: Seq<u8>,
    idx: int,
    ms: Seq<(Seq<char>, JsonData)>,
)
    requires
        valid_utf8(b),
        spec_tokens_read(b, toks),
        spec_plain_members(ms),
    ensures
        spec_members(toks, b, idx, ms).0 matches Ok(r) ==> spec_plain_members(r),
    decreases toks.len() - idx, 4int,
{
    if 0 <= idx < toks.len() {
        lemma_pair_plain(toks, b, idx);
        let (r, i1) = spec_pair(toks, b, idx);
        if let Ok(p) = r {
            let ms2 = ms.push(p);
            lemma_plain_members_all(ms);
            lemma_plain_members_all(ms2);
            assert forall|i: int| 0 <= i < ms2.len() implies spec_member_plain(
                #[trigger] ms2[i],
            ) by {
                if i < ms.len() {
                    assert(ms2[i] == ms[i]);
                }
            }
            let (n1, i2) = spec_next(toks, i1);
            if n1 is Ok {
                let (c, i3) = spec_parse_token(toks, i2, JsonTokenKind::Comma);
                if c is Ok {
                    let (n2, i4) = spec_next(toks, i3);
                    if n2 is Ok && idx < i4 <= toks.len() {
                        lemma_members_plain(toks, b, i4, ms2);
                    }
                }
            }
        }
    }
}

/// The object parsed at `idx`, if any, is plain.
proof fn lemma_object_plain(toks: Seq<JsonToken>, b: Seq<u8>, idx: int)
    requires
        valid_utf8(b),
        spec_tokens_read(b, toks),
    ensures
        spec_object(toks, b, idx).0 matches Ok(d) ==> spec_plain(d),
    decreases toks.len() - idx, 1int,
{
    if 0 <= idx < toks.len() {
        let (r1, i1) = spec_parse_token(toks, idx, JsonTokenKind::LBrace);
        if r1 is Ok {
            let (r2, i2) = spec_next(toks, i1);
            if r2 is Ok && idx < i2 <= toks.len() {
                lemma_members_plain(toks, b, i2, Seq::empty());
                let (r3, _) = spec_members(toks, b, i2, Seq::empty());
                if let Ok(ms) = r3 {
                    let d = spec_dedup_members(ms);
                    law_object_members(ms);
                    lemma_plain_members_all(ms);
                    lemma_plain_members_all(d);
                    assert forall|i: int| 0 <= i < d.len() implies spec_member_plain(
                        #[trigger] d[i],
                    ) by {
                        let k = d[i].0;
                        assert(spec_has_key(d, k));
                        lemma_last_index(ms, k);
                        assert(d[i] == ms[spec_last_index(ms, k)]);
                    }
                    assert(spec_distinct_keys(d));
                }
            }
        }
    }
}

// ---------------------------------------------------------------------------
// Values read from text dump back.
// ---------------------------------------------------------------------------

/// Every value that `json_load` reads from a text is plain, so the text that
/// `json_dumps` writes for it loads back, through `json_load`, to the same value.
pub proof fn law_loaded_value_dumps_back(s: Seq<char>)
    requires
        encode_utf8(s).len() < usize::MAX,
        spec_json_load(encode_utf8(s)) is Ok,
        encode_utf8(spec_render(spec_json_load(encode_utf8(s))->Ok_0, ":"@)).len() < usize::MAX,
    ensures
        spec_plain(spec_json_load(encode_utf8(s))->Ok_0),
        spec_json_load(encode_utf8(spec_render(spec_json_load(encode_utf8(s))->Ok_0, ":"@)))
            == spec_json_load(encode_utf8(s)),
{
    let b = encode_utf8(s);
    encode_utf8_valid_utf8(s);
    lemma_tokens_read(b, 0);
    let toks = spec_tokenize(b)->Ok_0;
    if toks.len() > 0 {
        lemma_value_plain(toks, b, 0);
    }
    assert(spec_parse(toks, b, 0) == spec_value(toks, b, 0));
    let d = spec_json_load(b)->Ok_0;
    reveal_strlit(":");
    assert(":"@ =~= seq![':']);
    lemma_load_of_render(d, ":"@);
}

} // verus!
