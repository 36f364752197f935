use vstd::prelude::*;

use crate::json::parser::{lemma_key_index, spec_dedup_members, spec_insert_member, spec_key_index};
use crate::json::lexer::{
    lemma_next_token_advances, spec_has_leading_zero, spec_is_digit, spec_is_whitespace,
    spec_next_token,
    spec_number_state, spec_number_step, spec_tokenize, spec_tokens_from, spec_valid_number,
};
use crate::json::error::JsonErrorView;
use crate::json::lexer::{
    spec_candidate_end, spec_is_separator, spec_literal_text, spec_single_kind, spec_string_close,
    spec_token,
};
use crate::json::round_trip::{
    lemma_candidate_end_at, lemma_number_alphabet, lemma_number_first, spec_number_byte,
};
use crate::json::token::{JsonToken, JsonTokenKind, Span};
use crate::json::value::JsonData;

verus! {

/// The keys of members are pairwise distinct.
pub open spec fn spec_distinct_keys(ms: Seq<(Seq<char>, JsonData)>) -> bool {
    forall|i: int, j: int| 0 <= i < j < ms.len() ==> ms[i].0 != ms[j].0
}

/// Some member has key `k`.
pub open spec fn spec_has_key(ms: Seq<(Seq<char>, JsonData)>, k: Seq<char>) -> bool {
    exists|i: int| 0 <= i < ms.len() && ms[i].0 == k
}

/// The index of the last member with key `k` (assuming there is one).
pub open spec fn spec_last_index(ms: Seq<(Seq<char>, JsonData)>, k: Seq<char>) -> int
    decreases ms.len(),
{
    if ms.len() == 0 {
        -1
    } else if ms.last().0 == k {
        ms.len() - 1
    } else {
        spec_last_index(ms.drop_last(), k)
    }
}

/// The last member with key `k`, when there is one.
pub proof fn lemma_last_index(ms: Seq<(Seq<char>, JsonData)>, k: Seq<char>)
    ensures
        spec_has_key(ms, k) ==> {
            let j = spec_last_index(ms, k);
            &&& 0 <= j < ms.len()
            &&& ms[j].0 == k
            &&& forall|i: int| j < i < ms.len() ==> ms[i].0 != k
        },
    decreases ms.len(),
{
    if ms.len() > 0 && ms.last().0 != k {
        lemma_last_index(ms.drop_last(), k);
        if spec_has_key(ms, k) {
            let i = choose|i: int| 0 <= i < ms.len() && ms[i].0 == k;
            assert(i != ms.len() - 1);
            assert(ms.drop_last()[i].0 == k);
            assert(spec_has_key(ms.drop_last(), k));
            let j = spec_last_index(ms.drop_last(), k);
            assert forall|i2: int| j < i2 < ms.len() implies ms[i2].0 != k by {
                if i2 < ms.len() - 1 {
                    assert(ms[i2] == ms.drop_last()[i2]);
                }
            }
        }
    }
}

/// Building an object from members in order: each key occurs once, exactly the keys
/// of the members occur, and each key holds the value of the last member with that key.
pub proof fn law_object_members(ms: Seq<(Seq<char>, JsonData)>)
    ensures
        spec_distinct_keys(spec_dedup_members(ms)),
        forall|k: Seq<char>| spec_has_key(spec_dedup_members(ms), k) <==> spec_has_key(ms, k),
        forall|i: int|
            0 <= i < spec_dedup_members(ms).len() ==> spec_dedup_members(ms)[i] == ms[spec_last_index(
                ms,
                #[trigger] spec_dedup_members(ms)[i].0,
            )],
    decreases ms.len(),
{
    if ms.len() > 0 {
        let prev = ms.drop_last();
        let d = spec_dedup_members(prev);
        let m = ms.last();
        law_object_members(prev);
        lemma_key_index(d, m.0);
        let r = spec_dedup_members(ms);
        assert(r == spec_insert_member(d, m));
        let j = spec_key_index(d, m.0);
        assert forall|k: Seq<char>| spec_has_key(r, k) <==> spec_has_key(ms, k) by {
            if spec_has_key(r, k) {
                let i = choose|i: int| 0 <= i < r.len() && r[i].0 == k;
                if k == m.0 {
                    assert(ms[ms.len() - 1].0 == k);
                } else {
                    if j >= 0 {
                        assert(d[i].0 == k);
                    } else {
                        assert(i < d.len());
                        assert(d[i].0 == k);
                    }
                    assert(spec_has_key(d, k));
                    assert(spec_has_key(prev, k));
                    let i2 = choose|i2: int| 0 <= i2 < prev.len() && prev[i2].0 == k;
                    assert(ms[i2] == prev[i2]);
                    assert(ms[i2].0 == k);
                }
            }
            if spec_has_key(ms, k) {
                let i = choose|i: int| 0 <= i < ms.len() && ms[i].0 == k;
                if k == m.0 {
                    if j >= 0 {
                        assert(r[j].0 == k);
                    } else {
                        assert(r[d.len() as int].0 == k);
                    }
                } else {
                    assert(i != ms.len() - 1);
                    assert(prev[i].0 == k);
                    assert(spec_has_key(prev, k));
                    assert(spec_has_key(d, k));
                    let i2 = choose|i2: int| 0 <= i2 < d.len() && d[i2].0 == k;
                    assert(r[i2].0 == k);
                }
            }
        }
        assert forall|a: int, b: int| 0 <= a < b < r.len() implies r[a].0 != r[b].0 by {
            if j < 0 && b == d.len() {
                assert(d[a].0 != m.0);
            } else if j >= 0 && (a == j || b == j) {
                if a == j {
                    assert(d[b].0 != d[j].0);
                } else {
                    assert(d[a].0 != d[j].0);
                }
            } else {
                assert(d[a].0 != d[b].0);
            }
        }
        assert forall|i: int| 0 <= i < r.len() implies r[i] == ms[spec_last_index(
            ms,
            #[trigger] r[i].0,
        )] by {
            if r[i].0 == m.0 {
                if j >= 0 {
                    assert(i == j) by {
                        if i != j {
                            assert(d[i].0 != d[j].0);
                        }
                    }
                }
            } else {
                assert(r[i] == d[i]);
                assert(spec_last_index(ms, r[i].0) == spec_last_index(prev, r[i].0));
                lemma_last_index(prev, r[i].0);
                assert(spec_has_key(d, d[i].0));
                assert(spec_has_key(prev, d[i].0));
                assert(ms[spec_last_index(prev, r[i].0)] == prev[spec_last_index(prev, r[i].0)]);
            }
        }
    }
}

/// Members whose keys are distinct already form an object's members as they are.
pub proof fn lemma_dedup_distinct(ms: Seq<(Seq<char>, JsonData)>)
    requires
        spec_distinct_keys(ms),
    ensures
        spec_dedup_members(ms) == ms,
    decreases ms.len(),
{
    if ms.len() > 0 {
        let prev = ms.drop_last();
        lemma_dedup_distinct(prev);
        lemma_key_index(prev, ms.last().0);
        if spec_key_index(prev, ms.last().0) >= 0 {
            let j = spec_key_index(prev, ms.last().0);
            assert(ms[j].0 == ms[ms.len() - 1].0);
        }
        assert(prev.push(ms.last()) =~= ms);
    }
}

// ---------------------------------------------------------------------------
// Tokens follow the text.
// ---------------------------------------------------------------------------

/// Tokens read from offset `i` on: each covers a nonempty range of bytes at or after `i`
/// and within the text, each ends at or before the next one starts, and none is
/// whitespace, the end marker or an invalid token.
pub open spec fn spec_tokens_in_order(b: Seq<u8>, ts: Seq<JsonToken>, i: int) -> bool {
    &&& forall|k: int|
        0 <= k < ts.len() ==> {
            &&& i <= #[trigger] ts[k].span.start < ts[k].span.end <= b.len()
            &&& ts[k].kind != JsonTokenKind::Whitespace
            &&& ts[k].kind != JsonTokenKind::Stop
            &&& ts[k].kind != JsonTokenKind::InvalidToken
        }
    &&& forall|k: int, l: int|
        0 <= k < l < ts.len() ==> #[trigger] ts[k].span.end <= #[trigger] ts[l].span.start
}

proof fn lemma_tokens_in_order_from(b: Seq<u8>, i: int)
    requires
        0 <= i,
        b.len() < usize::MAX,
    ensures
        spec_tokens_from(b, i) matches Ok(ts) ==> spec_tokens_in_order(b, ts, i),
    decreases b.len() - i,
{
    if i < b.len() {
        lemma_next_token_advances(b, i);
        if let Ok((t, n)) = spec_next_token(b, i) {
            lemma_tokens_in_order_from(b, n);
            if let Ok(rest) = spec_tokens_from(b, n) {
                assert(t.kind != JsonTokenKind::InvalidToken);
                if t.kind != JsonTokenKind::Whitespace {
                    let ts = seq![t] + rest;
                    assert forall|k: int| 0 < k < ts.len() implies ts[k] == rest[k - 1] by {}
                    assert(ts[0] == t);
                    assert forall|k: int, l: int|
                        0 <= k < l < ts.len() implies #[trigger] ts[k].span.end
                        <= #[trigger] ts[l].span.start by {
                        assert(ts[l] == rest[l - 1]);
                        if k > 0 {
                            assert(ts[k] == rest[k - 1]);
                        }
                    }
                    assert(spec_tokens_in_order(b, ts, i));
                }
            }
        }
    }
}

/// Whitespace gives no token: reading from a whitespace byte gives what reading from
/// the next byte gives.
pub proof fn law_whitespace_gives_no_token(b: Seq<u8>, i: int)
    requires
        0 <= i < b.len(),
        spec_is_whitespace(b[i]),
    ensures
        spec_tokens_from(b, i) == spec_tokens_from(b, i + 1),
{
}

/// The tokens of a text come in the order of the text: each covers a nonempty range
/// of its bytes, each ends at or before the next one starts, and whitespace, the end
/// marker and invalid tokens are never among them.
pub proof fn law_tokens_in_order(b: Seq<u8>)
    requires
        b.len() < usize::MAX,
    ensures
        spec_tokenize(b) matches Ok(ts) ==> spec_tokens_in_order(b, ts, 0),
{
    lemma_tokens_in_order_from(b, 0);
}

// ---------------------------------------------------------------------------
// Numbers are the numbers of JSON.
// ---------------------------------------------------------------------------

/// The bytes of `s` from `i` up to `j` are digits, and there is at least one.
pub open spec fn spec_digit_run(s: Seq<u8>, i: int, j: int) -> bool {
    &&& 0 <= i < j <= s.len()
    &&& forall|k: int| i <= k < j ==> spec_is_digit(#[trigger] s[k])
}

/// `e` or `E`.
pub open spec fn spec_is_exponent_mark(c: u8) -> bool {
    c == 0x65 || c == 0x45
}

/// The parts of a number as JSON writes it, starting at `a` (the integer part), `c`
/// (the fraction) and `d` (the exponent): an optional minus sign; an integer part of
/// digits that is `0` or does not start with `0`; optionally `.` and digits; optionally
/// `e` or `E`, an optional `+` or `-`, and digits.
pub open spec fn spec_number_parts(s: Seq<u8>, a: int, c: int, d: int) -> bool {
    &&& (a == 0 || (a == 1 && s[0] == 0x2d))
    &&& spec_digit_run(s, a, c)
    &&& (s[a] == 0x30 ==> c == a + 1)
    &&& c <= d <= s.len()
    &&& (d == c || (s[c] == 0x2e && spec_digit_run(s, c + 1, d)))
    &&& (d == s.len() || (spec_is_exponent_mark(s[d]) && (spec_digit_run(s, d + 1, s.len() as int)
        || ((s[d + 1] == 0x2b || s[d + 1] == 0x2d) && spec_digit_run(
        s,
        d + 2,
        s.len() as int,
    )))))
}

/// `s` is a number as JSON writes it.
pub open spec fn spec_json_number(s: Seq<u8>) -> bool {
    exists|a: int, c: int, d: int| spec_number_parts(s, a, c, d)
}

/// The state of the number automaton after the first `k` bytes of `s`.
pub open spec fn spec_prefix_state(s: Seq<u8>, k: int) -> int {
    spec_number_state(s.subrange(0, k))
}

proof fn lemma_prefix_step(s: Seq<u8>, k: int)
    requires
        0 <= k < s.len(),
    ensures
        spec_prefix_state(s, k + 1) == spec_number_step(spec_prefix_state(s, k), s[k]),
{
    assert(s.subrange(0, k + 1).drop_last() =~= s.subrange(0, k));
}

/// A run of digits takes the automaton from the integer, fraction or exponent states
/// (or the states just before them) into the integer, fraction or exponent state.
proof fn lemma_digits_prefix(s: Seq<u8>, i: int, j: int)
    requires
        spec_digit_run(s, i, j),
        0 <= spec_prefix_state(s, i) <= 7,
    ensures
        spec_prefix_state(s, j) == if spec_prefix_state(s, i) <= 2 {
            2int
        } else if spec_prefix_state(s, i) <= 4 {
            4int
        } else {
            7int
        },
    decreases j - i,
{
    lemma_prefix_step(s, j - 1);
    if j - 1 > i {
        lemma_digits_prefix(s, i, j - 1);
    }
}

/// Where the parts of the bytes read so far start, for each state of the automaton.
proof fn lemma_prefix_shape(s: Seq<u8>, k: int) -> (r: (int, int, int))
    requires
        0 <= k <= s.len(),
    ensures
        ({
            let (a, c, d) = r;
            let st = spec_prefix_state(s, k);
            &&& st == 0 ==> k == 0
            &&& st == 1 ==> k == 1 && s[0] == 0x2d
            &&& 2 <= st <= 7 ==> (a == 0 || (a == 1 && s[0] == 0x2d)) && spec_digit_run(s, a, c)
            &&& st == 2 ==> c == k
            &&& st == 3 ==> c + 1 == k && s[c] == 0x2e
            &&& st == 4 ==> s[c] == 0x2e && spec_digit_run(s, c + 1, k) && d == k
            &&& 5 <= st <= 7 ==> c <= d && (d == c || (s[c] == 0x2e && spec_digit_run(s, c + 1, d)))
                && d < k && spec_is_exponent_mark(s[d])
            &&& st == 5 ==> d + 1 == k
            &&& st == 6 ==> d + 2 == k && (s[d + 1] == 0x2b || s[d + 1] == 0x2d)
            &&& st == 7 ==> spec_digit_run(s, d + 1, k) || ((s[d + 1] == 0x2b || s[d + 1] == 0x2d)
                && spec_digit_run(s, d + 2, k))
        }),
    decreases k,
{
    if k == 0 {
        assert(s.subrange(0, 0) =~= Seq::<u8>::empty());
        (0, 0, 0)
    } else {
        let (a, c, d) = lemma_prefix_shape(s, k - 1);
        lemma_prefix_step(s, k - 1);
        let st0 = spec_prefix_state(s, k - 1);
        let x = s[k - 1];
        let st = spec_prefix_state(s, k);
        if st == 2 {
            if st0 == 2 {
                (a, k, k)
            } else if st0 == 1 {
                (1, k, k)
            } else {
                (0, k, k)
            }
        } else if st == 3 {
            (a, k - 1, k)
        } else if st == 4 {
            if st0 == 3 {
                (a, c, k)
            } else {
                (a, c, k)
            }
        } else if st == 5 {
            if st0 == 2 {
                (a, c, k - 1)
            } else {
                (a, c, k - 1)
            }
        } else {
            (a, c, d)
        }
    }
}

/// Numbers the automaton accepts have the parts of a JSON number.
proof fn lemma_valid_number_parts(s: Seq<u8>)
    requires
        spec_valid_number(s),
    ensures
        spec_json_number(s),
{
    let n = s.len() as int;
    assert(s.subrange(0, n) =~= s);
    let (a, c, d0) = lemma_prefix_shape(s, n);
    let st = spec_prefix_state(s, n);
    let d = if st == 2 {
        n
    } else {
        d0
    };
    if s[a] == 0x30 && c > a + 1 {
        assert(spec_is_digit(s[a + 1]));
        if a == 1 {
            assert(s.drop_first()[0] == s[1]);
            assert(s.drop_first()[1] == s[2]);
        }
        assert(spec_has_leading_zero(s));
    }
    assert(spec_number_parts(s, a, c, d));
}

/// Texts with the parts of a JSON number are accepted by the automaton.
proof fn lemma_parts_valid_number(s: Seq<u8>, a: int, c: int, d: int)
    requires
        spec_number_parts(s, a, c, d),
    ensures
        spec_valid_number(s),
{
    let n = s.len() as int;
    assert(s.subrange(0, n) =~= s);
    assert(s.subrange(0, 0) =~= Seq::<u8>::empty());
    if a == 1 {
        lemma_prefix_step(s, 0);
    }
    lemma_digits_prefix(s, a, c);
    if d > c {
        lemma_prefix_step(s, c);
        lemma_digits_prefix(s, c + 1, d);
    }
    if d < n {
        lemma_prefix_step(s, d);
        if spec_digit_run(s, d + 1, n) {
            lemma_digits_prefix(s, d + 1, n);
        } else {
            lemma_prefix_step(s, d + 1);
            lemma_digits_prefix(s, d + 2, n);
        }
    }
    if spec_has_leading_zero(s) {
        if s[0] == 0x2d {
            assert(a == 1);
            assert(s.drop_first()[0] == s[1]);
            assert(s.drop_first()[1] == s[2]);
        } else {
            assert(a == 0);
        }
        assert(c == a + 1);
        assert(!spec_is_digit(s[c]));
    }
}

/// The number automaton, with the check on leading zeros, accepts exactly the numbers
/// of JSON: an optional minus sign, an integer part that is `0` or does not start with
/// `0`, an optional fraction and an optional exponent.
pub proof fn law_number_grammar(s: Seq<u8>)
    ensures
        spec_valid_number(s) <==> spec_json_number(s),
{
    if spec_valid_number(s) {
        lemma_valid_number_parts(s);
    }
    if spec_json_number(s) {
        let (a, c, d) = choose|a: int, c: int, d: int| spec_number_parts(s, a, c, d);
        lemma_parts_valid_number(s, a, c, d);
    }
}

// ---------------------------------------------------------------------------
// Whitespace in front of a text shifts its tokens.
// ---------------------------------------------------------------------------

/// A token moved `n` bytes further into the text.
pub open spec fn spec_shift_token(t: JsonToken, n: int) -> JsonToken {
    JsonToken {
        kind: t.kind,
        span: Span { start: (t.span.start + n) as usize, end: (t.span.end + n) as usize },
    }
}

/// Tokens moved `n` bytes further into the text, or the same error.
pub open spec fn spec_shift_result(
    r: Result<Seq<JsonToken>, JsonErrorView>,
    n: int,
) -> Result<Seq<JsonToken>, JsonErrorView> {
    match r {
        Ok(ts) => Ok(ts.map_values(|t: JsonToken| spec_shift_token(t, n))),
        Err(e) => Err(e),
    }
}

proof fn lemma_close_shift(b: Seq<u8>, w: u8, i: int)
    requires
        0 <= i,
    ensures
        spec_string_close(seq![w] + b, i + 1) == match spec_string_close(b, i) {
            Some(e) => Some(e + 1),
            None => None::<int>,
        },
    decreases b.len() - i,
{
    let c = seq![w] + b;
    if i < b.len() {
        assert(c[i + 1] == b[i]);
        if i + 1 < b.len() {
            assert(c[i + 2] == b[i + 1]);
        }
        if i + 5 < b.len() {
            assert(c[i + 3] == b[i + 2]);
            assert(c[i + 4] == b[i + 3]);
            assert(c[i + 5] == b[i + 4]);
            assert(c[i + 6] == b[i + 5]);
        }
        lemma_close_shift(b, w, i + 1);
        if i + 2 <= b.len() {
            lemma_close_shift(b, w, i + 2);
        }
        if i + 6 <= b.len() {
            lemma_close_shift(b, w, i + 6);
        }
    }
}

proof fn lemma_candidate_shift(b: Seq<u8>, w: u8, i: int)
    requires
        0 <= i <= b.len(),
    ensures
        spec_candidate_end(seq![w] + b, i + 1) == spec_candidate_end(b, i) + 1,
    decreases b.len() - i,
{
    let c = seq![w] + b;
    if i < b.len() {
        assert(c[i + 1] == b[i]);
        lemma_candidate_shift(b, w, i + 1);
    }
}

proof fn lemma_next_token_shift(b: Seq<u8>, w: u8, i: int)
    requires
        0 <= i < b.len(),
        b.len() + 1 < usize::MAX,
    ensures
        spec_next_token(seq![w] + b, i + 1) == match spec_next_token(b, i) {
            Ok((t, n)) => Ok((spec_shift_token(t, 1), n + 1)),
            Err(e) => Err::<(JsonToken, int), JsonErrorView>(e),
        },
{
    let c = seq![w] + b;
    assert(c[i + 1] == b[i]);
    let x = b[i];
    if x == 0x22 {
        lemma_close_shift(b, w, i + 1);
        if let Some(e) = spec_string_close(b, i + 1) {
            crate::json::lexer::lemma_string_close_bounds(b, i + 1);
        }
    } else if x == 0x74 || x == 0x66 || x == 0x6e {
        let kind = if x == 0x74 {
            JsonTokenKind::True
        } else if x == 0x66 {
            JsonTokenKind::False
        } else {
            JsonTokenKind::Null
        };
        let l = spec_literal_text(kind).len() as int;
        if i + l <= b.len() {
            assert(c.subrange(i + 1, i + 1 + l) =~= b.subrange(i, i + l));
        }
    } else if spec_is_digit(x) || x == 0x2d {
        lemma_candidate_shift(b, w, i);
        crate::json::lexer::lemma_candidate_end_bounds(b, i);
        let e = spec_candidate_end(b, i);
        assert(c.subrange(i + 1, e + 1) =~= b.subrange(i, e));
    }
}

proof fn lemma_tokens_shift(b: Seq<u8>, w: u8, i: int)
    requires
        0 <= i,
        b.len() + 1 < usize::MAX,
    ensures
        spec_tokens_from(seq![w] + b, i + 1) == spec_shift_result(spec_tokens_from(b, i), 1),
    decreases b.len() - i,
{
    let c = seq![w] + b;
    if i < b.len() {
        lemma_next_token_shift(b, w, i);
        if let Ok((t, n)) = spec_next_token(b, i) {
            lemma_next_token_advances(b, i);
            lemma_tokens_shift(b, w, n);
            if let Ok(rest) = spec_tokens_from(b, n) {
                if t.kind != JsonTokenKind::Whitespace {
                    let f = |t: JsonToken| spec_shift_token(t, 1);
                    assert((seq![t] + rest).map_values(f) =~= seq![f(t)] + rest.map_values(f));
                }
            }
        }
    } else {
        assert(Seq::<JsonToken>::empty().map_values(|t: JsonToken| spec_shift_token(t, 1))
            =~= Seq::<JsonToken>::empty());
    }
}

/// Whitespace in front of a text changes nothing but where its tokens stand: the
/// tokens of the text with one whitespace byte in front are those of the text, each
/// one byte further on, and an error is the same error.
pub proof fn law_whitespace_prefix(w: u8, b: Seq<u8>)
    requires
        spec_is_whitespace(w),
        b.len() + 1 < usize::MAX,
    ensures
        spec_tokenize(seq![w] + b) == spec_shift_result(spec_tokenize(b), 1),
{
    let c = seq![w] + b;
    assert(c[0] == w);
    law_whitespace_gives_no_token(c, 0);
    lemma_tokens_shift(b, w, 0);
}

// ---------------------------------------------------------------------------
// Tokens of small texts.
// ---------------------------------------------------------------------------

/// Reading from `p`, past the end of a JSON number that stands in `b` from `p` up to
/// `e`, gives the number's token first.
proof fn lemma_number_token_at(b: Seq<u8>, p: int, e: int)
    requires
        0 <= p < e <= b.len(),
        b.len() < usize::MAX,
        spec_json_number(b.subrange(p, e)),
        e == b.len() || b[e] == 0x20 || b[e] == 0x09 || b[e] == 0x0a || b[e] == 0x0d
            || b[e] == 0x2c || b[e] == 0x5d || b[e] == 0x7d,
    ensures
        spec_next_token(b, p) == Ok::<(JsonToken, int), JsonErrorView>(
            (JsonToken { kind: JsonTokenKind::Number, span: Span { start: p as usize, end: e as usize } }, e),
        ),
{
    let n = b.subrange(p, e);
    law_number_grammar(n);
    lemma_number_first(n);
    lemma_number_alphabet(n);
    assert forall|j: int| p <= j < e implies !spec_is_separator(#[trigger] b[j]) by {
        assert(b[j] == n[j - p]);
        assert(spec_number_byte(n[j - p]));
    }
    lemma_candidate_end_at(b, p, e);
    assert(b[p] == n[0]);
}

/// A JSON number followed by a whitespace byte (space, tab, line feed or carriage
/// return) reads as one number token over the number's bytes: whitespace ends a number.
pub proof fn law_number_then_whitespace(n: Seq<u8>, w: u8)
    requires
        spec_json_number(n),
        w == 0x20 || w == 0x09 || w == 0x0a || w == 0x0d,
        n.len() + 1 < usize::MAX,
    ensures
        spec_tokenize(n.push(w)) == Ok::<Seq<JsonToken>, JsonErrorView>(
            seq![JsonToken { kind: JsonTokenKind::Number, span: Span { start: 0, end: n.len() as usize } }],
        ),
{
    let b = n.push(w);
    let e = n.len() as int;
    assert(b.subrange(0, e) =~= n);
    lemma_number_token_at(b, 0, e);
    assert(spec_tokens_from(b, e + 1) == Ok::<Seq<JsonToken>, JsonErrorView>(Seq::empty()));
    assert(spec_tokens_from(b, e) == Ok::<Seq<JsonToken>, JsonErrorView>(Seq::empty()));
    let t = JsonToken { kind: JsonTokenKind::Number, span: Span { start: 0, end: e as usize } };
    assert(seq![t] + Seq::<JsonToken>::empty() =~= seq![t]);
}

/// A JSON number followed by `,`, `]` or `}` reads as the number's token, then the
/// token of that character.
pub proof fn law_number_then_structural(n: Seq<u8>, c: u8)
    requires
        spec_json_number(n),
        c == 0x2c || c == 0x5d || c == 0x7d,
        n.len() + 1 < usize::MAX,
    ensures
        spec_tokenize(n.push(c)) == Ok::<Seq<JsonToken>, JsonErrorView>(
            seq![
                JsonToken { kind: JsonTokenKind::Number, span: Span { start: 0, end: n.len() as usize } },
                JsonToken {
                    kind: if c == 0x2c {
                        JsonTokenKind::Comma
                    } else if c == 0x5d {
                        JsonTokenKind::RBracket
                    } else {
                        JsonTokenKind::RBrace
                    },
                    span: Span { start: n.len() as usize, end: (n.len() + 1) as usize },
                },
            ],
        ),
{
    let b = n.push(c);
    let e = n.len() as int;
    assert(b.subrange(0, e) =~= n);
    lemma_number_token_at(b, 0, e);
    assert(spec_tokens_from(b, e + 1) == Ok::<Seq<JsonToken>, JsonErrorView>(Seq::empty()));
    let t2 = spec_token(spec_single_kind(c)->0, e, e + 1);
    assert(spec_tokens_from(b, e) == Ok::<Seq<JsonToken>, JsonErrorView>(seq![t2] + Seq::empty()));
    let t = JsonToken { kind: JsonTokenKind::Number, span: Span { start: 0, end: e as usize } };
    assert(seq![t] + (seq![t2] + Seq::<JsonToken>::empty()) =~= seq![t, t2]);
}

/// `0` to `9`, `a` to `f` or `A` to `F`, by their codes.
pub open spec fn spec_ascii_hex(c: u8) -> bool {
    (0x30 <= c && c <= 0x39) || (0x61 <= c && c <= 0x66) || (0x41 <= c && c <= 0x46)
}

/// A quoted `\u` escape with any four ASCII hexadecimal digits, lower or upper case,
/// reads as one string token over all eight bytes.
pub proof fn law_hex_escape_string(h1: u8, h2: u8, h3: u8, h4: u8)
    requires
        spec_ascii_hex(h1),
        spec_ascii_hex(h2),
        spec_ascii_hex(h3),
        spec_ascii_hex(h4),
    ensures
        spec_tokenize(seq![0x22u8, 0x5cu8, 0x75u8, h1, h2, h3, h4, 0x22u8]) == Ok::<
            Seq<JsonToken>,
            JsonErrorView,
        >(seq![JsonToken { kind: JsonTokenKind::String, span: Span { start: 0, end: 8 } }]),
{
    let b = seq![0x22u8, 0x5cu8, 0x75u8, h1, h2, h3, h4, 0x22u8];
    assert(spec_string_close(b, 7) == Some(8int));
    assert(crate::json::lexer::spec_is_hex_escape(b, 1));
    assert(spec_string_close(b, 1) == Some(8int));
    assert(spec_tokens_from(b, 8) == Ok::<Seq<JsonToken>, JsonErrorView>(Seq::empty()));
    let t = JsonToken { kind: JsonTokenKind::String, span: Span { start: 0, end: 8 } };
    assert(seq![t] + Seq::<JsonToken>::empty() =~= seq![t]);
}

/// Scanning string content of bytes that are no quote, no backslash and no control
/// character, up to a closing quote, stops just past that quote.
proof fn lemma_scan_unescaped(b: Seq<u8>, q: int, e: int)
    requires
        0 <= q <= e < b.len(),
        forall|k: int| q <= k < e ==> #[trigger] b[k] != 0x22 && b[k] != 0x5c && b[k] >= 0x20,
        b[e] == 0x22,
    ensures
        spec_string_close(b, q) == Some(e + 1),
    decreases e - q,
{
    if q < e {
        assert(b[q] != 0x22 && b[q] != 0x5c && b[q] >= 0x20);
        lemma_scan_unescaped(b, q + 1, e);
    }
}

/// Between quotes, every byte other than the quote, the backslash and the control
/// characters below `0x20` may stand unescaped: such a text reads as one string token
/// over all of its bytes.
pub proof fn law_unescaped_string(x: Seq<u8>)
    requires
        forall|k: int| 0 <= k < x.len() ==> #[trigger] x[k] != 0x22 && x[k] != 0x5c && x[k] >= 0x20,
        x.len() + 2 < usize::MAX,
    ensures
        spec_tokenize(seq![0x22u8] + x + seq![0x22u8]) == Ok::<Seq<JsonToken>, JsonErrorView>(
            seq![
                JsonToken {
                    kind: JsonTokenKind::String,
                    span: Span { start: 0, end: (x.len() + 2) as usize },
                },
            ],
        ),
{
    let b = seq![0x22u8] + x + seq![0x22u8];
    let e = x.len() + 1int;
    assert forall|k: int| 1 <= k < e implies #[trigger] b[k] != 0x22 && b[k] != 0x5c && b[k] >= 0x20 by {
        assert(b[k] == x[k - 1]);
    }
    assert(b[e] == 0x22);
    lemma_scan_unescaped(b, 1, e);
    assert(b[0] == 0x22);
    assert(spec_tokens_from(b, e + 1) == Ok::<Seq<JsonToken>, JsonErrorView>(Seq::empty()));
    let t = JsonToken { kind: JsonTokenKind::String, span: Span { start: 0, end: (e + 1) as usize } };
    assert(seq![t] + Seq::<JsonToken>::empty() =~= seq![t]);
}

} // verus!
