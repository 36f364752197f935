use vstd::prelude::*;

use crate::json::error::{JsonErrorView, JsonParserError};
use crate::json::token::{JsonToken, JsonTokenKind, Span};
use crate::source::Source;
use vstd::string::StringSliceAdditionalSpecFns;

verus! {

// ---------------------------------------------------------------------------
// The lexical rules, stated over the UTF-8 bytes of the source text.
// ---------------------------------------------------------------------------

/// Bytes that end a number candidate: the structural characters and whitespace.
pub open spec fn spec_is_separator(c: u8) -> bool {
    c == 0x7b || c == 0x7d || c == 0x3a || c == 0x2c || c == 0x5d || c == 0x5b
        || spec_is_whitespace(c)
}

/// Space, newline, carriage return and tab.
pub open spec fn spec_is_whitespace(c: u8) -> bool {
    c == 0x20 || c == 0x0a || c == 0x0d || c == 0x09
}

/// `0` to `9`.
pub open spec fn spec_is_digit(c: u8) -> bool {
    0x30 <= c <= 0x39
}

/// `0` to `9`, `a` to `f` and `A` to `F`.
pub open spec fn spec_is_hex_digit(c: u8) -> bool {
    spec_is_digit(c) || (0x61 <= c <= 0x66) || (0x41 <= c <= 0x46)
}

/// The characters that may not stand unescaped in a string:
/// the quote, the backslash and the control characters U+0000 to U+001F.
pub open spec fn spec_must_be_escaped(c: u8) -> bool {
    c == 0x22 || c == 0x5c || c < 0x20
}

/// The end of the number candidate that starts at `start`: the first separator at or
/// after `start`, or the end of the text.
pub open spec fn spec_candidate_end(b: Seq<u8>, start: int) -> int
    decreases b.len() - start,
{
    if start < 0 || start >= b.len() {
        b.len() as int
    } else if spec_is_separator(b[start]) {
        start
    } else {
        spec_candidate_end(b, start + 1)
    }
}

/// One step of the number automaton. States: 0 start, 1 after the sign, 2 in the
/// integer part, 3 at the dot, 4 in the fraction, 5 at the exponent mark, 6 after the
/// exponent sign, 7 in the exponent; -1 rejects.
pub open spec fn spec_number_step(state: int, c: u8) -> int {
    if c == 0x2d {
        if state == 0 {
            1
        } else if state == 5 {
            6
        } else {
            -1
        }
    } else if spec_is_digit(c) {
        if state == 0 || state == 1 || state == 2 {
            2
        } else if state == 3 || state == 4 {
            4
        } else if state == 5 || state == 6 || state == 7 {
            7
        } else {
            -1
        }
    } else if c == 0x2e {
        if state == 2 {
            3
        } else {
            -1
        }
    } else if c == 0x65 || c == 0x45 {
        if state == 2 || state == 4 {
            5
        } else {
            -1
        }
    } else if c == 0x2b {
        if state == 5 {
            6
        } else {
            -1
        }
    } else {
        -1
    }
}

/// The state of the number automaton after reading `s`.
pub open spec fn spec_number_state(s: Seq<u8>) -> int
    decreases s.len(),
{
    if s.len() == 0 {
        0
    } else {
        spec_number_step(spec_number_state(s.drop_last()), s.last())
    }
}

/// The integer part (after an optional minus sign) starts with a zero that is
/// followed by another digit.
pub open spec fn spec_has_leading_zero(s: Seq<u8>) -> bool {
    let t = if s.len() > 0 && s[0] == 0x2d {
        s.drop_first()
    } else {
        s
    };
    t.len() >= 2 && t[0] == 0x30 && spec_is_digit(t[1])
}

/// The text of a valid number token.
pub open spec fn spec_valid_number(s: Seq<u8>) -> bool {
    &&& !spec_has_leading_zero(s)
    &&& {
        let st = spec_number_state(s);
        st == 2 || st == 4 || st == 7
    }
}

/// A two-byte escape at `i`: a backslash and one of `" \ / b f n r t`.
pub open spec fn spec_is_short_escape(b: Seq<u8>, i: int) -> bool {
    &&& 0 <= i
    &&& i + 2 <= b.len()
    &&& b[i] == 0x5c
    &&& {
        let e = b[i + 1];
        e == 0x22 || e == 0x5c || e == 0x2f || e == 0x62 || e == 0x66 || e == 0x6e || e == 0x72
            || e == 0x74
    }
}

/// A six-byte escape at `i`: a backslash, `u` and four hexadecimal digits.
pub open spec fn spec_is_hex_escape(b: Seq<u8>, i: int) -> bool {
    &&& 0 <= i
    &&& i + 6 <= b.len()
    &&& b[i] == 0x5c
    &&& b[i + 1] == 0x75
    &&& spec_is_hex_digit(b[i + 2])
    &&& spec_is_hex_digit(b[i + 3])
    &&& spec_is_hex_digit(b[i + 4])
    &&& spec_is_hex_digit(b[i + 5])
}

/// Scanning string content from `i`: the offset just past the closing quote, or
/// `None` when the string is unterminated, holds an invalid escape or an
/// unescaped control character.
pub open spec fn spec_string_close(b: Seq<u8>, i: int) -> Option<int>
    decreases b.len() - i,
{
    if i < 0 || i >= b.len() {
        None
    } else if b[i] == 0x5c {
        if spec_is_short_escape(b, i) {
            spec_string_close(b, i + 2)
        } else if spec_is_hex_escape(b, i) {
            spec_string_close(b, i + 6)
        } else {
            None
        }
    } else if b[i] == 0x22 {
        Some(i + 1)
    } else if spec_must_be_escaped(b[i]) {
        None
    } else {
        spec_string_close(b, i + 1)
    }
}

/// The bytes of the literal of a kind (`true`, `false`, `null`); empty for other kinds.
pub open spec fn spec_literal_text(kind: JsonTokenKind) -> Seq<u8> {
    match kind {
        JsonTokenKind::True => seq![0x74u8, 0x72u8, 0x75u8, 0x65u8],
        JsonTokenKind::False => seq![0x66u8, 0x61u8, 0x6cu8, 0x73u8, 0x65u8],
        JsonTokenKind::Null => seq![0x6eu8, 0x75u8, 0x6cu8, 0x6cu8],
        _ => Seq::empty(),
    }
}

/// A token of a kind over `start..end`.
pub open spec fn spec_token(kind: JsonTokenKind, start: int, end: int) -> JsonToken {
    JsonToken { kind, span: Span { start: start as usize, end: end as usize } }
}

/// The literal of `kind` read at `i`.
pub open spec fn spec_literal_token(b: Seq<u8>, i: int, kind: JsonTokenKind) -> Result<
    (JsonToken, int),
    JsonErrorView,
> {
    let lit = spec_literal_text(kind);
    if lit.len() > 0 && i + lit.len() <= b.len() && b.subrange(i, i + lit.len()) == lit {
        Ok((spec_token(kind, i, i + lit.len()), i + lit.len()))
    } else {
        Err(JsonErrorView::Lexical("invalid literal"@))
    }
}

/// The number read at `i`: the candidate up to the next separator, if it is a valid number.
pub open spec fn spec_number_token(b: Seq<u8>, i: int) -> Result<(JsonToken, int), JsonErrorView> {
    let end = spec_candidate_end(b, i);
    if spec_valid_number(b.subrange(i, end)) {
        Ok((spec_token(JsonTokenKind::Number, i, end), end))
    } else {
        Err(JsonErrorView::Lexical("invalid number"@))
    }
}

/// The string read at `i` (where the opening quote is).
pub open spec fn spec_string_token(b: Seq<u8>, i: int) -> Result<(JsonToken, int), JsonErrorView> {
    match spec_string_close(b, i + 1) {
        Some(e) => Ok((spec_token(JsonTokenKind::String, i, e), e)),
        None => Err(JsonErrorView::Lexical("invalid string"@)),
    }
}

/// The kind of a one-byte token, if the byte is one.
pub open spec fn spec_single_kind(c: u8) -> Option<JsonTokenKind> {
    if c == 0x7b {
        Some(JsonTokenKind::LBrace)
    } else if c == 0x7d {
        Some(JsonTokenKind::RBrace)
    } else if c == 0x5b {
        Some(JsonTokenKind::LBracket)
    } else if c == 0x5d {
        Some(JsonTokenKind::RBracket)
    } else if c == 0x3a {
        Some(JsonTokenKind::Colon)
    } else if c == 0x2c {
        Some(JsonTokenKind::Comma)
    } else if spec_is_whitespace(c) {
        Some(JsonTokenKind::Whitespace)
    } else {
        None
    }
}

/// The token read at byte offset `i` and the offset where reading goes on; at the end
/// of the text a `Stop` token whose span is `len..len + 1`, with the offset unchanged.
pub open spec fn spec_next_token(b: Seq<u8>, i: int) -> Result<(JsonToken, int), JsonErrorView> {
    if i >= b.len() {
        Ok((spec_token(JsonTokenKind::Stop, b.len() as int, b.len() + 1int), i))
    } else {
        let c = b[i];
        if spec_single_kind(c) is Some {
            Ok((spec_token(spec_single_kind(c)->0, i, i + 1), i + 1))
        } else if c == 0x22 {
            spec_string_token(b, i)
        } else if c == 0x74 {
            spec_literal_token(b, i, JsonTokenKind::True)
        } else if c == 0x66 {
            spec_literal_token(b, i, JsonTokenKind::False)
        } else if c == 0x6e {
            spec_literal_token(b, i, JsonTokenKind::Null)
        } else if spec_is_digit(c) || c == 0x2d {
            spec_number_token(b, i)
        } else {
            Err(JsonErrorView::Lexical("invalid character"@))
        }
    }
}

/// The tokens read from offset `i` to the end, whitespace left out; or the first error.
pub open spec fn spec_tokens_from(b: Seq<u8>, i: int) -> Result<Seq<JsonToken>, JsonErrorView>
    decreases b.len() - i,
{
    if i < 0 || i >= b.len() {
        Ok(Seq::empty())
    } else {
        match spec_next_token(b, i) {
            Err(e) => Err(e),
            Ok((t, n)) => {
                if n <= i || n > b.len() {
                    Ok(Seq::empty())
                } else {
                    match spec_tokens_from(b, n) {
                        Err(e) => Err(e),
                        Ok(rest) => Ok(
                            if t.kind == JsonTokenKind::Whitespace {
                                rest
                            } else {
                                seq![t] + rest
                            },
                        ),
                    }
                }
            },
        }
    }
}

/// The tokens of a whole text, whitespace left out; or the first lexical error.
pub open spec fn spec_tokenize(b: Seq<u8>) -> Result<Seq<JsonToken>, JsonErrorView> {
    spec_tokens_from(b, 0)
}

/// A token-list result as a mathematical value.
pub open spec fn tokens_result_view(r: Result<Vec<JsonToken>, JsonParserError>) -> Result<
    Seq<JsonToken>,
    JsonErrorView,
> {
    match r {
        Ok(v) => Ok(v@),
        Err(e) => Err(e@),
    }
}

// ---------------------------------------------------------------------------
// Facts about the rules.
// ---------------------------------------------------------------------------

/// The candidate of a number ends at or after its start and within the text.
pub proof fn lemma_candidate_end_bounds(b: Seq<u8>, start: int)
    requires
        0 <= start <= b.len(),
    ensures
        start <= spec_candidate_end(b, start) <= b.len(),
        forall|j: int| start <= j < spec_candidate_end(b, start) ==> !spec_is_separator(b[j]),
        spec_candidate_end(b, start) < b.len() ==> spec_is_separator(
            b[spec_candidate_end(b, start)],
        ),
    decreases b.len() - start,
{
    if start < b.len() && !spec_is_separator(b[start]) {
        lemma_candidate_end_bounds(b, start + 1);
    }
}

/// A closed string ends after where the scan began and within the text.
pub proof fn lemma_string_close_bounds(b: Seq<u8>, i: int)
    requires
        spec_string_close(b, i) is Some,
    ensures
        i < spec_string_close(b, i)->0 <= b.len(),
    decreases b.len() - i,
{
    if 0 <= i < b.len() {
        if b[i] == 0x5c {
            if spec_is_short_escape(b, i) {
                lemma_string_close_bounds(b, i + 2);
            } else if spec_is_hex_escape(b, i) {
                lemma_string_close_bounds(b, i + 6);
            }
        } else if b[i] != 0x22 && !spec_must_be_escaped(b[i]) {
            lemma_string_close_bounds(b, i + 1);
        }
    }
}

/// Reading a token inside the text moves forward, and never past the end.
pub proof fn lemma_next_token_advances(b: Seq<u8>, i: int)
    requires
        0 <= i < b.len(),
    ensures
        spec_next_token(b, i) matches Ok((t, n)) ==> i < n <= b.len() && t.kind
            != JsonTokenKind::Stop && (b.len() < usize::MAX ==> t.span.start == i
            && t.span.end == n),
{
    let c = b[i];
    if spec_single_kind(c) is Some {
    } else if c == 0x22 {
        if spec_string_close(b, i + 1) is Some {
            lemma_string_close_bounds(b, i + 1);
        }
    } else if c == 0x74 || c == 0x66 || c == 0x6e {
    } else {
        lemma_candidate_end_bounds(b, i);
        lemma_candidate_end_bounds(b, i + 1);
    }
}

// ---------------------------------------------------------------------------
// The lexer.
// ---------------------------------------------------------------------------

/// Reads tokens, one at a time, from a source text.
#[derive(Debug, Clone)]
pub struct Lexer<'a> {
    index: usize,
    source: Source<'a>,
}

impl<'a> Lexer<'a> {
    /// The offset lies within the text, and the text is shorter than the largest `usize`.
    pub closed spec fn wf(&self) -> bool {
        &&& self.index <= self.source@.len()
        &&& self.source@.len() < usize::MAX
    }

    /// The bytes of the source text.
    pub closed spec fn spec_bytes(&self) -> Seq<u8> {
        self.source@
    }

    /// The byte offset where the next token is read.
    pub closed spec fn spec_index(&self) -> int {
        self.index as int
    }

    /// A lexer at the start of `source`.
    pub fn new(source: &'a str) -> (l: Self)
        requires
            source.spec_bytes().len() < usize::MAX,
        ensures
            l.wf(),
            l.spec_bytes() == source.spec_bytes(),
            l.spec_index() == 0,
    {
        Self { source: Source::new(source), index: 0 }
    }

    /// Reads the token at the current offset and moves past it; at the end of the text
    /// returns `Stop`. On an error the offset stays where it was.
    pub fn next_token(&mut self) -> (r: Result<JsonToken, JsonParserError>)
        requires
            old(self).wf(),
        ensures
            final(self).wf(),
            final(self).spec_bytes() == old(self).spec_bytes(),
            match spec_next_token(old(self).spec_bytes(), old(self).spec_index()) {
                Ok((t, n)) => r matches Ok(t2) && t2 == t && final(self).spec_index() == n,
                Err(e) => r matches Err(e2) && e2@ == e
                    && final(self).spec_index() == old(self).spec_index(),
            },
    {
        let bytes = self.source.as_bytes();
        let len = bytes.len();
        if self.index >= len {
            return Ok(
                JsonToken { kind: JsonTokenKind::Stop, span: Span { start: len, end: len + 1 } },
            );
        }
        let pos = self.index;
        let c = bytes[pos];
        let single = Span { start: pos, end: pos + 1 };
        let (token, next_index) = if c == 0x7b {
            (JsonToken { kind: JsonTokenKind::LBrace, span: single }, pos + 1)
        } else if c == 0x7d {
            (JsonToken { kind: JsonTokenKind::RBrace, span: single }, pos + 1)
        } else if c == 0x5b {
            (JsonToken { kind: JsonTokenKind::LBracket, span: single }, pos + 1)
        } else if c == 0x5d {
            (JsonToken { kind: JsonTokenKind::RBracket, span: single }, pos + 1)
        } else if c == 0x3a {
            (JsonToken { kind: JsonTokenKind::Colon, span: single }, pos + 1)
        } else if c == 0x2c {
            (JsonToken { kind: JsonTokenKind::Comma, span: single }, pos + 1)
        } else if c == 0x20 || c == 0x0a || c == 0x0d || c == 0x09 {
            (JsonToken { kind: JsonTokenKind::Whitespace, span: single }, pos + 1)
        } else if c == 0x22 {
            match self.parse_string() {
                Ok(x) => x,
                Err(e) => return Err(e),
            }
        } else if c == 0x74 {
            match self.parse_literal(JsonTokenKind::True) {
                Ok(x) => x,
                Err(e) => return Err(e),
            }
        } else if c == 0x66 {
            match self.parse_literal(JsonTokenKind::False) {
                Ok(x) => x,
                Err(e) => return Err(e),
            }
        } else if c == 0x6e {
            match self.parse_literal(JsonTokenKind::Null) {
                Ok(x) => x,
                Err(e) => return Err(e),
            }
        } else if (0x30 <= c && c <= 0x39) || c == 0x2d {
            match self.parse_number() {
                Ok(x) => x,
                Err(e) => return Err(e),
            }
        } else {
            (JsonToken { kind: JsonTokenKind::InvalidToken, span: single }, 0)
        };
        if token.kind == JsonTokenKind::InvalidToken {
            return Err(JsonParserError::lexical("invalid character"));
        }
        proof {
            lemma_next_token_advances(self.source@, pos as int);
        }
        self.index = next_index;
        Ok(token)
    }

    /// Reads the literal of `token_type` at the current offset.
    fn parse_literal(&self, token_type: JsonTokenKind) -> (r: Result<
        (JsonToken, usize),
        JsonParserError,
    >)
        requires
            self.wf(),
            self.spec_index() < self.spec_bytes().len(),
        ensures
            match spec_literal_token(self.spec_bytes(), self.spec_index(), token_type) {
                Ok((t, n)) => r matches Ok((t2, n2)) && t2 == t && n2 == n,
                Err(e) => r matches Err(e2) && e2@ == e,
            },
    {
        let bytes = self.source.as_bytes();
        let i = self.index;
        let len = bytes.len();
        let ghost b = bytes@;
        let matched: Option<usize> = match token_type {
            JsonTokenKind::True => {
                if len - i >= 4 && bytes[i] == 0x74 && bytes[i + 1] == 0x72 && bytes[i + 2]
                    == 0x75 && bytes[i + 3] == 0x65 {
                    assert(b.subrange(i as int, i + 4) =~= spec_literal_text(token_type));
                    Some(4)
                } else {
                    assert(len - i >= 4 ==> b.subrange(i as int, i + 4)[1] == b[i + 1]);
                    assert(len - i >= 4 ==> b.subrange(i as int, i + 4)[2] == b[i + 2]);
                    assert(len - i >= 4 ==> b.subrange(i as int, i + 4)[3] == b[i + 3]);
                    None
                }
            },
            JsonTokenKind::False => {
                if len - i >= 5 && bytes[i] == 0x66 && bytes[i + 1] == 0x61 && bytes[i + 2]
                    == 0x6c && bytes[i + 3] == 0x73 && bytes[i + 4] == 0x65 {
                    assert(b.subrange(i as int, i + 5) =~= spec_literal_text(token_type));
                    Some(5)
                } else {
                    assert(len - i >= 5 ==> b.subrange(i as int, i + 5)[1] == b[i + 1]);
                    assert(len - i >= 5 ==> b.subrange(i as int, i + 5)[2] == b[i + 2]);
                    assert(len - i >= 5 ==> b.subrange(i as int, i + 5)[3] == b[i + 3]);
                    assert(len - i >= 5 ==> b.subrange(i as int, i + 5)[4] == b[i + 4]);
                    None
                }
            },
            JsonTokenKind::Null => {
                if len - i >= 4 && bytes[i] == 0x6e && bytes[i + 1] == 0x75 && bytes[i + 2]
                    == 0x6c && bytes[i + 3] == 0x6c {
                    assert(b.subrange(i as int, i + 4) =~= spec_literal_text(token_type));
                    Some(4)
                } else {
                    assert(len - i >= 4 ==> b.subrange(i as int, i + 4)[1] == b[i + 1]);
                    assert(len - i >= 4 ==> b.subrange(i as int, i + 4)[2] == b[i + 2]);
                    assert(len - i >= 4 ==> b.subrange(i as int, i + 4)[3] == b[i + 3]);
                    None
                }
            },
            _ => None,
        };
        match matched {
            Some(n) => Ok(
                (JsonToken { kind: token_type, span: Span { start: i, end: i + n } }, i + n),
            ),
            None => Err(JsonParserError::lexical("invalid literal")),
        }
    }

    /// Whether the integer part of the number text `bytes[start..end]` starts with a
    /// zero followed by another digit.
    fn has_leading_zero(bytes: &[u8], start: usize, end: usize) -> (r: bool)
        requires
            start <= end <= bytes@.len(),
        ensures
            r == spec_has_leading_zero(bytes@.subrange(start as int, end as int)),
    {
        let ghost s = bytes@.subrange(start as int, end as int);
        let int_start = if start < end && bytes[start] == 0x2d {
            start + 1
        } else {
            start
        };
        proof {
            let t = if s.len() > 0 && s[0] == 0x2d {
                s.drop_first()
            } else {
                s
            };
            assert(t =~= bytes@.subrange(int_start as int, end as int));
        }
        end - int_start >= 2 && bytes[int_start] == 0x30 && 0x30 <= bytes[int_start + 1]
            && bytes[int_start + 1] <= 0x39
    }

    /// The end of the number candidate that starts at `start`.
    fn get_candicate_span(&self, start: usize) -> (s: Span)
        requires
            start <= self.spec_bytes().len(),
        ensures
            s.start == start,
            s.end == spec_candidate_end(self.spec_bytes(), start as int),
    {
        let bytes = self.source.as_bytes();
        let mut end = start;
        proof {
            lemma_candidate_end_bounds(bytes@, start as int);
        }
        while end < bytes.len()
            invariant
                bytes@ == self.spec_bytes(),
                start <= end <= bytes@.len(),
                spec_candidate_end(bytes@, start as int) == spec_candidate_end(bytes@, end as int),
            decreases bytes@.len() - end,
        {
            let c = bytes[end];
            if c == 0x7b || c == 0x7d || c == 0x3a || c == 0x2c || c == 0x5d || c == 0x5b
                || c == 0x20 || c == 0x0a || c == 0x09 || c == 0x0d {
                return Span { start, end };
            }
            end = end + 1;
        }
        Span { start, end: bytes.len() }
    }

    /// Reads the number at the current offset.
    fn parse_number(&self) -> (r: Result<(JsonToken, usize), JsonParserError>)
        requires
            self.wf(),
            self.spec_index() < self.spec_bytes().len(),
        ensures
            match spec_number_token(self.spec_bytes(), self.spec_index()) {
                Ok((t, n)) => r matches Ok((t2, n2)) && t2 == t && n2 == n,
                Err(e) => r matches Err(e2) && e2@ == e,
            },
    {
        let bytes = self.source.as_bytes();
        let span = self.get_candicate_span(self.index);
        proof {
            lemma_candidate_end_bounds(bytes@, self.index as int);
        }
        if Self::has_leading_zero(bytes, span.start, span.end) {
            return Err(JsonParserError::lexical("invalid number"));
        }
        let ghost value = bytes@.subrange(span.start as int, span.end as int);
        let mut state: i32 = 0;
        let mut k = span.start;
        while k < span.end && state != -1
            invariant
                span.start <= k <= span.end <= bytes@.len(),
                value == bytes@.subrange(span.start as int, span.end as int),
                -1 <= state <= 7,
                state != -1 ==> state as int == spec_number_state(
                    bytes@.subrange(span.start as int, k as int),
                ),
                state == -1 ==> spec_number_state(value) == -1,
            decreases span.end - k,
        {
            let c = bytes[k];
            state = if c == 0x2d {
                if state == 0 {
                    1
                } else if state == 5 {
                    6
                } else {
                    -1
                }
            } else if 0x30 <= c && c <= 0x39 {
                if state == 0 || state == 1 || state == 2 {
                    2
                } else if state == 3 || state == 4 {
                    4
                } else if state == 5 || state == 6 || state == 7 {
                    7
                } else {
                    -1
                }
            } else if c == 0x2e {
                if state == 2 {
                    3
                } else {
                    -1
                }
            } else if c == 0x65 || c == 0x45 {
                if state == 2 || state == 4 {
                    5
                } else {
                    -1
                }
            } else if c == 0x2b {
                if state == 5 {
                    6
                } else {
                    -1
                }
            } else {
                -1
            };
            proof {
                let p = bytes@.subrange(span.start as int, k + 1);
                assert(p.drop_last() =~= bytes@.subrange(span.start as int, k as int));
            }
            k = k + 1;
            proof {
                if state == -1 {
                    assert(bytes@.subrange(span.start as int, k as int) =~= value.subrange(
                        0,
                        k - span.start,
                    ));
                    lemma_number_state_rejects_for_good(value, k - span.start);
                }
            }
        }
        proof {
            if state != -1 {
                assert(bytes@.subrange(span.start as int, k as int) =~= value);
            }
        }
        if state == 2 || state == 4 || state == 7 {
            Ok((JsonToken { kind: JsonTokenKind::Number, span }, span.end))
        } else {
            Err(JsonParserError::lexical("invalid number"))
        }
    }

    /// Whether a character may not stand unescaped in a string.
    fn must_be_escaped(ch: u8) -> (r: bool)
        ensures
            r == spec_must_be_escaped(ch),
    {
        ch == 0x22 || ch == 0x5c || ch < 0x20
    }

    /// Whether a two-byte escape stands at `idx`.
    fn is_short_escape(bytes: &[u8], idx: usize) -> (r: bool)
        ensures
            r == spec_is_short_escape(bytes@, idx as int),
    {
        if idx < bytes.len() && bytes.len() - idx >= 2 && bytes[idx] == 0x5c {
            let e = bytes[idx + 1];
            e == 0x22 || e == 0x5c || e == 0x2f || e == 0x62 || e == 0x66 || e == 0x6e || e
                == 0x72 || e == 0x74
        } else {
            false
        }
    }

    /// Whether a hexadecimal digit.
    fn is_hex_digit(c: u8) -> (r: bool)
        ensures
            r == spec_is_hex_digit(c),
    {
        (0x30 <= c && c <= 0x39) || (0x61 <= c && c <= 0x66) || (0x41 <= c && c <= 0x46)
    }

    /// Whether a six-byte escape `\uXXXX` stands at `idx`.
    fn is_hex_escape(bytes: &[u8], idx: usize) -> (r: bool)
        ensures
            r == spec_is_hex_escape(bytes@, idx as int),
    {
        idx < bytes.len() && bytes.len() - idx >= 6 && bytes[idx] == 0x5c && bytes[idx + 1]
            == 0x75 && Self::is_hex_digit(bytes[idx + 2]) && Self::is_hex_digit(bytes[idx + 3])
            && Self::is_hex_digit(bytes[idx + 4]) && Self::is_hex_digit(bytes[idx + 5])
    }

    /// Reads the string whose opening quote is at the current offset.
    fn parse_string(&mut self) -> (r: Result<(JsonToken, usize), JsonParserError>)
        requires
            old(self).wf(),
            old(self).spec_index() < old(self).spec_bytes().len(),
        ensures
            *final(self) == *old(self),
            match spec_string_token(old(self).spec_bytes(), old(self).spec_index()) {
                Ok((t, n)) => r matches Ok((t2, n2)) && t2 == t && n2 == n,
                Err(e) => r matches Err(e2) && e2@ == e,
            },
    {
        let source = self.source;
        let bytes = source.as_bytes();
        let len = bytes.len();
        let mut idx = self.index + 1;
        while idx < len
            invariant
                bytes@ == self.spec_bytes(),
                len == bytes@.len(),
                len < usize::MAX,
                self.index < idx,
                spec_string_close(bytes@, self.index + 1) == spec_string_close(
                    bytes@,
                    idx as int,
                ),
            decreases len - idx,
        {
            let c = bytes[idx];
            if c == 0x5c {
                if Self::is_short_escape(bytes, idx) {
                    idx = idx + 2;
                    continue;
                } else if Self::is_hex_escape(bytes, idx) {
                    idx = idx + 6;
                    continue;
                } else {
                    return Err(JsonParserError::lexical("invalid string"));
                }
            } else if c == 0x22 {
                return Ok(
                    (
                        JsonToken {
                            kind: JsonTokenKind::String,
                            span: Span { start: self.index, end: idx + 1 },
                        },
                        idx + 1,
                    ),
                );
            } else if Self::must_be_escaped(c) {
                return Err(JsonParserError::lexical("invalid string"));
            } else {
                idx = idx + 1;
            }
        }
        Err(JsonParserError::lexical("invalid string"))
    }

    /// Reads all tokens of `source`, leaving whitespace out; stops at the first error.
    pub fn tokenize(source: &'a str) -> (r: Result<Vec<JsonToken>, JsonParserError>)
        requires
            source.spec_bytes().len() < usize::MAX,
        ensures
            tokens_result_view(r) == spec_tokenize(source.spec_bytes()),
    {
        let mut lexer = Self::new(source);
        let mut tokens: Vec<JsonToken> = Vec::new();
        let ghost b = source.spec_bytes();
        loop
            invariant
                lexer.wf(),
                b == source.spec_bytes(),
                lexer.spec_bytes() == b,
                0 <= lexer.spec_index() <= b.len(),
                spec_tokenize(b) == match spec_tokens_from(b, lexer.spec_index()) {
                    Ok(rest) => Ok(tokens@ + rest),
                    Err(e) => Err(e),
                },
            ensures
                spec_tokenize(b) == Ok::<Seq<JsonToken>, JsonErrorView>(tokens@),
            decreases b.len() - lexer.spec_index(),
        {
            let ghost i = lexer.spec_index();
            let token = match lexer.next_token() {
                Ok(t) => t,
                Err(e) => return Err(e),
            };
            if token.kind == JsonTokenKind::Stop {
                proof {
                    if i < b.len() {
                        lemma_next_token_advances(b, i);
                    }
                    assert(i >= b.len());
                    assert(tokens@ + Seq::<JsonToken>::empty() =~= tokens@);
                }
                break;
            }
            proof {
                lemma_next_token_advances(b, i);
            }
            if token.kind == JsonTokenKind::Whitespace {
                continue;
            }
            let ghost before = tokens@;
            tokens.push(token);
            proof {
                match spec_tokens_from(b, lexer.spec_index()) {
                    Ok(rest) => {
                        assert(before + (seq![token] + rest) =~= tokens@ + rest);
                    },
                    Err(_) => {},
                }
            }
        }
        Ok(tokens)
    }
}

/// Every token read from offset `i` on covers a nonempty range of bytes that lies
/// at or after `i` and within the text.
pub proof fn lemma_tokens_within(b: Seq<u8>, i: int)
    requires
        0 <= i,
        b.len() < usize::MAX,
    ensures
        spec_tokens_from(b, i) matches Ok(ts) ==> forall|k: int|
            0 <= k < ts.len() ==> i <= #[trigger] ts[k].span.start < ts[k].span.end <= b.len(),
    decreases b.len() - i,
{
    if i < b.len() {
        lemma_next_token_advances(b, i);
        match spec_next_token(b, i) {
            Ok((t, n)) => {
                lemma_tokens_within(b, n);
                match spec_tokens_from(b, n) {
                    Ok(rest) => {
                        if t.kind != JsonTokenKind::Whitespace {
                            let ts = seq![t] + rest;
                            assert forall|k: int| 0 <= k < ts.len() implies i <= #[trigger] ts[k].span.start
                                < ts[k].span.end <= b.len() by {
                                if k > 0 {
                                    assert(ts[k] == rest[k - 1]);
                                }
                            }
                        }
                    },
                    Err(_) => {},
                }
            },
            Err(_) => {},
        }
    }
}

/// Once the number automaton rejects, it rejects whatever follows.
pub proof fn lemma_number_state_rejects_for_good(s: Seq<u8>, k: int)
    requires
        0 <= k <= s.len(),
        spec_number_state(s.subrange(0, k)) == -1,
    ensures
        spec_number_state(s) == -1,
    decreases s.len() - k,
{
    if k < s.len() {
        let p = s.subrange(0, k + 1);
        assert(p.drop_last() =~= s.subrange(0, k));
        lemma_number_state_rejects_for_good(s, k + 1);
    } else {
        assert(s.subrange(0, k) =~= s);
    }
}

} // verus!
