use vstd::prelude::*;

use crate::source::Source;
use vstd::string::StringSliceAdditionalSpecFns;
use crate::text::{append_decimal, spec_digit, string_from};

verus! {

/// The kinds of token that the lexer emits.
#[derive(Debug, Clone, Copy, PartialEq, Eq, Structural)]
pub enum JsonTokenKind {
    LBrace,
    RBrace,
    LBracket,
    RBracket,
    String,
    Number,
    True,
    False,
    Null,
    Colon,
    Comma,
    Whitespace,
    InvalidToken,
    Stop,
}

impl JsonTokenKind {
    /// The name under which a kind is shown (in messages and in token renderings).
    pub open spec fn spec_name(self) -> Seq<char> {
        match self {
            JsonTokenKind::LBrace => "LBrace"@,
            JsonTokenKind::RBrace => "RBrace"@,
            JsonTokenKind::LBracket => "LBracket"@,
            JsonTokenKind::RBracket => "RBracket"@,
            JsonTokenKind::String => "String"@,
            JsonTokenKind::Number => "Number"@,
            JsonTokenKind::True => "True"@,
            JsonTokenKind::False => "False"@,
            JsonTokenKind::Null => "Null"@,
            JsonTokenKind::Colon => "Colon"@,
            JsonTokenKind::Comma => "Comma"@,
            JsonTokenKind::Whitespace => "Whitespace"@,
            JsonTokenKind::InvalidToken => "InvalidToken"@,
            JsonTokenKind::Stop => "Stop"@,
        }
    }

    /// The name of the kind.
    pub fn name(&self) -> (s: &'static str)
        ensures
            s@ == self.spec_name(),
    {
        match self {
            JsonTokenKind::LBrace => "LBrace",
            JsonTokenKind::RBrace => "RBrace",
            JsonTokenKind::LBracket => "LBracket",
            JsonTokenKind::RBracket => "RBracket",
            JsonTokenKind::String => "String",
            JsonTokenKind::Number => "Number",
            JsonTokenKind::True => "True",
            JsonTokenKind::False => "False",
            JsonTokenKind::Null => "Null",
            JsonTokenKind::Colon => "Colon",
            JsonTokenKind::Comma => "Comma",
            JsonTokenKind::Whitespace => "Whitespace",
            JsonTokenKind::InvalidToken => "InvalidToken",
            JsonTokenKind::Stop => "Stop",
        }
    }
}

/// A half-open range of byte offsets into the source text.
#[derive(Debug, Clone, Copy, PartialEq, Eq, Structural)]
pub struct Span {
    pub start: usize,
    pub end: usize,
}

/// A token: its kind and the bytes of the source that it covers.
#[derive(Debug, Clone, Copy, PartialEq, Eq, Structural)]
pub struct JsonToken {
    pub kind: JsonTokenKind,
    pub span: Span,
}

/// A token together with the source text it was read from, for rendering.
#[derive(Debug, Clone)]
pub struct JsonTokenDisplay<'a> {
    pub source: &'a str,
    pub token: &'a JsonToken,
}

/// The text that a token covers, or nothing when its span is not a valid
/// slice of the source.
pub open spec fn spec_token_content(bytes: Seq<u8>, span: Span) -> Seq<u8> {
    if Source::spec_slice_ok(bytes, span.start as int, span.end as int) {
        bytes.subrange(span.start as int, span.end as int)
    } else {
        Seq::empty()
    }
}

/// Decimal digits of a natural number, most significant first.
pub open spec fn spec_decimal(n: nat) -> Seq<char>
    decreases n,
{
    if n < 10 {
        seq![spec_digit(n)]
    } else {
        spec_decimal(n / 10) + seq![spec_digit(n % 10)]
    }
}

/// The number that a text of decimal digits stands for, read in base ten.
pub open spec fn spec_numeral_value(s: Seq<char>) -> int
    decreases s.len(),
{
    if s.len() == 0 {
        0
    } else {
        spec_numeral_value(s.drop_last()) * 10 + (s.last() as int - 48)
    }
}

/// The digit character of a value below ten has the code of `0` plus the value.
proof fn lemma_digit_code(d: nat)
    requires
        d < 10,
    ensures
        spec_digit(d) as int == 48 + d,
{
    if d == 0 {
        assert('0' as int == 48);
    } else if d == 1 {
        assert('1' as int == 49);
    } else if d == 2 {
        assert('2' as int == 50);
    } else if d == 3 {
        assert('3' as int == 51);
    } else if d == 4 {
        assert('4' as int == 52);
    } else if d == 5 {
        assert('5' as int == 53);
    } else if d == 6 {
        assert('6' as int == 54);
    } else if d == 7 {
        assert('7' as int == 55);
    } else if d == 8 {
        assert('8' as int == 56);
    } else {
        assert('9' as int == 57);
    }
}

/// The decimal text of `n` is its numeral: at least one character, every one of them
/// a digit `0` to `9`, no leading zero unless `n` is zero, and read in base ten it
/// gives back `n`.
pub proof fn law_decimal_numeral(n: nat)
    ensures
        spec_decimal(n).len() >= 1,
        forall|k: int|
            0 <= k < spec_decimal(n).len() ==> 48 <= (#[trigger] spec_decimal(n)[k]) as int <= 57,
        spec_numeral_value(spec_decimal(n)) == n,
        spec_decimal(n).len() > 1 ==> spec_decimal(n)[0] != '0',
        n > 0 ==> spec_decimal(n)[0] != '0',
    decreases n,
{
    let s = spec_decimal(n);
    if n < 10 {
        assert(s.drop_last() =~= Seq::<char>::empty());
        lemma_digit_code(n);
        assert(spec_numeral_value(Seq::<char>::empty()) == 0);
        assert(s.last() == spec_digit(n));
        assert(spec_numeral_value(s) == spec_numeral_value(s.drop_last()) * 10 + (s.last() as int - 48));
    } else {
        let q = (n / 10) as nat;
        let r = (n % 10) as nat;
        law_decimal_numeral(q);
        let p = spec_decimal(q);
        lemma_digit_code(r);
        assert(s == p + seq![spec_digit(r)]);
        assert(s.drop_last() =~= p);
        assert(s.last() == spec_digit(r));
        assert forall|k: int| 0 <= k < s.len() implies 48 <= (#[trigger] s[k]) as int <= 57 by {
            if k < p.len() {
                assert(s[k] == p[k]);
            }
        }
        assert(s[0] == p[0]);
        assert(q * 10 + r == n);
        assert(spec_numeral_value(s) == spec_numeral_value(s.drop_last()) * 10 + (s.last() as int - 48));
        assert(spec_numeral_value(s) == q * 10 + r);
    }
}

impl<'a> JsonTokenDisplay<'a> {
    /// The rendering of the token:
    /// `<kind=K, start=S, end=E, content=C`, with no closing bracket.
    pub open spec fn spec_rendering(self) -> Seq<char> {
        "<kind="@ + self.token.kind.spec_name() + ", start="@ + spec_decimal(
            self.token.span.start as nat,
        ) + ", end="@ + spec_decimal(self.token.span.end as nat) + ", content="@
            + crate::source::spec_decode(spec_token_content(self.source.spec_bytes(), self.token.span))
    }

    /// Renders the token as text.
    pub fn to_string(&self) -> (s: String)
        ensures
            s@ == self.spec_rendering(),
    {
        let src = Source::new(self.source);
        let content = match src.slice(self.token.span.start, self.token.span.end) {
            Some(c) => c,
            None => "",
        };
        proof {
            reveal_strlit("");
            crate::source::lemma_decode_empty();
            vstd::utf8::encode_utf8_decode_utf8(content@);
            assert(content@ == crate::source::spec_decode(
                spec_token_content(self.source.spec_bytes(), self.token.span),
            ));
        }
        let mut out = string_from("<kind=");
        out.append(self.token.kind.name());
        out.append(", start=");
        append_decimal(&mut out, self.token.span.start);
        out.append(", end=");
        append_decimal(&mut out, self.token.span.end);
        out.append(", content=");
        out.append(content);
        assert(out@ =~= self.spec_rendering());
        out
    }
}

impl JsonToken {
    /// Pairs the token with the source text, for rendering.
    pub fn display<'a>(&'a self, source: &'a str) -> (d: JsonTokenDisplay<'a>)
        ensures
            d.source == source,
            *d.token == *self,
    {
        JsonTokenDisplay { source, token: self }
    }
}

} // verus!
