use vstd::prelude::*;
use vstd::string::StringSliceAdditionalSpecFns;
use vstd::utf8::*;

verus! {

broadcast use vstd::string::group_string_axioms;

/// The characters that a valid UTF-8 byte sequence encodes.
pub open spec fn spec_decode(bytes: Seq<u8>) -> Seq<char> {
    decode_utf8(bytes)
}

/// The empty byte sequence decodes to no characters.
pub proof fn lemma_decode_empty()
    ensures
        spec_decode(Seq::<u8>::empty()) == Seq::<char>::empty(),
{
    assert(valid_utf8(Seq::<u8>::empty()));
}

/// A text addressed by byte offsets, as the lexer reads it.
#[derive(Debug, Clone, Copy)]
pub struct Source<'a> {
    source: &'a str,
}

impl<'a> View for Source<'a> {
    /// The UTF-8 bytes of the text.
    type V = Seq<u8>;

    closed spec fn view(&self) -> Seq<u8> {
        self.source.spec_bytes()
    }
}

impl<'a> Source<'a> {
    /// `start..end` is a slice of the text: in bounds, in order, and both ends on
    /// character boundaries.
    pub open spec fn spec_slice_ok(bytes: Seq<u8>, start: int, end: int) -> bool {
        &&& 0 <= start <= end <= bytes.len()
        &&& is_char_boundary(bytes, start)
        &&& is_char_boundary(bytes, end)
    }

    /// The character whose encoding starts at byte `index`, if one does.
    pub open spec fn spec_char_at(bytes: Seq<u8>, index: int) -> Option<char> {
        if 0 <= index < bytes.len() && is_char_boundary(bytes, index) {
            Some(decode_utf8(bytes.subrange(index, bytes.len() as int))[0])
        } else {
            None
        }
    }

    /// The bytes of a Rust string are valid UTF-8.
    pub proof fn lemma_valid(&self)
        ensures
            valid_utf8(self@),
    {
        encode_utf8_valid_utf8(self.source@);
    }

    /// Wraps a text.
    pub fn new(source: &'a str) -> (s: Self)
        ensures
            s@ == source.spec_bytes(),
    {
        Self { source }
    }

    /// The length of the text in bytes.
    pub fn len(&self) -> (n: usize)
        ensures
            n == self@.len(),
    {
        self.source.as_bytes().len()
    }

    /// The bytes of the text.
    pub fn as_bytes(&self) -> (b: &'a [u8])
        ensures
            b@ == self@,
    {
        self.source.as_bytes()
    }

    /// The character that starts at byte `byte_index`; `None` when the index is past
    /// the end or inside the encoding of a character.
    pub fn char_at(&self, byte_index: usize) -> (c: Option<char>)
        ensures
            c == Self::spec_char_at(self@, byte_index as int),
    {
        proof {
            self.lemma_valid();
        }
        if byte_index < self.source.as_bytes().len() && self.source.is_char_boundary(byte_index) {
            let (_, tail) = self.source.split_at(byte_index);
            proof {
                encode_utf8_decode_utf8(tail@);
                assert(tail.spec_bytes().len() > 0);
                assert(tail@.len() > 0) by {
                    if tail@.len() == 0 {
                        assert(encode_utf8(tail@) =~= Seq::<u8>::empty());
                    }
                }
            }
            let mut chars = tail.chars();
            chars.next()
        } else {
            None
        }
    }

    /// The text between byte offsets `start` and `end`; `None` unless
    /// `start..end` is a slice of the text.
    pub fn slice(&self, start: usize, end: usize) -> (s: Option<&'a str>)
        ensures
            s is Some <==> Self::spec_slice_ok(self@, start as int, end as int),
            s matches Some(t) ==> t.spec_bytes() == self@.subrange(start as int, end as int),
    {
        proof {
            self.lemma_valid();
        }
        if start <= end && end <= self.source.as_bytes().len() && self.source.is_char_boundary(start)
            && self.source.is_char_boundary(end) {
            let (head, _) = self.source.split_at(end);
            proof {
                lemma_boundary_in_prefix(self@, start as int, end as int);
            }
            let (_, mid) = head.split_at(start);
            proof {
                assert(mid.spec_bytes() =~= self@.subrange(start as int, end as int));
            }
            Some(mid)
        } else {
            None
        }
    }
}

/// A character boundary of a valid text that lies before another boundary is
/// also a boundary of the prefix that ends there.
pub proof fn lemma_boundary_in_prefix(bytes: Seq<u8>, start: int, end: int)
    requires
        valid_utf8(bytes),
        0 <= start <= end <= bytes.len(),
        is_char_boundary(bytes, start),
        is_char_boundary(bytes, end),
    ensures
        valid_utf8(bytes.subrange(0, end)),
        is_char_boundary(bytes.subrange(0, end), start),
{
    valid_utf8_split(bytes, end);
    let head = bytes.subrange(0, end);
    if start == end {
        is_char_boundary_start_end_of_seq(head);
        assert(head.len() == end);
    } else {
        is_char_boundary_iff_not_is_continuation_byte(bytes, start);
        is_char_boundary_iff_not_is_continuation_byte(head, start);
        assert(head[start] == bytes[start]);
    }
}

/// In a valid text, the character at a byte offset is found exactly at the offsets
/// where a character starts, below the length; and the character found is the one
/// whose encoding stands in the text from that offset.
pub proof fn law_char_at(bytes: Seq<u8>, index: int)
    requires
        valid_utf8(bytes),
    ensures
        Source::spec_char_at(bytes, index) is Some <==> (0 <= index < bytes.len()
            && is_char_boundary(bytes, index)),
        Source::spec_char_at(bytes, index) matches Some(c) ==> {
            let e = encode_utf8(seq![c]);
            &&& index + e.len() <= bytes.len()
            &&& bytes.subrange(index, index + e.len()) == e
        },
{
    if 0 <= index < bytes.len() && is_char_boundary(bytes, index) {
        let tail = bytes.subrange(index, bytes.len() as int);
        valid_utf8_split(bytes, index);
        decode_utf8_encode_utf8(tail);
        let d = decode_utf8(tail);
        if d.len() == 0 {
            assert(encode_utf8(d) =~= Seq::<u8>::empty());
        }
        let c = d[0];
        lemma_encode_split(d);
        assert(seq![c].drop_first() =~= Seq::<char>::empty());
        lemma_encode_split(seq![c]);
        assert(encode_utf8(Seq::<char>::empty()) =~= Seq::<u8>::empty());
        assert(encode_utf8(seq![c]) =~= encode_scalar(c as u32));
        assert(encode_utf8(d) == encode_scalar(c as u32) + encode_utf8(d.drop_first()));
        let e = encode_scalar(c as u32);
        assert forall|k: int| 0 <= k < e.len() implies bytes.subrange(index, index + e.len())[k]
            == e[k] by {
            assert(tail[k] == e[k]);
        }
        assert(bytes.subrange(index, index + e.len()) =~= e);
    }
}

/// The encoding of characters starts with the encoding of the first.
proof fn lemma_encode_split(d: Seq<char>)
    requires
        d.len() > 0,
    ensures
        encode_utf8(d) == encode_scalar(d[0] as u32) + encode_utf8(d.drop_first()),
{
}

} // verus!
