//! Byte-ranged views of source text and the string comparisons the
//! rest of the library relies on.

use vstd::prelude::*;
use vstd::utf8::*;
use vstd::string::StringSliceAdditionalSpecFns;

verus! {

broadcast use {
    encode_utf8_valid_utf8,
    encode_utf8_decode_utf8,
    decode_utf8_encode_utf8,
    is_char_boundary_iff_is_leading_byte,
    is_char_boundary_start_end_of_seq,
    valid_utf8_split,
};

/// The UTF-8 bytes of a character sequence.
pub open spec fn bytes_of(s: Seq<char>) -> Seq<u8> {
    encode_utf8(s)
}

/// Whether `[start, end)` is an in-bounds byte range of `bytes` whose
/// ends fall on character boundaries.
pub open spec fn valid_range(bytes: Seq<u8>, start: int, end: int) -> bool {
    &&& 0 <= start <= end <= bytes.len()
    &&& is_char_boundary(bytes, start)
    &&& is_char_boundary(bytes, end)
}

/// The characters of the byte range `[start, end)` of `text`, when the
/// range is valid.
pub open spec fn slice_of(text: Seq<char>, start: int, end: int) -> Option<Seq<char>> {
    if valid_range(bytes_of(text), start, end) {
        Some(decode_utf8(bytes_of(text).subrange(start, end)))
    } else {
        None
    }
}

/// The whole text is a valid slice of itself.
pub proof fn lemma_whole_slice(text: Seq<char>)
    ensures
        slice_of(text, 0, bytes_of(text).len() as int) == Some(text),
{
    let bytes = bytes_of(text);
    encode_utf8_valid_utf8(text);
    is_char_boundary_start_end_of_seq(bytes);
    assert(bytes.subrange(0, bytes.len() as int) =~= bytes);
}

proof fn lemma_boundary_shift(bytes: Seq<u8>, start: int, end: int)
    requires
        valid_utf8(bytes),
        0 <= start <= end <= bytes.len(),
        is_char_boundary(bytes, start),
        is_char_boundary(bytes, end),
    ensures
        valid_utf8(bytes.subrange(start, bytes.len() as int)),
        is_char_boundary(bytes.subrange(start, bytes.len() as int), end - start),
{
    let rest = bytes.subrange(start, bytes.len() as int);
    valid_utf8_split(bytes, start);
    if end < bytes.len() {
        is_char_boundary_iff_is_leading_byte(bytes, end);
        is_char_boundary_iff_is_leading_byte(rest, end - start);
        assert(rest[end - start] == bytes[end]);
    } else {
        is_char_boundary_start_end_of_seq(rest);
    }
}

/// The text under the byte range `[start, end)`, or `None` when the
/// range is out of bounds or splits a character.
pub fn str_slice(text: &str, start: usize, end: usize) -> (r: Option<&str>)
    ensures
        r is Some <==> valid_range(text.spec_bytes(), start as int, end as int),
        r matches Some(t) ==> t.spec_bytes() == text.spec_bytes().subrange(start as int, end as int),
        r matches Some(t) ==> Some(t@) == slice_of(text@, start as int, end as int),
{
    proof {
        encode_utf8_valid_utf8(text@);
    }
    let len = text.as_bytes().len();
    if start <= end && end <= len && text.is_char_boundary(start) && text.is_char_boundary(end) {
        let (_, rest) = text.split_at(start);
        proof {
            lemma_boundary_shift(text.spec_bytes(), start as int, end as int);
            assert(rest.spec_bytes() =~= text.spec_bytes().subrange(start as int, text.spec_bytes().len() as int));
        }
        let (mid, _) = rest.split_at(end - start);
        proof {
            assert(mid.spec_bytes() =~= text.spec_bytes().subrange(start as int, end as int));
            decode_utf8_encode_utf8(mid.spec_bytes());
            encode_utf8_decode_utf8(mid@);
        }
        Some(mid)
    } else {
        None
    }
}

/// Byte-wise equality of two strings, which is equality of their text.
pub fn str_eq(a: &str, b: &str) -> (r: bool)
    ensures
        r == (a@ == b@),
{
    let x = a.as_bytes();
    let y = b.as_bytes();
    if x.len() != y.len() {
        proof {
            if a@ == b@ {
                assert(x@ == y@);
            }
        }
        return false;
    }
    let mut i: usize = 0;
    while i < x.len()
        invariant
            x@ == a.spec_bytes(),
            y@ == b.spec_bytes(),
            x@.len() == y@.len(),
            i <= x@.len(),
            forall|k: int| 0 <= k < i ==> x@[k] == y@[k],
        decreases x@.len() - i,
    {
        if x[i] != y[i] {
            return false;
        }
        i = i + 1;
    }
    proof {
        assert(x@ =~= y@);
        encode_utf8_decode_utf8(a@);
        encode_utf8_decode_utf8(b@);
    }
    true
}

/// The text of an optional string.
pub open spec fn opt_view(a: Option<&str>) -> Option<Seq<char>> {
    match a {
        Some(s) => Some(s@),
        None => None,
    }
}

/// Equality of two optional strings.
pub fn opt_str_eq(a: Option<&str>, b: Option<&str>) -> (r: bool)
    ensures
        r == (opt_view(a) == opt_view(b)),
{
    match (a, b) {
        (Some(x), Some(y)) => str_eq(x, y),
        (None, None) => true,
        _ => false,
    }
}

} // verus!
