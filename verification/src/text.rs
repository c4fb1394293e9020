//! Texts as bytes: lengths and slices by the offsets of the UTF-8 form.

use vstd::prelude::*;
use vstd::string::*;
use vstd::utf8::*;

verus! {

/// The number of bytes in the UTF-8 form of a text.
pub open spec fn byte_len(text: Seq<char>) -> nat {
    encode_utf8(text).len()
}

/// The part of a text between two byte offsets of its UTF-8 form.
pub open spec fn byte_slice(text: Seq<char>, from: int, to: int) -> Seq<char> {
    decode_utf8(encode_utf8(text).subrange(from, to))
}

/// Whether `from..to` is a range of the bytes of `text` that cuts no character.
pub open spec fn is_range_of(text: Seq<char>, from: int, to: int) -> bool {
    &&& 0 <= from <= to <= byte_len(text)
    &&& is_char_boundary(encode_utf8(text), from)
    &&& is_char_boundary(encode_utf8(text), to)
}

/// The texts of a sequence of strings.
pub open spec fn texts(v: Seq<String>) -> Seq<Seq<char>> {
    v.map_values(|s: String| s@)
}

/// The texts of a sequence of string slices.
pub open spec fn strs(v: Seq<&str>) -> Seq<Seq<char>> {
    v.map_values(|s: &str| s@)
}

/// In valid UTF-8 the byte after a one-byte character starts a character.
pub proof fn lemma_boundary_after_ascii(bytes: Seq<u8>, i: int)
    requires
        valid_utf8(bytes),
        0 <= i < bytes.len(),
        bytes[i] < 0x80,
    ensures
        is_char_boundary(bytes, i + 1),
    decreases bytes.len(),
{
    reveal_with_fuel(is_char_boundary, 2);
    if i < length_of_first_scalar(bytes) {
        assert(i == 0);
    } else {
        lemma_boundary_after_ascii(pop_first_scalar(bytes), i - length_of_first_scalar(bytes));
    }
}

/// The bytes of a slice are the bytes between its two offsets.
pub proof fn lemma_slice_bytes(text: Seq<char>, from: int, to: int)
    requires
        is_range_of(text, from, to),
    ensures
        encode_utf8(byte_slice(text, from, to)) == encode_utf8(text).subrange(from, to),
        byte_len(byte_slice(text, from, to)) == to - from,
{
    let bytes = encode_utf8(text);
    encode_utf8_valid_utf8(text);
    valid_utf8_split(bytes, from);
    let tail = bytes.subrange(from, bytes.len() as int);
    if to == bytes.len() {
        is_char_boundary_start_end_of_seq(tail);
    } else {
        is_char_boundary_iff_not_is_continuation_byte(bytes, to);
        is_char_boundary_iff_not_is_continuation_byte(tail, to - from);
    }
    valid_utf8_split(tail, to - from);
    assert(tail.subrange(0, to - from) =~= bytes.subrange(from, to));
    decode_utf8_encode_utf8(bytes.subrange(from, to));
}

/// The part of `text` between the byte offsets `from` and `to`, where these
/// are a range of its bytes that cuts no character.
pub fn slice<'a>(text: &'a str, from: usize, to: usize) -> (r: Option<&'a str>)
    ensures
        r is Some <==> is_range_of(text@, from as int, to as int),
        r matches Some(part) ==> part@ == byte_slice(text@, from as int, to as int),
{
    let n = text.as_bytes().len();
    if from <= to && to <= n && text.is_char_boundary(from) && text.is_char_boundary(to) {
        let (_, tail) = text.split_at(from);
        proof {
            let bytes = encode_utf8(text@);
            encode_utf8_valid_utf8(text@);
            encode_utf8_valid_utf8(tail@);
            if to == n {
                is_char_boundary_start_end_of_seq(encode_utf8(tail@));
            } else {
                is_char_boundary_iff_not_is_continuation_byte(bytes, to as int);
                is_char_boundary_iff_not_is_continuation_byte(encode_utf8(tail@), to - from);
            }
        }
        let (part, _) = tail.split_at(to - from);
        proof {
            assert(encode_utf8(part@) =~= encode_utf8(text@).subrange(from as int, to as int));
            encode_utf8_decode_utf8(part@);
        }
        Some(part)
    } else {
        None
    }
}

/// A text has no more characters than bytes.
pub proof fn lemma_chars_le_bytes(s: Seq<char>)
    ensures
        s.len() <= byte_len(s),
    decreases s.len(),
{
    if s.len() > 0 {
        lemma_chars_le_bytes(s.drop_first());
    }
}

/// The bytes of two texts put together are the bytes of the first and then
/// those of the second.
pub proof fn lemma_bytes_of_concat(a: Seq<char>, b: Seq<char>)
    ensures
        encode_utf8(a + b) == encode_utf8(a) + encode_utf8(b),
    decreases a.len(),
{
    if a.len() == 0 {
        assert(a + b =~= b);
        assert(encode_utf8(a) + encode_utf8(b) =~= encode_utf8(b));
    } else {
        lemma_bytes_of_concat(a.drop_first(), b);
        assert((a + b).drop_first() =~= a.drop_first() + b);
        assert(encode_utf8(a + b) =~= encode_utf8(a) + encode_utf8(b));
    }
}

/// A part of a text has no more bytes than the text.
pub proof fn lemma_part_bytes(s: Seq<char>, from: int, to: int)
    requires
        0 <= from <= to <= s.len(),
    ensures
        byte_len(s.subrange(from, to)) <= byte_len(s),
{
    let head = s.subrange(0, from);
    let part = s.subrange(from, to);
    let tail = s.subrange(to, s.len() as int);
    assert(s =~= head + (part + tail));
    lemma_bytes_of_concat(part, tail);
    lemma_bytes_of_concat(head, part + tail);
}

} // verus!
