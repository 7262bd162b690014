//! Character positions and the byte offsets that they have in UTF-8.
//!
//! A `&str` is seen by its callers as a sequence of characters, and by the
//! machine as the UTF-8 encoding of that sequence. This module relates a
//! position counted in characters to the offset of the same place counted in
//! bytes, and shows that such offsets are exactly the character boundaries.

use vstd::prelude::*;
use vstd::utf8::*;

verus! {

/// The number of bytes that the first `k` characters of `chars` take in
/// UTF-8, which is the byte offset at which character `k` begins.
pub open spec fn byte_offset(chars: Seq<char>, k: int) -> int {
    encode_utf8(chars.take(k)).len() as int
}

/// Encoding distributes over concatenation.
pub proof fn lemma_encode_concat(a: Seq<char>, b: Seq<char>)
    ensures
        encode_utf8(a + b) == encode_utf8(a) + encode_utf8(b),
    decreases a.len(),
{
    if a.len() == 0 {
        assert(a + b =~= b);
        assert(encode_utf8(a) + encode_utf8(b) =~= encode_utf8(b));
    } else {
        assert((a + b).drop_first() =~= a.drop_first() + b);
        lemma_encode_concat(a.drop_first(), b);
        assert(encode_utf8(a + b) =~= encode_utf8(a) + encode_utf8(b));
    }
}

/// Every character takes at least one byte.
pub proof fn lemma_encode_len(a: Seq<char>)
    ensures
        encode_utf8(a).len() >= a.len(),
    decreases a.len(),
{
    if a.len() > 0 {
        lemma_encode_len(a.drop_first());
    }
}

/// Two character sequences with the same encoding are the same.
pub proof fn lemma_encode_injective(a: Seq<char>, b: Seq<char>)
    requires
        encode_utf8(a) == encode_utf8(b),
    ensures
        a == b,
{
    encode_utf8_decode_utf8(a);
    encode_utf8_decode_utf8(b);
}

/// The byte offset of a character position cuts the encoding into the
/// encodings of the two parts, and is a character boundary.
pub proof fn lemma_byte_offset_split(chars: Seq<char>, k: int)
    requires
        0 <= k <= chars.len(),
    ensures
        0 <= byte_offset(chars, k) <= encode_utf8(chars).len(),
        encode_utf8(chars).subrange(0, byte_offset(chars, k)) == encode_utf8(chars.take(k)),
        encode_utf8(chars).subrange(byte_offset(chars, k), encode_utf8(chars).len() as int)
            == encode_utf8(chars.skip(k)),
        is_char_boundary(encode_utf8(chars), byte_offset(chars, k)),
{
    let bytes = encode_utf8(chars);
    let head = encode_utf8(chars.take(k));
    let tail = encode_utf8(chars.skip(k));
    let at = byte_offset(chars, k);
    assert(chars =~= chars.take(k) + chars.skip(k));
    lemma_encode_concat(chars.take(k), chars.skip(k));
    assert(bytes == head + tail);
    assert(bytes.subrange(0, at) =~= head);
    assert(bytes.subrange(at, bytes.len() as int) =~= tail);
    encode_utf8_valid_utf8(chars);
    if k == chars.len() {
        lemma_encode_len(chars.skip(k));
        assert(chars.skip(k).len() == 0);
        assert(tail.len() == 0);
        is_char_boundary_start_end_of_seq(bytes);
    } else {
        encode_utf8_valid_utf8(chars.skip(k));
        lemma_encode_len(chars.skip(k));
        assert(tail.len() > 0);
        assert(is_char_boundary(tail, 0));
        is_char_boundary_iff_not_is_continuation_byte(tail, 0);
        assert(bytes[at] == tail[0]);
        is_char_boundary_iff_not_is_continuation_byte(bytes, at);
    }
}

/// Byte offsets grow with the character position, by at least one byte for
/// each character.
pub proof fn lemma_byte_offset_monotone(chars: Seq<char>, j: int, k: int)
    requires
        0 <= j <= k <= chars.len(),
    ensures
        byte_offset(chars, j) + (k - j) <= byte_offset(chars, k),
{
    assert(chars.take(k) =~= chars.take(j) + chars.subrange(j, k));
    lemma_encode_concat(chars.take(j), chars.subrange(j, k));
    lemma_encode_len(chars.subrange(j, k));
}

/// Every character boundary of the encoding is the byte offset of a
/// character position.
pub proof fn lemma_boundary_is_byte_offset(chars: Seq<char>, at: int) -> (k: int)
    requires
        is_char_boundary(encode_utf8(chars), at),
    ensures
        0 <= k <= chars.len(),
        byte_offset(chars, k) == at,
{
    let bytes = encode_utf8(chars);
    encode_utf8_valid_utf8(chars);
    assert(0 <= at <= bytes.len());
    let head = bytes.subrange(0, at);
    let tail = bytes.subrange(at, bytes.len() as int);
    valid_utf8_split(bytes, at);
    decode_utf8_split(bytes, at);
    encode_utf8_decode_utf8(chars);
    let k = decode_utf8(head).len() as int;
    assert(chars =~= decode_utf8(head) + decode_utf8(tail));
    assert(chars.take(k) =~= decode_utf8(head));
    decode_utf8_encode_utf8(head);
    k
}

} // verus!
