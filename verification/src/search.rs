//! Occurrences of a pattern in a text, and the search for the first one.
//!
//! The search itself runs on bytes. What it finds is carried over to
//! characters: in valid UTF-8 an encoded pattern can only occur where the
//! pattern's characters occur, so the first occurrence among the bytes lies
//! at the byte offset of the first occurrence among the characters.

use vstd::prelude::*;
use vstd::utf8::*;
use crate::offsets::{
    byte_offset, lemma_boundary_is_byte_offset, lemma_byte_offset_monotone,
    lemma_byte_offset_split, lemma_encode_concat, lemma_encode_injective, lemma_encode_len,
};

verus! {

/// `pat` stands in `hay` at position `k`.
pub open spec fn occurs_at<T>(hay: Seq<T>, pat: Seq<T>, k: int) -> bool {
    &&& 0 <= k
    &&& k + pat.len() <= hay.len()
    &&& hay.subrange(k, k + pat.len()) == pat
}

/// `pat` stands in `hay` at position `k`, and nowhere before it.
pub open spec fn is_first_occurrence<T>(hay: Seq<T>, pat: Seq<T>, k: int) -> bool {
    &&& occurs_at(hay, pat, k)
    &&& forall|j: int| 0 <= j < k ==> !occurs_at(hay, pat, j)
}

/// The first position at which `pat` stands in `hay`, if there is one.
pub open spec fn first_occurrence<T>(hay: Seq<T>, pat: Seq<T>) -> Option<int> {
    if exists|k: int| occurs_at(hay, pat, k) {
        Some(choose|k: int| is_first_occurrence(hay, pat, k))
    } else {
        None
    }
}

/// Below any occurrence there is a first one.
proof fn lemma_least_occurrence<T>(hay: Seq<T>, pat: Seq<T>, k: int) -> (least: int)
    requires
        occurs_at(hay, pat, k),
    ensures
        is_first_occurrence(hay, pat, least),
        least <= k,
    decreases k,
{
    if exists|j: int| 0 <= j < k && occurs_at(hay, pat, j) {
        let j = choose|j: int| 0 <= j < k && occurs_at(hay, pat, j);
        lemma_least_occurrence(hay, pat, j)
    } else {
        k
    }
}

/// [`first_occurrence`] is the first occurrence where the pattern occurs,
/// and `None` exactly where it does not occur.
pub proof fn lemma_first_occurrence<T>(hay: Seq<T>, pat: Seq<T>)
    ensures
        match first_occurrence(hay, pat) {
            Some(k) => is_first_occurrence(hay, pat, k),
            None => forall|k: int| !occurs_at(hay, pat, k),
        },
{
    if exists|k: int| occurs_at(hay, pat, k) {
        let k = choose|k: int| occurs_at(hay, pat, k);
        let least = lemma_least_occurrence(hay, pat, k);
    }
}

/// There is only one first occurrence.
pub proof fn lemma_first_occurrence_unique<T>(hay: Seq<T>, pat: Seq<T>, k: int)
    requires
        is_first_occurrence(hay, pat, k),
    ensures
        first_occurrence(hay, pat) == Some(k),
{
    lemma_first_occurrence(hay, pat);
}

/// Whether `pat` stands in `hay` at `at`.
fn matches_at(hay: &[u8], pat: &[u8], at: usize) -> (same: bool)
    requires
        at + pat@.len() <= hay@.len(),
    ensures
        same == occurs_at(hay@, pat@, at as int),
{
    let m = pat.len();
    let mut j: usize = 0;
    while j < m
        invariant
            j <= m,
            m == pat@.len(),
            at + m <= hay.len(),
            forall|l: int| 0 <= l < j ==> hay@[at + l] == pat@[l],
        decreases m - j,
    {
        if hay[at + j] != pat[j] {
            assert(hay@.subrange(at as int, at + m)[j as int] != pat@[j as int]);
            return false;
        }
        j += 1;
    }
    assert(hay@.subrange(at as int, at + m) =~= pat@);
    true
}

/// The first place at which the bytes `pat` stand in `hay`.
pub(crate) fn find_bytes(hay: &[u8], pat: &[u8]) -> (found: Option<usize>)
    ensures
        match found {
            Some(at) => is_first_occurrence(hay@, pat@, at as int),
            None => forall|k: int| !occurs_at(hay@, pat@, k),
        },
{
    let n = hay.len();
    let m = pat.len();
    if m > n {
        return None;
    }
    let last = n - m;
    let mut at: usize = 0;
    loop
        invariant
            at <= last,
            n == hay@.len(),
            m == pat@.len(),
            last == n - m,
            forall|k: int| 0 <= k < at ==> !occurs_at(hay@, pat@, k),
        decreases last - at,
    {
        if matches_at(hay, pat, at) {
            return Some(at);
        }
        if at == last {
            return None;
        }
        at += 1;
    }
}

/// A valid text that begins with a valid text has a character boundary where
/// the latter ends.
proof fn lemma_prefix_ends_on_boundary(text: Seq<u8>, prefix: Seq<u8>)
    requires
        valid_utf8(text),
        valid_utf8(prefix),
        occurs_at(text, prefix, 0),
    ensures
        is_char_boundary(text, prefix.len() as int),
    decreases prefix.len(),
{
    if prefix.len() > 0 {
        let width = length_of_first_scalar(prefix);
        assert(text.subrange(0, prefix.len() as int)[0] == text[0]);
        assert(forall|i: int|
            0 <= i < prefix.len() ==> text.subrange(0, prefix.len() as int)[i] == text[i]);
        assert(length_of_first_scalar(text) == width);
        assert(width <= prefix.len());
        let text_rest = pop_first_scalar(text);
        let prefix_rest = pop_first_scalar(prefix);
        assert(text_rest.subrange(0, prefix_rest.len() as int) =~= prefix_rest);
        lemma_prefix_ends_on_boundary(text_rest, prefix_rest);
    }
}

/// In valid UTF-8 a valid pattern that is not empty begins and ends on
/// character boundaries of the text, wherever it occurs.
pub proof fn lemma_occurrence_on_boundaries(hay: Seq<u8>, pat: Seq<u8>, at: int)
    requires
        valid_utf8(hay),
        valid_utf8(pat),
        pat.len() > 0,
        occurs_at(hay, pat, at),
    ensures
        is_char_boundary(hay, at),
        is_char_boundary(hay, at + pat.len()),
{
    let end = at + pat.len();
    assert(forall|i: int| 0 <= i < pat.len() ==> hay.subrange(at, end)[i] == hay[at + i]);
    assert(is_char_boundary(pat, 0));
    is_char_boundary_iff_not_is_continuation_byte(pat, 0);
    assert(hay[at] == pat[0]);
    is_char_boundary_iff_not_is_continuation_byte(hay, at);
    valid_utf8_split(hay, at);
    let tail = hay.subrange(at, hay.len() as int);
    assert(tail.subrange(0, pat.len() as int) =~= pat);
    lemma_prefix_ends_on_boundary(tail, pat);
    if end == hay.len() {
        is_char_boundary_start_end_of_seq(hay);
    } else {
        is_char_boundary_iff_not_is_continuation_byte(tail, pat.len() as int);
        assert(tail[pat.len() as int] == hay[end]);
        is_char_boundary_iff_not_is_continuation_byte(hay, end);
    }
}

/// Where the characters `pat` occur in `hay`, their encoding occurs in the
/// encoding of `hay`, at the byte offset of that place.
pub proof fn lemma_occurrence_to_bytes(hay: Seq<char>, pat: Seq<char>, k: int)
    requires
        occurs_at(hay, pat, k),
    ensures
        occurs_at(encode_utf8(hay), encode_utf8(pat), byte_offset(hay, k)),
        byte_offset(hay, k + pat.len()) == byte_offset(hay, k) + encode_utf8(pat).len(),
{
    let end = k + pat.len();
    assert(hay.take(end) =~= hay.take(k) + pat);
    lemma_encode_concat(hay.take(k), pat);
    lemma_byte_offset_split(hay, end);
    let head = encode_utf8(hay).subrange(0, byte_offset(hay, end));
    let found = encode_utf8(hay).subrange(byte_offset(hay, k), byte_offset(hay, end));
    assert(head == encode_utf8(hay.take(k)) + encode_utf8(pat));
    assert forall|i: int| 0 <= i < found.len() implies found[i] == encode_utf8(pat)[i] by {
        assert(found[i] == head[byte_offset(hay, k) + i]);
    }
    assert(found =~= encode_utf8(pat));
}

/// Where the encoding of `pat` occurs in the encoding of `hay`, it does so
/// at the byte offset of a place at which the characters `pat` occur.
pub proof fn lemma_occurrence_from_bytes(hay: Seq<char>, pat: Seq<char>, at: int) -> (k: int)
    requires
        pat.len() > 0,
        occurs_at(encode_utf8(hay), encode_utf8(pat), at),
    ensures
        occurs_at(hay, pat, k),
        byte_offset(hay, k) == at,
{
    let bytes = encode_utf8(hay);
    let width = encode_utf8(pat).len() as int;
    lemma_encode_len(pat);
    encode_utf8_valid_utf8(hay);
    encode_utf8_valid_utf8(pat);
    lemma_occurrence_on_boundaries(bytes, encode_utf8(pat), at);
    let k = lemma_boundary_is_byte_offset(hay, at);
    let end = lemma_boundary_is_byte_offset(hay, at + width);
    if end <= k {
        lemma_byte_offset_monotone(hay, end, k);
    }
    let mid = hay.subrange(k, end);
    assert(hay.take(end) =~= hay.take(k) + mid);
    lemma_encode_concat(hay.take(k), mid);
    lemma_byte_offset_split(hay, end);
    let head = bytes.subrange(0, at + width);
    let found = bytes.subrange(at, at + width);
    assert(head == encode_utf8(hay.take(k)) + encode_utf8(mid));
    assert forall|i: int| 0 <= i < found.len() implies found[i] == encode_utf8(mid)[i] by {
        assert(found[i] == head[at + i]);
    }
    assert(encode_utf8(mid) =~= found);
    lemma_encode_injective(mid, pat);
    k
}

/// The first occurrence among the characters and the first occurrence among
/// the bytes are the same place.
pub proof fn lemma_first_occurrence_in_bytes(hay: Seq<char>, pat: Seq<char>)
    requires
        pat.len() > 0,
    ensures
        match first_occurrence(hay, pat) {
            Some(k) => {
                &&& is_first_occurrence(encode_utf8(hay), encode_utf8(pat), byte_offset(hay, k))
                &&& byte_offset(hay, k + pat.len()) == byte_offset(hay, k) + encode_utf8(
                    pat,
                ).len()
            },
            None => forall|at: int| !occurs_at(encode_utf8(hay), encode_utf8(pat), at),
        },
{
    lemma_first_occurrence(hay, pat);
    assert forall|at: int| occurs_at(encode_utf8(hay), encode_utf8(pat), at) implies (
    first_occurrence(hay, pat) matches Some(k) && byte_offset(hay, k) <= at) by {
        let j = lemma_occurrence_from_bytes(hay, pat, at);
        let k = first_occurrence(hay, pat).unwrap();
        lemma_byte_offset_monotone(hay, k, j);
    }
    if let Some(k) = first_occurrence(hay, pat) {
        lemma_occurrence_to_bytes(hay, pat, k);
    }
}

} // verus!
