//! What a text can be cut at: the capability to find one's next occurrence.

use vstd::prelude::*;
use vstd::slice::slice_subrange;
use vstd::utf8::*;
use crate::offsets::{byte_offset, lemma_encode_len};
use crate::search::{
    find_bytes, first_occurrence, lemma_first_occurrence, lemma_first_occurrence_in_bytes,
};

verus! {

/// Something that can be looked for in a text.
///
/// An implementation says in [`first_match`](Delimiter::first_match), over
/// the characters of a text, where its first occurrence lies, and finds that
/// place in [`find_next`](Delimiter::find_next). The splitter asks for
/// nothing else, so any pattern that can answer this may serve as a
/// delimiter.
pub trait Delimiter {
    /// The first occurrence of the delimiter in `hay`, as the half-open
    /// range of character positions that it covers; `None` where there is
    /// no occurrence.
    spec fn first_match(&self, hay: Seq<char>) -> Option<(int, int)>;

    /// An occurrence lies within the text and is not empty.
    proof fn first_match_bounds(&self, hay: Seq<char>)
        ensures
            self.first_match(hay) matches Some((start, end)) ==> 0 <= start < end <= hay.len(),
    ;

    /// Finds the first occurrence of the delimiter in `s` and returns the
    /// byte offsets at which it starts and ends.
    fn find_next(&self, s: &str) -> (found: Option<(usize, usize)>)
        ensures
            match self.first_match(s@) {
                Some((start, end)) => found matches Some((from, to)) && from == byte_offset(
                    s@,
                    start,
                ) && to == byte_offset(s@, end),
                None => found is None,
            },
    ;
}

/// The first occurrence of the fixed pattern `pat` in `hay`.
///
/// The empty pattern never matches: a text cut at it is one token.
pub open spec fn literal_match(hay: Seq<char>, pat: Seq<char>) -> Option<(int, int)> {
    if pat.len() == 0 {
        None
    } else {
        match first_occurrence(hay, pat) {
            Some(k) => Some((k, k + pat.len())),
            None => None,
        }
    }
}

/// An occurrence of a fixed pattern lies within the text and is not empty.
pub proof fn lemma_literal_match_bounds(hay: Seq<char>, pat: Seq<char>)
    ensures
        literal_match(hay, pat) matches Some((start, end)) ==> 0 <= start < end <= hay.len(),
{
    lemma_first_occurrence(hay, pat);
}

/// The first occurrence of the pattern that `pat` encodes in `s`, as byte
/// offsets.
fn find_literal(s: &str, pat: &[u8]) -> (found: Option<(usize, usize)>)
    requires
        valid_utf8(pat@),
    ensures
        match literal_match(s@, decode_utf8(pat@)) {
            Some((start, end)) => found matches Some((from, to)) && from == byte_offset(s@, start)
                && to == byte_offset(s@, end),
            None => found is None,
        },
{
    let ghost chars = decode_utf8(pat@);
    proof {
        decode_utf8_encode_utf8(pat@);
    }
    if pat.len() == 0 {
        proof {
            lemma_encode_len(chars);
        }
        return None;
    }
    proof {
        lemma_first_occurrence_in_bytes(s@, chars);
    }
    let hay = s.as_bytes();
    match find_bytes(hay, pat) {
        Some(at) => {
            assert(at + pat.len() <= hay.len());
            Some((at, at + pat.len()))
        },
        None => None,
    }
}

/// The UTF-8 encoding of `c`: the bytes, and how many of them count.
fn encode_char(c: char) -> (encoded: ([u8; 4], usize))
    ensures
        1 <= encoded.1 <= 4,
        encoded.0@.take(encoded.1 as int) == encode_scalar(c as u32),
{
    let scalar = c as u32;
    proof {
        char_is_scalar(c);
    }
    if scalar <= 0x7F {
        let b0 = (scalar & 0x7F) as u8;
        let bytes = [b0, 0, 0, 0];
        assert(bytes@.take(1) =~= seq![b0]);
        (bytes, 1)
    } else if scalar <= 0x7FF {
        let b0 = 0xC0 | ((scalar >> 6) & 0x1F) as u8;
        let b1 = 0x80 | (scalar & 0x3F) as u8;
        let bytes = [b0, b1, 0, 0];
        assert(bytes@.take(2) =~= seq![b0, b1]);
        (bytes, 2)
    } else if scalar <= 0xFFFF {
        let b0 = 0xE0 | ((scalar >> 12) & 0x0F) as u8;
        let b1 = 0x80 | ((scalar >> 6) & 0x3F) as u8;
        let b2 = 0x80 | (scalar & 0x3F) as u8;
        let bytes = [b0, b1, b2, 0];
        assert(bytes@.take(3) =~= seq![b0, b1, b2]);
        (bytes, 3)
    } else {
        let b0 = 0xF0 | ((scalar >> 18) & 0x7) as u8;
        let b1 = 0x80 | ((scalar >> 12) & 0x3F) as u8;
        let b2 = 0x80 | ((scalar >> 6) & 0x3F) as u8;
        let b3 = 0x80 | (scalar & 0x3F) as u8;
        let bytes = [b0, b1, b2, b3];
        assert(bytes@.take(4) =~= seq![b0, b1, b2, b3]);
        (bytes, 4)
    }
}

/// A single character is found where it first stands in the text; its range
/// is one character long.
impl Delimiter for char {
    open spec fn first_match(&self, hay: Seq<char>) -> Option<(int, int)> {
        literal_match(hay, seq![*self])
    }

    proof fn first_match_bounds(&self, hay: Seq<char>) {
        lemma_literal_match_bounds(hay, seq![*self]);
    }

    fn find_next(&self, s: &str) -> (found: Option<(usize, usize)>) {
        let c = *self;
        let (bytes, width) = encode_char(c);
        let pat = slice_subrange(bytes.as_slice(), 0, width);
        proof {
            assert(seq![c].drop_first() =~= Seq::<char>::empty());
            assert(encode_utf8(Seq::<char>::empty()).len() == 0);
            assert(encode_utf8(seq![c]) =~= encode_scalar(c as u32));
            encode_utf8_valid_utf8(seq![c]);
            encode_utf8_decode_utf8(seq![c]);
        }
        find_literal(s, pat)
    }
}

/// A string is found where it first stands in the text as a whole; its range
/// is as long as the string. The empty string is found nowhere.
impl Delimiter for &str {
    open spec fn first_match(&self, hay: Seq<char>) -> Option<(int, int)> {
        literal_match(hay, self@)
    }

    proof fn first_match_bounds(&self, hay: Seq<char>) {
        lemma_literal_match_bounds(hay, self@);
    }

    fn find_next(&self, s: &str) -> (found: Option<(usize, usize)>) {
        proof {
            encode_utf8_valid_utf8(self@);
            encode_utf8_decode_utf8(self@);
        }
        find_literal(s, self.as_bytes())
    }
}

} // verus!
