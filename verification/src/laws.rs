//! What holds of the tokens of every text.
//!
//! The laws that speak of "the delimiter reinserted" are stated for the
//! delimiters that match one fixed pattern, as a character and a string do
//! (see [`matches_literally`]).

use vstd::prelude::*;
use crate::delimiter::{literal_match, Delimiter};
use crate::search::{
    is_first_occurrence, lemma_first_occurrence, lemma_first_occurrence_unique, occurs_at,
};
use crate::split::tokens;

verus! {

/// `parts` put together again, with `sep` between each two neighbours.
pub open spec fn join(parts: Seq<Seq<char>>, sep: Seq<char>) -> Seq<char>
    decreases parts.len(),
{
    if parts.len() == 0 {
        Seq::empty()
    } else if parts.len() == 1 {
        parts[0]
    } else {
        parts[0] + sep + join(parts.drop_first(), sep)
    }
}

/// `delimiter` matches the fixed pattern `pat` and nothing else: in every
/// text it finds the first place at which `pat` stands, and nothing where
/// `pat` is empty.
pub open spec fn matches_literally<D: Delimiter>(delimiter: D, pat: Seq<char>) -> bool {
    forall|hay: Seq<char>| (#[trigger] delimiter.first_match(hay)) == literal_match(hay, pat)
}

/// A character matches itself literally.
pub proof fn lemma_char_matches_literally(c: char)
    ensures
        matches_literally(c, seq![c]),
{
}

/// A string matches its own text literally.
pub proof fn lemma_str_matches_literally(s: &str)
    ensures
        matches_literally(s, s@),
{
}

/// `pat` overlaps itself: some beginning of it, neither empty nor the whole,
/// is also its end.
pub open spec fn overlaps_itself(pat: Seq<char>) -> bool {
    exists|l: int| 0 < l < pat.len() && #[trigger] pat.take(l) == pat.skip(pat.len() - l)
}

/// Every text has at least one token, and at most one more than it has
/// characters.
pub proof fn lemma_tokens_count<D: Delimiter>(delimiter: D, source: Seq<char>)
    ensures
        1 <= tokens(delimiter, source).len() <= source.len() + 1,
    decreases source.len(),
{
    delimiter.first_match_bounds(source);
    if let Some((start, end)) = delimiter.first_match(source) {
        lemma_tokens_count(delimiter, source.skip(end));
    }
}

/// Every token is a piece of the text: it stands in it, at the place that
/// is returned.
pub proof fn lemma_tokens_are_slices<D: Delimiter>(delimiter: D, source: Seq<char>, i: int) -> (at:
    int)
    requires
        0 <= i < tokens(delimiter, source).len(),
    ensures
        occurs_at(source, tokens(delimiter, source)[i], at),
    decreases source.len(),
{
    delimiter.first_match_bounds(source);
    let all = tokens(delimiter, source);
    match delimiter.first_match(source) {
        Some((start, end)) => {
            let rest = source.skip(end);
            if i == 0 {
                assert(all[0] == source.take(start));
                assert(source.subrange(0, start) =~= source.take(start));
                0
            } else {
                let token = tokens(delimiter, rest)[i - 1];
                assert(all[i] == token);
                let k = lemma_tokens_are_slices(delimiter, rest, i - 1);
                assert(source.subrange(end + k, end + k + token.len()) =~= rest.subrange(
                    k,
                    k + token.len(),
                ));
                end + k
            }
        },
        None => {
            assert(all[0] == source);
            assert(source.subrange(0, source.len() as int) =~= source);
            0
        },
    }
}

/// A text in which the delimiter does not occur is one token: the text
/// itself. So is every text when the delimiter is empty.
pub proof fn law_absent_delimiter<D: Delimiter>(delimiter: D, pat: Seq<char>, source: Seq<char>)
    requires
        matches_literally(delimiter, pat),
        pat.len() > 0 ==> forall|k: int| !occurs_at(source, pat, k),
    ensures
        tokens(delimiter, source) == seq![source],
{
    lemma_first_occurrence(source, pat);
}

/// The tokens of a text, joined by the delimiter, are the text again.
pub proof fn law_round_trip<D: Delimiter>(delimiter: D, pat: Seq<char>, source: Seq<char>)
    requires
        matches_literally(delimiter, pat),
    ensures
        join(tokens(delimiter, source), pat) == source,
    decreases source.len(),
{
    delimiter.first_match_bounds(source);
    if let Some((start, end)) = delimiter.first_match(source) {
        let rest = source.skip(end);
        let all = tokens(delimiter, source);
        lemma_first_occurrence(source, pat);
        lemma_tokens_count(delimiter, rest);
        law_round_trip(delimiter, pat, rest);
        assert(all.drop_first() =~= tokens(delimiter, rest));
        assert(source =~= source.take(start) + source.subrange(start, end) + rest);
    }
}

/// The last token of a text holds no occurrence of the delimiter.
pub proof fn lemma_last_token_is_free<D: Delimiter>(
    delimiter: D,
    pat: Seq<char>,
    source: Seq<char>,
)
    requires
        matches_literally(delimiter, pat),
        pat.len() > 0,
    ensures
        forall|k: int| !occurs_at(tokens(delimiter, source).last(), pat, k),
    decreases source.len(),
{
    delimiter.first_match_bounds(source);
    lemma_first_occurrence(source, pat);
    if let Some((start, end)) = delimiter.first_match(source) {
        let rest = source.skip(end);
        lemma_tokens_count(delimiter, rest);
        lemma_last_token_is_free(delimiter, pat, rest);
        assert(tokens(delimiter, source).last() == tokens(delimiter, rest).last());
    }
}

/// A text that ends with the delimiter ends with exactly one empty token
/// more than the text before that delimiter has, provided that the scan
/// reaches that delimiter: in the last token of the text before it, followed
/// by the delimiter, the delimiter stands at the end and nowhere earlier.
/// (A delimiter that overlaps itself can fail this: `"aaa"` cut at `"aa"` is
/// `""` and `"a"`.)
pub proof fn law_trailing_delimiter<D: Delimiter>(delimiter: D, pat: Seq<char>, body: Seq<char>)
    requires
        matches_literally(delimiter, pat),
        pat.len() > 0,
        is_first_occurrence(
            tokens(delimiter, body).last() + pat,
            pat,
            tokens(delimiter, body).last().len() as int,
        ),
    ensures
        tokens(delimiter, body + pat) == tokens(delimiter, body).push(Seq::empty()),
    decreases body.len(),
{
    let source = body + pat;
    let empty = Seq::<char>::empty();
    delimiter.first_match_bounds(body);
    lemma_first_occurrence(body, pat);
    match delimiter.first_match(body) {
        Some((start, end)) => {
            let rest = body.skip(end);
            assert(source.subrange(start, end) =~= body.subrange(start, end));
            assert(end == start + pat.len());
            assert(occurs_at(source, pat, start));
            assert forall|j: int| 0 <= j < start implies !occurs_at(source, pat, j) by {
                if occurs_at(source, pat, j) {
                    assert(source.subrange(j, j + pat.len()) =~= body.subrange(j, j + pat.len()));
                    assert(occurs_at(body, pat, j));
                }
            }
            lemma_first_occurrence_unique(source, pat, start);
            assert(delimiter.first_match(source) == Some((start, end)));
            assert(source.take(start) =~= body.take(start));
            assert(source.skip(end) =~= rest + pat);
            lemma_tokens_count(delimiter, rest);
            assert(tokens(delimiter, body).last() == tokens(delimiter, rest).last());
            law_trailing_delimiter(delimiter, pat, rest);
            assert(tokens(delimiter, source) =~= tokens(delimiter, body).push(empty));
        },
        None => {
            let end = (body.len() + pat.len()) as int;
            assert(tokens(delimiter, body).last() == body);
            lemma_first_occurrence_unique(source, pat, body.len() as int);
            assert(delimiter.first_match(source) == Some((body.len() as int, end)));
            assert(source.take(body.len() as int) =~= body);
            assert(source.skip(end) =~= empty);
            lemma_first_occurrence(empty, pat);
            assert(delimiter.first_match(empty) is None);
            assert(tokens(delimiter, empty) =~= seq![empty]);
            assert(tokens(delimiter, source) =~= tokens(delimiter, body).push(empty));
        },
    }
}

/// For a delimiter that does not overlap itself, as no single character
/// does, every text that ends with the delimiter ends with exactly one empty
/// token more than the text before that delimiter has.
pub proof fn law_trailing_delimiter_without_overlap<D: Delimiter>(
    delimiter: D,
    pat: Seq<char>,
    body: Seq<char>,
)
    requires
        matches_literally(delimiter, pat),
        pat.len() > 0,
        !overlaps_itself(pat),
    ensures
        tokens(delimiter, body + pat) == tokens(delimiter, body).push(Seq::empty()),
{
    let last = tokens(delimiter, body).last();
    let tail = last + pat;
    let m = pat.len() as int;
    lemma_last_token_is_free(delimiter, pat, body);
    assert(tail.subrange(last.len() as int, last.len() + m) =~= pat);
    assert forall|j: int| 0 <= j < last.len() implies !occurs_at(tail, pat, j) by {
        if occurs_at(tail, pat, j) {
            if j + m <= last.len() {
                assert(last.subrange(j, j + m) =~= tail.subrange(j, j + m));
                assert(occurs_at(last, pat, j));
            } else {
                let shift = last.len() - j;
                let l = m - shift;
                assert forall|i: int| 0 <= i < l implies pat.take(l)[i] == pat.skip(m - l)[i] by {
                    assert(tail.subrange(j, j + m)[shift + i] == tail[last.len() + i]);
                }
                assert(pat.take(l) =~= pat.skip(m - l));
            }
        }
    }
    law_trailing_delimiter(delimiter, pat, body);
}

} // verus!
