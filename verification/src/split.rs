//! The splitter: its state and the one step that produces the next token.

use vstd::prelude::*;
use vstd::string::StringSliceAdditionalSpecFns;
use crate::delimiter::Delimiter;
use crate::offsets::{lemma_byte_offset_split, lemma_encode_injective};
use crate::search::{lemma_first_occurrence, occurs_at};

verus! {

/// The tokens that `hay` falls into when it is cut at each occurrence of
/// `delimiter`, scanning from the left: what stands before the first
/// occurrence, then the tokens of what follows it. A text without an
/// occurrence is one token, also when it is empty.
pub open spec fn tokens<D: Delimiter>(delimiter: D, hay: Seq<char>) -> Seq<Seq<char>>
    decreases hay.len(),
    via tokens_terminates::<D>
{
    match delimiter.first_match(hay) {
        Some((start, end)) => seq![hay.take(start)] + tokens(delimiter, hay.skip(end)),
        None => seq![hay],
    }
}

#[via_fn]
proof fn tokens_terminates<D: Delimiter>(delimiter: D, hay: Seq<char>) {
    delimiter.first_match_bounds(hay);
}

/// The texts that the slices in `parts` hold.
pub open spec fn views(parts: Seq<&str>) -> Seq<Seq<char>> {
    Seq::new(parts.len(), |i: int| parts[i]@)
}

/// A splitter over the text `'hs`, cut at the occurrences of a delimiter `D`.
///
/// The remainder is the part of the text that has not been scanned yet. It
/// is `None` once the last token has been handed out, which is something
/// else than an empty remainder: an empty remainder still owes one empty
/// token.
#[derive(Debug)]
pub struct StrSplit<'hs, D> {
    remainder: Option<&'hs str>,
    delimiter: D,
}

impl<'hs, D> StrSplit<'hs, D> {
    /// The characters that are still to be scanned, or `None` when the
    /// splitter is exhausted.
    pub closed spec fn remainder(&self) -> Option<Seq<char>> {
        match self.remainder {
            Some(rest) => Some(rest@),
            None => None,
        }
    }

    /// The delimiter that the text is cut at.
    pub closed spec fn delimiter(&self) -> D {
        self.delimiter
    }

    /// A splitter that has all of `haystack` before it.
    pub fn new(haystack: &'hs str, delimiter: D) -> (splitter: Self)
        ensures
            splitter.remainder() == Some(haystack@),
            splitter.delimiter() == delimiter,
    {
        Self { remainder: Some(haystack), delimiter }
    }
}

impl<'hs, D: Delimiter> StrSplit<'hs, D> {
    /// The tokens that are still to come, in the order in which
    /// [`next`](StrSplit::next) hands them out.
    pub open spec fn pending(&self) -> Seq<Seq<char>> {
        match self.remainder() {
            Some(rest) => tokens(self.delimiter(), rest),
            None => Seq::empty(),
        }
    }

    /// Hands out the next token, or `None` when all have been handed out.
    ///
    /// Where the delimiter occurs in the remainder, the token is what stands
    /// before its first occurrence, and the remainder becomes what follows
    /// it. Where it does not occur, the token is the whole remainder, empty
    /// or not, and the splitter is exhausted. An exhausted splitter stays as
    /// it is.
    pub fn next(&mut self) -> (token: Option<&'hs str>)
        ensures
            final(self).delimiter() == old(self).delimiter(),
            match old(self).remainder() {
                None => token is None && *final(self) == *old(self),
                Some(rest) => match old(self).delimiter().first_match(rest) {
                    Some((start, end)) => {
                        &&& token matches Some(t) && t@ == rest.take(start)
                        &&& final(self).remainder() == Some(rest.skip(end))
                    },
                    None => {
                        &&& token matches Some(t) && t@ == rest
                        &&& final(self).remainder() is None
                    },
                },
            },
            match token {
                Some(t) => {
                    &&& old(self).pending().len() > 0
                    &&& t@ == old(self).pending().first()
                    &&& final(self).pending() == old(self).pending().drop_first()
                },
                None => old(self).pending().len() == 0,
            },
    {
        let rest = match self.remainder {
            Some(rest) => rest,
            None => {
                return None;
            },
        };
        proof {
            self.delimiter.first_match_bounds(rest@);
        }
        if let Some((from, to)) = self.delimiter.find_next(rest) {
            let ghost (start, end) = self.delimiter.first_match(rest@).unwrap();
            proof {
                lemma_byte_offset_split(rest@, start);
                lemma_byte_offset_split(rest@, end);
            }
            let (token, _) = rest.split_at(from);
            let (_, after) = rest.split_at(to);
            proof {
                lemma_encode_injective(token@, rest@.take(start));
                lemma_encode_injective(after@, rest@.skip(end));
                let ghost all = tokens(self.delimiter, rest@);
                assert(all.drop_first() =~= tokens(self.delimiter, rest@.skip(end)));
            }
            self.remainder = Some(after);
            Some(token)
        } else {
            proof {
                let ghost all = tokens(self.delimiter, rest@);
                assert(all.drop_first() =~= Seq::<Seq<char>>::empty());
            }
            self.remainder.take()
        }
    }

    /// Hands out all the tokens that are still to come.
    pub fn collect(self) -> (all: Vec<&'hs str>)
        ensures
            views(all@) == self.pending(),
    {
        let ghost owed = self.pending();
        let mut splitter = self;
        let mut all: Vec<&'hs str> = Vec::new();
        loop
            invariant
                views(all@) + splitter.pending() == owed,
            ensures
                views(all@) == owed,
            decreases splitter.pending().len(),
        {
            let ghost before = views(all@);
            match splitter.next() {
                Some(token) => {
                    all.push(token);
                    assert(views(all@) =~= before.push(token@));
                    assert(views(all@) + splitter.pending() =~= owed);
                },
                None => {
                    assert(views(all@) + splitter.pending() =~= views(all@));
                    break ;
                },
            }
        }
        all
    }
}

/// The part of `s` that stands before the first `c`, or all of `s` where
/// there is no `c` in it.
pub fn until_char(s: &str, c: char) -> (prefix: &str)
    ensures
        prefix@.is_prefix_of(s@),
        !prefix@.contains(c),
        prefix@.len() < s@.len() ==> s@[prefix@.len() as int] == c,
        prefix@ == tokens(c, s@).first(),
{
    let mut splitter = StrSplit::new(s, c);
    let first = splitter.next();
    proof {
        let pat = seq![c];
        lemma_first_occurrence(s@, pat);
        assert forall|j: int| 0 <= j < s@.len() implies (s@[j] == c <==> occurs_at(s@, pat, j)) by {
            if s@[j] == c {
                assert(s@.subrange(j, j + 1) =~= pat);
            } else {
                assert(s@.subrange(j, j + 1)[0] != pat[0]);
            }
        }
        assert(first is Some);
    }
    first.expect("a splitter hands out at least one token")
}

} // verus!
