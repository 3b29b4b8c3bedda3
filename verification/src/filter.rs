//! The filters that a query puts on the words it finds.
use crate::pattern::{pattern_matches, Pattern};
use crate::text::char_count;
use vstd::prelude::*;

verus! {

/// The least length of the words of a result, where the caller names none.
pub const DEFAULT_MIN_LENGTH: usize = 3;

/// The filters of a query: the length that a word must have, if any; the least length
/// that it may have; the characters of the pattern that must match it, if any. Lengths
/// are counted in characters.
pub struct Filters {
    pub length: Option<usize>,
    pub min_length: usize,
    pub mtch: Option<Seq<char>>,
}

/// The filters that the arguments of a query stand for.
pub open spec fn filters(
    length: Option<usize>,
    min_length: usize,
    mtch: Option<&Pattern>,
) -> Filters {
    Filters {
        length,
        min_length,
        mtch: match mtch {
            Some(p) => Some(p@),
            None => None,
        },
    }
}

/// Whether a word passes the filters: it has at least as many characters as the least
/// length; where a length is given, it has exactly so many; where a pattern is given,
/// the pattern matches it.
pub open spec fn keeps(word: Seq<char>, f: Filters) -> bool {
    &&& word.len() >= f.min_length
    &&& (f.length matches Some(n) ==> word.len() == n)
    &&& (f.mtch matches Some(p) ==> pattern_matches(p, word))
}

/// The words that pass the filters, in their order.
pub open spec fn kept(words: Seq<Seq<char>>, f: Filters) -> Seq<Seq<char>>
    decreases words.len(),
{
    if words.len() == 0 {
        Seq::empty()
    } else if keeps(words.last(), f) {
        kept(words.drop_last(), f).push(words.last())
    } else {
        kept(words.drop_last(), f)
    }
}

/// Every word among the kept ones passes the filters.
pub proof fn lemma_kept_keeps(words: Seq<Seq<char>>, f: Filters)
    ensures
        forall|i: int| 0 <= i < kept(words, f).len() ==> keeps(#[trigger] kept(words, f)[i], f),
    decreases words.len(),
{
    if words.len() > 0 {
        lemma_kept_keeps(words.drop_last(), f);
        let all = kept(words, f);
        let rest = kept(words.drop_last(), f);
        assert forall|i: int| 0 <= i < all.len() implies keeps(#[trigger] all[i], f) by {
            if i < rest.len() {
                assert(all[i] == rest[i]);
            }
        }
    }
}

/// Whether `word` passes the filters.
pub fn keeps_word(
    word: &str,
    length: Option<usize>,
    min_length: usize,
    mtch: Option<&Pattern>,
) -> (r: bool)
    ensures
        r == keeps(word@, filters(length, min_length, mtch)),
{
    let n = char_count(word);
    if n < min_length {
        return false;
    }
    if let Some(wanted) = length {
        if wanted != n {
            return false;
        }
    }
    match mtch {
        Some(p) => p.matches(word),
        None => true,
    }
}

} // verus!
