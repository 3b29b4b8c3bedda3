//! Positional patterns of literal characters and wildcards.
use vstd::prelude::*;
use vstd::std_specs::iter::IteratorSpec;

verus! {

/// The character of a pattern that stands for any one character.
pub const WILDCARD: char = '.';

/// Whether the pattern `p` matches the word `s`: both have the same number of
/// characters, and at each position the pattern holds the wildcard or the character
/// of the word.
pub open spec fn pattern_matches(p: Seq<char>, s: Seq<char>) -> bool {
    &&& p.len() == s.len()
    &&& forall|i: int| 0 <= i < p.len() ==> p[i] == WILDCARD || p[i] == s[i]
}

/// A positional pattern: literal characters and wildcards.
pub struct Pattern(String);

impl View for Pattern {
    type V = Seq<char>;

    /// The characters of the pattern.
    closed spec fn view(&self) -> Seq<char> {
        self.0@
    }
}

impl Pattern {
    /// Whether the pattern matches `s`.
    pub fn matches(&self, s: &str) -> (r: bool)
        ensures
            r == pattern_matches(self@, s@),
    {
        broadcast use vstd::string::group_string_axioms;

        let mut ps = self.0.as_str().chars();
        let mut ss = s.chars();
        let ghost mut i: int = 0;
        loop
            invariant
                0 <= i <= self@.len(),
                i <= s@.len(),
                ps.remaining() == self@.skip(i),
                ss.remaining() == s@.skip(i),
                forall|k: int| 0 <= k < i ==> self@[k] == WILDCARD || self@[k] == s@[k],
            decreases self@.len() - i,
        {
            match ps.next() {
                None => {
                    return ss.next().is_none();
                },
                Some(l) => {
                    match ss.next() {
                        None => {
                            return false;
                        },
                        Some(r) => {
                            if l != WILDCARD && l != r {
                                return false;
                            }
                        },
                    }
                    proof {
                        i = i + 1;
                    }
                },
            }
        }
    }
}

impl From<&str> for Pattern {
    /// The pattern that holds the characters of `s`.
    fn from(s: &str) -> (p: Pattern)
        ensures
            p@ == s@,
    {
        Pattern(s.to_owned())
    }
}

impl vstd::std_specs::convert::FromSpecImpl<&str> for Pattern {
    /// The conversion is specified by the `ensures` of `from`, over the view: the
    /// characters of a pattern do not determine the string that holds them.
    open spec fn obeys_from_spec() -> bool {
        false
    }

    open spec fn from_spec(s: &str) -> Pattern {
        choose|p: Pattern| p@ == s@
    }
}

} // verus!
