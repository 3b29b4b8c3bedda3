//! Finds the words of a dictionary that can be made from the letters of a pattern.
//!
//! A word's [`Sig`] is the multiset of its letters with a canonical form. An [`Index`]
//! groups the words of a dictionary by signature and answers queries: the words whose
//! letters are among those of a pattern, filtered by length and by a positional
//! [`Pattern`] of literal characters and wildcards, in lexicographic order.
pub mod canon;
pub mod filter;
pub mod groups;
pub mod index;
pub mod order;
pub mod pattern;
pub mod sig;
pub mod text;

pub use index::Index;
pub use pattern::Pattern;
pub use sig::Sig;
