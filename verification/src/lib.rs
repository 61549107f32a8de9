//! Sets of five five-letter words that share no letter.
//!
//! Words are encoded as masks of the letters they contain, words with the same mask
//! are grouped as anagrams, the masks are laid out by letter with the rarest letters
//! first, and a backtracking search over that layout reports every set of pairwise
//! disjoint masks. Each step has a contract over sequences, sets and maps, and the
//! search is proved sound, exhaustive and free of repetitions.
use vstd::prelude::*;

pub mod anagram;
pub mod bits;
pub mod encode;
pub mod report;
pub mod search;
pub mod search_complete;
pub mod search_lemmas;
pub mod solver;
pub mod space;
pub mod word_list;

verus! {

/// Number of letters in an eligible word.
pub const WORD_LENGTH: usize = 5;

/// Number of pairwise disjoint words in a solution.
pub const SET_SIZE: usize = 5;

/// Number of letters in the alphabet.
pub const LETTER_COUNT: usize = 26;

} // verus!
