//! From a solution back to the words that its masks stand for.
use std::collections::HashMap;
use vstd::prelude::*;
use crate::SET_SIZE;
use crate::anagram::{anagram_view, word_views};

verus! {

/// The words that may stand for each mask of a solution: for each mask, in the order of
/// the solution, the anagram group of that mask, its words in the order of the group.
pub fn solution_words(
    solution: &[u32; SET_SIZE],
    anagram_map: &HashMap<u32, Vec<String>>,
) -> (alternatives: Vec<Vec<String>>)
    requires
        forall|i: int| 0 <= i < SET_SIZE ==> anagram_map@.contains_key(#[trigger] solution@[i]),
    ensures
        alternatives.len() == SET_SIZE,
        forall|i: int|
            0 <= i < SET_SIZE ==> word_views((#[trigger] alternatives[i])@) == anagram_view(
                anagram_map@,
            )[solution@[i]],
{
    broadcast use vstd::std_specs::hash::group_hash_axioms;

    let mut alternatives: Vec<Vec<String>> = Vec::new();
    let mut i: usize = 0;
    while i < SET_SIZE
        invariant
            i <= SET_SIZE,
            alternatives.len() == i,
            forall|j: int| 0 <= j < SET_SIZE ==> anagram_map@.contains_key(#[trigger] solution@[j]),
            forall|j: int|
                0 <= j < i ==> word_views((#[trigger] alternatives[j])@) == anagram_view(
                    anagram_map@,
                )[solution@[j]],
        decreases SET_SIZE - i,
    {
        let mask = solution[i];
        assert(anagram_map@.contains_key(solution@[i as int]));
        let group = anagram_map.get(&mask).unwrap();
        let words = group.clone();
        assert(words@ =~= group@);
        alternatives.push(words);
        i += 1;
    }
    alternatives
}

} // verus!
