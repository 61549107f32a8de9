//! From a word list to its solutions.
use vstd::prelude::*;
use crate::SET_SIZE;
use crate::anagram::{
    all_eligible, all_words_of_letters, anagram_map, distinct_masks, first_seen,
    lemma_first_seen, word_masks, word_views,
};
use crate::encode::{all_word_masks, eligible, is_word_mask, lemma_eligible_mask};
use crate::search_complete::{finds, is_word_set, lemma_solutions_hold_every_word_set};
use crate::search::{all_solutions, do_solve, solutions_view};
use crate::search_lemmas::{distinct_as_sets, in_space, pairwise_disjoint};
use crate::space::{
    is_search_space_for, lemma_candidates_are_masks, lemma_search_space_unique,
    search_space_of, LetterGroupView, SearchSpace,
};

verus! {

/// The solutions of a word list, in the order in which they are reported: those of the
/// search space over the masks of the words, each mask once, in the order in which the
/// masks first occur.
pub open spec fn solutions_of(words: Seq<Seq<char>>) -> Seq<Seq<u32>> {
    all_solutions(search_space_of(first_seen(word_masks(words))))
}

/// A word list has one list of solutions: whatever search spaces two runs build over
/// the masks of the same words, they report the same solutions in the same order.
pub proof fn lemma_runs_agree(
    words: Seq<Seq<char>>,
    first: Seq<LetterGroupView>,
    second: Seq<LetterGroupView>,
)
    requires
        is_search_space_for(first, first_seen(word_masks(words))),
        is_search_space_for(second, first_seen(word_masks(words))),
    ensures
        all_solutions(first) == all_solutions(second),
        all_solutions(first) == solutions_of(words),
{
    let masks = first_seen(word_masks(words));
    lemma_search_space_unique(first, second, masks);
    lemma_search_space_unique(first, search_space_of(masks), masks);
}

/// The masks of eligible words are word masks, and so are the masks that stand once
/// each for what occurs among them.
proof fn lemma_masks_of_eligible_words(words: Seq<Seq<char>>)
    requires
        all_eligible(words),
    ensures
        all_word_masks(first_seen(word_masks(words))),
{
    let all = word_masks(words);
    let masks = first_seen(all);
    lemma_first_seen(all);
    assert forall|i: int| 0 <= i < masks.len() implies is_word_mask(#[trigger] masks[i]) by {
        assert(masks.contains(masks[i]));
        assert(all.contains(masks[i]));
        let j = choose|j: int| 0 <= j < all.len() && all[j] == masks[i];
        assert(eligible(words[j]));
        lemma_eligible_mask(words[j]);
    }
}

/// The sets of `SET_SIZE` masks of the words, no two masks of a set sharing a letter.
/// Every solution is such a set, and no set is reported twice, not even with its masks
/// in another order; where all words are eligible, every such set is reported. A word
/// list has one list of solutions: a second run reports the same sets in the same
/// order.
pub fn find_solutions(words: &[String]) -> (solutions: Vec<[u32; SET_SIZE]>)
    requires
        all_words_of_letters(word_views(words@)),
    ensures
        solutions_view(solutions@) == solutions_of(word_views(words@)),
        forall|n: int|
            0 <= n < solutions.len() ==> pairwise_disjoint((#[trigger] solutions[n])@),
        forall|n: int, i: int|
            0 <= n < solutions.len() && 0 <= i < SET_SIZE ==> anagram_map(
                word_views(words@),
            ).contains_key(#[trigger] solutions[n]@[i]),
        forall|n: int|
            0 <= n < solutions.len() ==> is_word_set(
                (#[trigger] solutions[n])@,
                word_masks(word_views(words@)),
            ),
        distinct_as_sets(solutions_view(solutions@)),
        all_eligible(word_views(words@)) ==> forall|s: Seq<u32>| #[trigger]
            is_word_set(s, word_masks(word_views(words@))) ==> finds(
                solutions_view(solutions@),
                s,
            ),
{
    let masks = distinct_masks(words);
    let space = SearchSpace::new(masks.as_slice());
    let solutions = do_solve(&space);
    proof {
        assert forall|n: int, i: int|
            0 <= n < solutions.len() && 0 <= i < SET_SIZE implies anagram_map(
            word_views(words@),
        ).contains_key(#[trigger] solutions[n]@[i]) by {
            let m = solutions[n]@[i];
            assert(in_space(space@, m));
            let (g, k) = choose|g: int, k: int|
                0 <= g < space@.len() && 0 <= k < space@[g].words.len()
                    && #[trigger] space@[g].words[k] == m;
            lemma_candidates_are_masks(space@, masks@, g, k);
        }
        let all = word_masks(word_views(words@));
        lemma_first_seen(all);
        assert forall|n: int| 0 <= n < solutions.len() implies is_word_set(
            (#[trigger] solutions[n])@,
            all,
        ) by {
            let found = solutions[n]@;
            assert forall|i: int| 0 <= i < found.len() implies all.contains(#[trigger] found[i]) by {
                assert(anagram_map(word_views(words@)).contains_key(solutions[n]@[i]));
            }
        }
        if all_eligible(word_views(words@)) {
            lemma_masks_of_eligible_words(word_views(words@));
            assert forall|s: Seq<u32>| #[trigger] is_word_set(s, all) implies finds(
                solutions_view(solutions@),
                s,
            ) by {
                assert forall|i: int| 0 <= i < s.len() implies masks@.contains(#[trigger] s[i]) by {
                    assert(all.contains(s[i]));
                }
                lemma_solutions_hold_every_word_set(space@, masks@, s);
            }
        }
    }
    solutions
}

} // verus!
