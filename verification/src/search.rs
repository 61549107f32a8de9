//! The backtracking search and the list of solutions that it reports.
use vstd::prelude::*;
use crate::SET_SIZE;
use crate::encode::all_word_masks;
use crate::search_complete::{finds, is_word_set, lemma_solutions_hold_every_word_set};
use crate::search_lemmas::{
    distinct_as_sets, in_space, lemma_solutions_disjoint, lemma_solutions_distinct,
    pairwise_disjoint,
};
use crate::space::{is_search_space_for, well_formed, LetterGroupView, SearchSpace};

verus! {

/// The solutions of a vector of fixed-size arrays, each as the sequence of its masks.
pub open spec fn solutions_view(solutions: Seq<[u32; SET_SIZE]>) -> Seq<Seq<u32>> {
    solutions.map_values(|s: [u32; SET_SIZE]| s@)
}

/// The index of the first group at or after `idx` whose letter is not in `used`,
/// or the number of groups if there is none.
pub open spec fn next_group(groups: Seq<LetterGroupView>, idx: int, used: u32) -> int
    decreases groups.len() - idx,
{
    if idx >= groups.len() {
        groups.len() as int
    } else if idx >= 0 && used & groups[idx].letter == 0 {
        idx
    } else {
        next_group(groups, idx + 1, used)
    }
}

/// The next group stands at or after `idx`, and its letter is free.
pub proof fn lemma_next_group_bounds(groups: Seq<LetterGroupView>, idx: int, used: u32)
    requires
        0 <= idx,
    ensures
        idx <= next_group(groups, idx, used) || groups.len() <= next_group(groups, idx, used),
        next_group(groups, idx, used) <= groups.len() || next_group(groups, idx, used) == idx,
        next_group(groups, idx, used) < groups.len() ==> used & groups[next_group(
            groups,
            idx,
            used,
        )].letter == 0,
    decreases groups.len() - idx,
{
    if idx < groups.len() && !(used & groups[idx].letter == 0) {
        lemma_next_group_bounds(groups, idx + 1, used);
    }
}

/// The solutions that the search reports, in order, when it stands before group `idx`
/// with the masks of `partial` chosen, the letters of `used` spoken for, and
/// `can_skip` telling whether one letter may still be left out.
pub open spec fn search(
    groups: Seq<LetterGroupView>,
    idx: int,
    partial: Seq<u32>,
    used: u32,
    can_skip: bool,
) -> Seq<Seq<u32>>
    decreases groups.len() - idx, 1int, 0int,
{
    if partial.len() == SET_SIZE {
        seq![partial]
    } else if idx < 0 {
        Seq::empty()
    } else {
        let g = next_group(groups, idx, used);
        if idx <= g < groups.len() {
            search_candidates(groups, g, 0, partial, used, can_skip)
        } else {
            Seq::empty()
        }
    }
}

/// The solutions reported from group `g` on, once its candidates before `k` are done:
/// first those through each remaining candidate that shares no letter with `used`,
/// then, if a letter may still be left out, those that leave out the letter of `g`.
pub open spec fn search_candidates(
    groups: Seq<LetterGroupView>,
    g: int,
    k: int,
    partial: Seq<u32>,
    used: u32,
    can_skip: bool,
) -> Seq<Seq<u32>>
    decreases groups.len() - g, 0int, groups[g].words.len() - k,
{
    if !(0 <= g < groups.len()) || k < 0 {
        Seq::empty()
    } else if k >= groups[g].words.len() {
        if can_skip {
            search(groups, g + 1, partial, used | groups[g].letter, false)
        } else {
            Seq::empty()
        }
    } else {
        let w = groups[g].words[k];
        let through = if used & w == 0 {
            search(groups, g + 1, partial.push(w), used | w, can_skip)
        } else {
            Seq::empty()
        };
        through + search_candidates(groups, g, k + 1, partial, used, can_skip)
    }
}

/// All solutions of a search space, in the order in which the search reports them.
pub open spec fn all_solutions(groups: Seq<LetterGroupView>) -> Seq<Seq<u32>> {
    search(groups, 0, Seq::empty(), 0, true)
}

/// Extends `solutions` by every solution that completes `current_solution` from group
/// `current_letter_idx` on, and leaves `current_solution` as it was.
pub fn solve(
    words: &SearchSpace,
    current_letter_idx: usize,
    solutions: &mut Vec<[u32; SET_SIZE]>,
    current_solution: &mut Vec<u32>,
    already_used: u32,
    can_skip_letter: bool,
)
    ensures
        final(current_solution)@ == old(current_solution)@,
        solutions_view(final(solutions)@) == solutions_view(old(solutions)@) + search(
            words@,
            current_letter_idx as int,
            old(current_solution)@,
            already_used,
            can_skip_letter,
        ),
    decreases words.letter_groups.len() - current_letter_idx,
{
    if current_solution.len() == SET_SIZE {
        let found: [u32; SET_SIZE] = [
            current_solution[0],
            current_solution[1],
            current_solution[2],
            current_solution[3],
            current_solution[4],
        ];
        assert(found@ =~= current_solution@);
        solutions.push(found);
        assert(solutions_view(solutions@) =~= solutions_view(old(solutions)@) + seq![
            current_solution@,
        ]);
        return ;
    }
    let mut group_idx = current_letter_idx;
    loop
        invariant
            *solutions == *old(solutions),
            *current_solution == *old(current_solution),
            current_solution.len() != SET_SIZE,
            current_letter_idx <= group_idx,
            next_group(words@, group_idx as int, already_used) == next_group(
                words@,
                current_letter_idx as int,
                already_used,
            ),
        ensures
            group_idx < words.letter_groups.len(),
            group_idx == next_group(words@, current_letter_idx as int, already_used),
        decreases words.letter_groups.len() - group_idx,
    {
        if group_idx >= words.letter_groups.len() {
            return ;
        }
        let current_letter = words.letter_groups[group_idx].letter;
        if already_used & current_letter == 0 {
            break ;
        }
        group_idx += 1;
    }
    let current_letter = words.letter_groups[group_idx].letter;
    let current_words = &words.letter_groups[group_idx].words;
    let mut k: usize = 0;
    while k < current_words.len()
        invariant
            current_letter_idx <= group_idx < words.letter_groups.len(),
            current_words@ == words@[group_idx as int].words,
            k <= current_words.len(),
            current_solution@ == old(current_solution)@,
            solutions_view(solutions@) + search_candidates(
                words@,
                group_idx as int,
                k as int,
                current_solution@,
                already_used,
                can_skip_letter,
            ) == solutions_view(old(solutions)@) + search_candidates(
                words@,
                group_idx as int,
                0,
                current_solution@,
                already_used,
                can_skip_letter,
            ),
        decreases current_words.len() - k,
    {
        let word = current_words[k];
        let ghost before = solutions_view(solutions@);
        if already_used & word == 0 {
            current_solution.push(word);
            solve(
                words,
                group_idx + 1,
                solutions,
                current_solution,
                already_used | word,
                can_skip_letter,
            );
            current_solution.pop();
            assert(current_solution@ =~= old(current_solution)@);
        }
        assert(solutions_view(solutions@) + search_candidates(
            words@,
            group_idx as int,
            k + 1,
            current_solution@,
            already_used,
            can_skip_letter,
        ) =~= before + search_candidates(
            words@,
            group_idx as int,
            k as int,
            current_solution@,
            already_used,
            can_skip_letter,
        ));
        k += 1;
    }
    if can_skip_letter {
        solve(
            words,
            group_idx + 1,
            solutions,
            current_solution,
            already_used | current_letter,
            false,
        );
    }
}

/// The solutions of the search space, in the order in which the search reports them.
/// The masks of a solution are candidates of the space and pairwise disjoint. In a
/// well-formed space no solution is reported twice, not even with its masks in another
/// order; and the search space over word masks yields every set of `SET_SIZE` of them
/// that are pairwise disjoint.
pub fn do_solve(words: &SearchSpace) -> (solutions: Vec<[u32; SET_SIZE]>)
    ensures
        solutions_view(solutions@) == all_solutions(words@),
        forall|n: int|
            0 <= n < solutions.len() ==> pairwise_disjoint((#[trigger] solutions[n])@),
        forall|n: int, i: int|
            0 <= n < solutions.len() && 0 <= i < SET_SIZE ==> in_space(
                words@,
                #[trigger] solutions[n]@[i],
            ),
        well_formed(words@) ==> distinct_as_sets(solutions_view(solutions@)),
        forall|masks: Seq<u32>, s: Seq<u32>|
            is_search_space_for(words@, masks) && all_word_masks(masks) && #[trigger] is_word_set(
                s,
                masks,
            ) ==> finds(solutions_view(solutions@), s),
{
    let mut solutions: Vec<[u32; SET_SIZE]> = Vec::new();
    let mut current_solution: Vec<u32> = Vec::with_capacity(SET_SIZE);
    solve(words, 0, &mut solutions, &mut current_solution, 0, true);
    proof {
        assert(solutions_view(solutions@) =~= all_solutions(words@));
        lemma_solutions_disjoint(words@);
        if well_formed(words@) {
            lemma_solutions_distinct(words@);
        }
        assert forall|masks: Seq<u32>, s: Seq<u32>|
            is_search_space_for(words@, masks) && all_word_masks(masks) && #[trigger] is_word_set(
                s,
                masks,
            ) implies finds(solutions_view(solutions@), s) by {
            lemma_solutions_hold_every_word_set(words@, masks, s);
        }
        assert forall|n: int| 0 <= n < solutions.len() implies pairwise_disjoint(
            (#[trigger] solutions[n])@,
        ) by {
            assert(solutions[n]@ == solutions_view(solutions@)[n]);
        }
        assert forall|n: int, i: int|
            0 <= n < solutions.len() && 0 <= i < SET_SIZE implies in_space(
            words@,
            #[trigger] solutions[n]@[i],
        ) by {
            assert(solutions[n]@ == solutions_view(solutions@)[n]);
        }
    }
    solutions
}

} // verus!
