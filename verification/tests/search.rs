use std::collections::HashSet;
use wordle_clique::encode::{pattern, pattern_bit};
use wordle_clique::search::{do_solve, solve};
use wordle_clique::space::{LetterGroup, SearchSpace};
use wordle_clique::SET_SIZE;

fn masks(list: &[&str]) -> Vec<u32> {
    list.iter().map(|word| pattern(word)).collect()
}

fn sorted(solution: &[u32; SET_SIZE]) -> Vec<u32> {
    let mut masks = solution.to_vec();
    masks.sort();
    masks
}

#[test]
fn no_masks_no_solutions() {
    let space = SearchSpace::new(&[]);
    assert!(do_solve(&space).is_empty());
}

#[test]
fn an_empty_search_space_has_no_solutions() {
    let space = SearchSpace { letter_groups: Vec::new() };
    assert!(do_solve(&space).is_empty());
}

#[test]
fn four_disjoint_masks_are_not_enough() {
    let space = SearchSpace::new(&masks(&["abcde", "fghij", "klmno", "pqrst"]));
    assert!(do_solve(&space).is_empty());
}

#[test]
fn five_disjoint_masks_make_one_solution() {
    let input = masks(&["abcde", "fghij", "klmno", "pqrst", "uvwxy"]);
    let space = SearchSpace::new(&input);
    let solutions = do_solve(&space);
    assert_eq!(solutions.len(), 1);
    let mut expected = input.clone();
    expected.sort();
    assert_eq!(sorted(&solutions[0]), expected);
}

#[test]
fn the_unused_letter_may_stand_anywhere_in_the_alphabet() {
    for unused in 'a'..='z' {
        let letters: Vec<char> = ('a'..='z').filter(|ch| *ch != unused).collect();
        let words: Vec<String> = letters.chunks(5).map(|chunk| chunk.iter().collect()).collect();
        let input: Vec<u32> = words.iter().map(|word| pattern(word)).collect();
        let space = SearchSpace::new(&input);
        let solutions = do_solve(&space);
        assert_eq!(solutions.len(), 1);
        let mut expected = input.clone();
        expected.sort();
        assert_eq!(sorted(&solutions[0]), expected);
    }
}

#[test]
fn masks_that_share_a_letter_never_stand_in_one_solution() {
    let space = SearchSpace::new(&masks(&["abcde", "efghi", "jklmn", "opqrs", "tuvwx"]));
    assert!(do_solve(&space).is_empty());
}

#[test]
fn every_solution_is_pairwise_disjoint() {
    let input = masks(&[
        "abcde", "fghij", "klmno", "pqrst", "uvwxy", "uvwxz", "abcdf", "eghij", "klmnp", "oqrst",
    ]);
    let space = SearchSpace::new(&input);
    let solutions = do_solve(&space);
    assert!(!solutions.is_empty());
    for solution in &solutions {
        for i in 0..SET_SIZE {
            assert!(input.contains(&solution[i]));
            for j in (i + 1)..SET_SIZE {
                assert_eq!(solution[i] & solution[j], 0);
            }
        }
    }
}

#[test]
fn no_solution_is_reported_twice() {
    let input = masks(&[
        "abcde", "fghij", "klmno", "pqrst", "uvwxy", "uvwxz", "abcdf", "eghij", "klmnp", "oqrst",
    ]);
    let space = SearchSpace::new(&input);
    let solutions = do_solve(&space);
    let as_sets: HashSet<Vec<u32>> = solutions.iter().map(sorted).collect();
    assert_eq!(as_sets.len(), solutions.len());
}

#[test]
fn all_sets_of_a_small_list_are_found() {
    let input = masks(&["abcde", "fghij", "klmno", "pqrst", "uvwxy", "uvwxz"]);
    let space = SearchSpace::new(&input);
    let found: HashSet<Vec<u32>> = do_solve(&space).iter().map(sorted).collect();
    let mut with_y = masks(&["abcde", "fghij", "klmno", "pqrst", "uvwxy"]);
    let mut with_z = masks(&["abcde", "fghij", "klmno", "pqrst", "uvwxz"]);
    with_y.sort();
    with_z.sort();
    let expected: HashSet<Vec<u32>> = [with_y, with_z].into_iter().collect();
    assert_eq!(found, expected);
}

#[test]
fn the_search_agrees_with_trying_every_set_of_five() {
    let input = masks(&[
        "abcde", "fghij", "klmno", "pqrst", "uvwxy", "uvwxz", "abcdf", "eghij", "klmnp", "oqrst",
        "vwxyz", "fjord", "glyph", "waltz", "quick", "nymph", "vibex",
    ]);
    let space = SearchSpace::new(&input);
    let found: HashSet<Vec<u32>> = do_solve(&space).iter().map(sorted).collect();
    let mut expected: HashSet<Vec<u32>> = HashSet::new();
    let n = input.len();
    for a in 0..n {
        for b in (a + 1)..n {
            for c in (b + 1)..n {
                for d in (c + 1)..n {
                    for e in (d + 1)..n {
                        let set = [input[a], input[b], input[c], input[d], input[e]];
                        let union = set.iter().fold(0, |all, mask| all | mask);
                        if union.count_ones() == 25 {
                            expected.insert(sorted(&set));
                        }
                    }
                }
            }
        }
    }
    assert!(expected.len() >= 2);
    assert_eq!(found, expected);
}

#[test]
fn the_search_takes_the_smallest_groups_first() {
    // 'a' to 't', 'y' and 'z' have one mask each, 'u' to 'x' have two: the search
    // takes the masks in alphabetical order of their rarest letter, and comes to
    // 'z' only after it has left out 'y'
    let input = masks(&["uvwxz", "uvwxy", "pqrst", "klmno", "fghij", "abcde"]);
    let solutions = do_solve(&SearchSpace::new(&input));
    let head = masks(&["abcde", "fghij", "klmno", "pqrst"]);
    assert_eq!(
        solutions,
        vec![
            [head[0], head[1], head[2], head[3], pattern("uvwxy")],
            [head[0], head[1], head[2], head[3], pattern("uvwxz")],
        ]
    );
}

#[test]
fn the_search_reports_in_the_order_of_the_candidates() {
    // 'k' to 'y' have one mask each and come first; 'a' has two, which are tried in
    // the order in which they were given
    let tail = masks(&["klmno", "pqrst", "uvwxy"]);
    let input = masks(&["abcde", "fghij", "klmno", "pqrst", "uvwxy", "afghi", "bcdej"]);
    let solutions = do_solve(&SearchSpace::new(&input));
    assert_eq!(
        solutions,
        vec![
            [tail[0], tail[1], tail[2], pattern("abcde"), pattern("fghij")],
            [tail[0], tail[1], tail[2], pattern("afghi"), pattern("bcdej")],
        ]
    );
    let swapped = masks(&["afghi", "fghij", "klmno", "pqrst", "uvwxy", "abcde", "bcdej"]);
    let solutions = do_solve(&SearchSpace::new(&swapped));
    assert_eq!(
        solutions,
        vec![
            [tail[0], tail[1], tail[2], pattern("afghi"), pattern("bcdej")],
            [tail[0], tail[1], tail[2], pattern("abcde"), pattern("fghij")],
        ]
    );
}

#[test]
fn a_second_run_reports_the_same_solutions_in_the_same_order() {
    let input = masks(&[
        "abcde", "fghij", "klmno", "pqrst", "uvwxy", "uvwxz", "abcdf", "eghij", "klmnp", "oqrst",
    ]);
    let first = do_solve(&SearchSpace::new(&input));
    let second = do_solve(&SearchSpace::new(&input));
    assert_eq!(first, second);
}

#[test]
fn solve_records_a_full_partial_solution_as_it_stands() {
    let space = SearchSpace::new(&masks(&["abcde"]));
    let mut solutions = vec![[9, 9, 9, 9, 9]];
    let mut current = vec![1, 2, 4, 8, 16];
    solve(&space, 3, &mut solutions, &mut current, 31, false);
    assert_eq!(solutions, vec![[9, 9, 9, 9, 9], [1, 2, 4, 8, 16]]);
    assert_eq!(current, vec![1, 2, 4, 8, 16]);
}

#[test]
fn solve_past_the_last_group_finds_nothing() {
    let space = SearchSpace::new(&masks(&["abcde", "fghij", "klmno", "pqrst", "uvwxy"]));
    let mut solutions = Vec::new();
    let mut current = Vec::new();
    solve(&space, 26, &mut solutions, &mut current, 0, true);
    assert!(solutions.is_empty());
    solve(&space, 1000, &mut solutions, &mut current, 0, true);
    assert!(solutions.is_empty());
    assert!(current.is_empty());
}

#[test]
fn solve_completes_a_partial_solution() {
    let input = masks(&["abcde", "fghij", "klmno", "pqrst", "uvwxy"]);
    let space = SearchSpace::new(&input);
    let mut solutions = Vec::new();
    let mut current = vec![pattern("abcde"), pattern("fghij")];
    let used = pattern("abcde") | pattern("fghij");
    solve(&space, 0, &mut solutions, &mut current, used, true);
    assert_eq!(solutions.len(), 1);
    assert_eq!(&solutions[0][..2], &[pattern("abcde"), pattern("fghij")]);
    assert_eq!(current, vec![pattern("abcde"), pattern("fghij")]);
}

#[test]
fn solve_without_a_skip_left_needs_every_letter_of_the_groups() {
    let input = masks(&["abcde", "fghij", "klmno", "pqrst", "uvwxy"]);
    let space = SearchSpace::new(&input);
    let mut solutions = Vec::new();
    let mut current = Vec::new();
    // 'z' has the first group and no mask: without a skip the search ends there
    solve(&space, 0, &mut solutions, &mut current, 0, false);
    assert!(solutions.is_empty());
    // with 'z' spoken for, no skip is needed
    solve(&space, 0, &mut solutions, &mut current, pattern_bit('z'), false);
    assert_eq!(solutions.len(), 1);
}

#[test]
fn solve_on_a_hand_made_search_space() {
    // three letters, sets of five cannot be filled from them
    let space = SearchSpace {
        letter_groups: vec![
            LetterGroup { letter: 1, words: vec![1] },
            LetterGroup { letter: 2, words: vec![2] },
            LetterGroup { letter: 4, words: vec![4] },
        ],
    };
    assert!(do_solve(&space).is_empty());
    // with two masks chosen beforehand the three groups fill the set
    let mut solutions = Vec::new();
    let mut current = vec![8, 16];
    solve(&space, 0, &mut solutions, &mut current, 24, true);
    assert_eq!(solutions, vec![[8, 16, 1, 2, 4]]);
}

#[test]
fn a_mask_given_twice_is_searched_twice() {
    // the search space keeps what it is given: masks are to be given once each
    let input = masks(&["abcde", "abcde", "fghij", "klmno", "pqrst", "uvwxy"]);
    let solutions = do_solve(&SearchSpace::new(&input));
    assert_eq!(solutions.len(), 2);
    assert_eq!(solutions[0], solutions[1]);
}
