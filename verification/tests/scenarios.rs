use wordle_clique::anagram::{distinct_masks, group_anagrams};
use wordle_clique::encode::pattern;
use wordle_clique::report::solution_words;
use wordle_clique::solver::find_solutions;
use wordle_clique::word_list::eligible_words;

fn alternatives_of(text: &str) -> Vec<Vec<Vec<String>>> {
    let words = eligible_words(text);
    let groups = group_anagrams(&words);
    find_solutions(&words).iter().map(|solution| solution_words(solution, &groups)).collect()
}

#[test]
fn one_word_gives_no_solution_and_one_group() {
    let words = eligible_words("abcde\n");
    assert_eq!(words, vec!["abcde"]);
    assert_eq!(group_anagrams(&words).len(), 1);
    assert_eq!(distinct_masks(&words).len(), 1);
    assert!(find_solutions(&words).is_empty());
}

#[test]
fn five_words_over_twenty_five_letters_give_one_solution() {
    let words = eligible_words("abcde\nfghij\nklmno\npqrst\nuvwxy\n");
    let solutions = find_solutions(&words);
    assert_eq!(solutions.len(), 1);
    let mut found = solutions[0].to_vec();
    found.sort();
    let mut expected: Vec<u32> = words.iter().map(|word| pattern(word)).collect();
    expected.sort();
    assert_eq!(found, expected);
    // no mask of the solution holds 'z'
    assert!(solutions[0].iter().all(|mask| mask & (1 << 25) == 0));
    let mut reported: Vec<String> =
        alternatives_of("abcde\nfghij\nklmno\npqrst\nuvwxy\n")[0].concat();
    reported.sort();
    assert_eq!(reported, vec!["abcde", "fghij", "klmno", "pqrst", "uvwxy"]);
}

#[test]
fn anagrams_are_alternatives_for_one_slot() {
    let text = "abcde\nfghij\nedcba\nklmno\npqrst\nuvwxy\n";
    let words = eligible_words(text);
    assert_eq!(group_anagrams(&words).len(), 5);
    assert_eq!(find_solutions(&words).len(), 1);
    let reported = alternatives_of(text);
    assert_eq!(reported.len(), 1);
    let mut slots = reported[0].clone();
    slots.sort();
    assert_eq!(
        slots,
        vec![
            vec!["abcde", "edcba"],
            vec!["fghij"],
            vec!["klmno"],
            vec!["pqrst"],
            vec!["uvwxy"],
        ]
    );
}

#[test]
fn two_anagrams_and_three_other_words_fill_only_four_slots() {
    let words = eligible_words("abcde\nedcba\nfghij\nklmno\npqrst\n");
    assert_eq!(group_anagrams(&words).len(), 4);
    assert!(find_solutions(&words).is_empty());
}

#[test]
fn a_word_with_a_repeated_letter_is_left_out_everywhere() {
    let text = "abcde\nmommy\nfghij\nklmno\npqrst\nuvwxy\n";
    let words = eligible_words(text);
    assert!(!words.contains(&"mommy".to_string()));
    let groups = group_anagrams(&words);
    assert!(!groups.contains_key(&pattern("mommy")));
    assert!(groups.values().all(|group| !group.contains(&"mommy".to_string())));
    assert!(!distinct_masks(&words).contains(&pattern("mommy")));
    let reported = alternatives_of(text);
    assert_eq!(reported.len(), 1);
    for solution in &reported {
        for slot in solution {
            assert!(!slot.contains(&"mommy".to_string()));
        }
    }
}

#[test]
fn find_solutions_of_no_words_is_empty() {
    assert!(find_solutions(&[]).is_empty());
    assert!(alternatives_of("").is_empty());
}

#[test]
fn find_solutions_reports_each_set_once_whatever_the_anagrams() {
    let text = "abcde\nedcba\nfghij\njihgf\nklmno\npqrst\nuvwxy\nuvwxz\n";
    let words = eligible_words(text);
    let solutions = find_solutions(&words);
    assert_eq!(solutions.len(), 2);
    let mut first = solutions[0].to_vec();
    let mut second = solutions[1].to_vec();
    first.sort();
    second.sort();
    assert_ne!(first, second);
}

#[test]
fn find_solutions_twice_gives_the_same_list() {
    let text = "abcde\nedcba\nfghij\nklmno\npqrst\nuvwxy\nuvwxz\nabcdf\neghij\nklmnp\noqrst\n";
    let words = eligible_words(text);
    let first = find_solutions(&words);
    let second = find_solutions(&words);
    assert!(first.len() >= 2);
    assert_eq!(first, second);
    assert_eq!(alternatives_of(text), alternatives_of(text));
}

#[test]
fn find_solutions_masks_are_keys_of_the_anagram_groups() {
    let text = "abcde\nedcba\nfghij\nklmno\npqrst\nuvwxy\nuvwxz\n";
    let words = eligible_words(text);
    let groups = group_anagrams(&words);
    for solution in find_solutions(&words) {
        for mask in solution {
            assert!(groups.contains_key(&mask));
        }
    }
}

#[test]
fn upper_case_lines_are_found_in_lower_case() {
    let reported = alternatives_of("ABCDE\nFghij\nklmno\nPQRST\nuvwxy\n");
    assert_eq!(reported.len(), 1);
    let mut words = reported[0].concat();
    words.sort();
    assert_eq!(words, vec!["abcde", "fghij", "klmno", "pqrst", "uvwxy"]);
}

#[test]
fn a_word_given_twice_is_searched_once() {
    let words = eligible_words("abcde\nabcde\nfghij\nklmno\npqrst\nuvwxy\n");
    assert_eq!(words.len(), 6);
    assert_eq!(find_solutions(&words).len(), 1);
    let reported = alternatives_of("abcde\nabcde\nfghij\nklmno\npqrst\nuvwxy\n");
    assert!(reported[0].contains(&vec!["abcde".to_string(), "abcde".to_string()]));
}

#[test]
fn find_solutions_finds_every_disjoint_set_of_five() {
    let text = "fjord\ngucks\nnymph\nvibex\nwaltz\nabcde\nfghij\nklmno\npqrst\nuvwxy\n\
                uvwxz\nquick\nglyph\nbemix\nclunk\nvozhd\nwaqfs\ngymps\nkreng\njumby\n";
    let words = eligible_words(text);
    assert_eq!(words.len(), 20);
    let masks = distinct_masks(&words);
    let mut expected: Vec<Vec<u32>> = Vec::new();
    let n = masks.len();
    for a in 0..n {
        for b in (a + 1)..n {
            for c in (b + 1)..n {
                for d in (c + 1)..n {
                    for e in (d + 1)..n {
                        let mut set = vec![masks[a], masks[b], masks[c], masks[d], masks[e]];
                        let union = set.iter().fold(0, |all, mask| all | mask);
                        if union.count_ones() == 25 {
                            set.sort();
                            expected.push(set);
                        }
                    }
                }
            }
        }
    }
    let mut found: Vec<Vec<u32>> = find_solutions(&words)
        .iter()
        .map(|solution| {
            let mut set = solution.to_vec();
            set.sort();
            set
        })
        .collect();
    expected.sort();
    found.sort();
    assert!(expected.len() >= 3);
    assert_eq!(found, expected);
}
