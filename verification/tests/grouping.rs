use wordle_clique::anagram::{distinct_masks, group_anagrams};
use wordle_clique::encode::pattern;
use wordle_clique::report::solution_words;

fn words(list: &[&str]) -> Vec<String> {
    list.iter().map(|word| word.to_string()).collect()
}

#[test]
fn group_anagrams_of_nothing_is_empty() {
    assert!(group_anagrams(&[]).is_empty());
    assert!(distinct_masks(&[]).is_empty());
}

#[test]
fn group_anagrams_puts_anagrams_together_in_input_order() {
    let input = words(&["slate", "fjord", "least", "stale", "glyph"]);
    let groups = group_anagrams(&input);
    assert_eq!(groups.len(), 3);
    assert_eq!(groups[&pattern("slate")], vec!["slate", "least", "stale"]);
    assert_eq!(groups[&pattern("fjord")], vec!["fjord"]);
    assert_eq!(groups[&pattern("glyph")], vec!["glyph"]);
}

#[test]
fn group_anagrams_keeps_a_word_that_is_given_twice() {
    let input = words(&["fjord", "fjord"]);
    let groups = group_anagrams(&input);
    assert_eq!(groups.len(), 1);
    assert_eq!(groups[&pattern("fjord")], vec!["fjord", "fjord"]);
}

#[test]
fn group_anagrams_is_a_partition_of_the_words() {
    let input = words(&["slate", "fjord", "least", "waltz", "stale", "glyph", "fjord", "vibex"]);
    let groups = group_anagrams(&input);
    // each word stands in the group of its own mask and in no other
    for word in &input {
        for (mask, group) in &groups {
            assert_eq!(group.contains(word), *mask == pattern(word));
        }
    }
    // taken together, the groups hold what was given
    let mut regrouped: Vec<String> = groups.values().flatten().cloned().collect();
    let mut given = input.clone();
    regrouped.sort();
    given.sort();
    assert_eq!(regrouped, given);
}

#[test]
fn distinct_masks_lists_each_mask_once_in_first_seen_order() {
    let input = words(&["slate", "fjord", "least", "glyph", "fjord", "stale"]);
    assert_eq!(distinct_masks(&input), vec![pattern("slate"), pattern("fjord"), pattern("glyph")]);
}

#[test]
fn distinct_masks_are_the_keys_of_the_groups() {
    let input = words(&["slate", "fjord", "least", "waltz", "stale", "glyph", "vibex"]);
    let groups = group_anagrams(&input);
    let masks = distinct_masks(&input);
    assert_eq!(masks.len(), groups.len());
    for mask in &masks {
        assert!(groups.contains_key(mask));
    }
}

#[test]
fn solution_words_lists_the_group_of_each_mask() {
    let input = words(&["abcde", "fghij", "klmno", "edcba", "pqrst", "uvwxy", "bcdea"]);
    let groups = group_anagrams(&input);
    let solution = [
        pattern("uvwxy"),
        pattern("abcde"),
        pattern("klmno"),
        pattern("pqrst"),
        pattern("fghij"),
    ];
    let alternatives = solution_words(&solution, &groups);
    assert_eq!(
        alternatives,
        vec![
            vec!["uvwxy"],
            vec!["abcde", "edcba", "bcdea"],
            vec!["klmno"],
            vec!["pqrst"],
            vec!["fghij"],
        ]
    );
}

#[test]
fn solution_words_repeats_the_group_of_a_repeated_mask() {
    let input = words(&["abcde", "edcba"]);
    let groups = group_anagrams(&input);
    let solution = [pattern("abcde"); 5];
    let alternatives = solution_words(&solution, &groups);
    assert_eq!(alternatives.len(), 5);
    for group in alternatives {
        assert_eq!(group, vec!["abcde", "edcba"]);
    }
}
