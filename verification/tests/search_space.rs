use wordle_clique::encode::{pattern, pattern_bit};
use wordle_clique::space::SearchSpace;
use wordle_clique::LETTER_COUNT;

#[test]
fn search_space_of_nothing_has_an_empty_group_for_each_letter() {
    let space = SearchSpace::new(&[]);
    assert_eq!(space.letter_groups.len(), LETTER_COUNT);
    for (rank, group) in space.letter_groups.iter().enumerate() {
        assert_eq!(group.letter, 1u32 << rank);
        assert!(group.words.is_empty());
    }
}

#[test]
fn search_space_has_one_group_for_each_letter() {
    let masks = [pattern("fjord"), pattern("glyph"), pattern("waltz")];
    let space = SearchSpace::new(&masks);
    assert_eq!(space.letter_groups.len(), LETTER_COUNT);
    for ch in 'a'..='z' {
        let count = space.letter_groups.iter().filter(|g| g.letter == pattern_bit(ch)).count();
        assert_eq!(count, 1);
    }
}

#[test]
fn each_group_holds_the_masks_with_its_letter_in_input_order() {
    let masks = [pattern("fjord"), pattern("glyph"), pattern("waltz"), pattern("world")];
    let space = SearchSpace::new(&masks);
    for group in &space.letter_groups {
        let expected: Vec<u32> =
            masks.iter().filter(|mask| *mask & group.letter != 0).cloned().collect();
        assert_eq!(group.words, expected);
    }
    let group_of = |ch: char| {
        space.letter_groups.iter().find(|g| g.letter == pattern_bit(ch)).unwrap().words.clone()
    };
    assert_eq!(group_of('l'), vec![pattern("glyph"), pattern("waltz"), pattern("world")]);
    assert_eq!(group_of('o'), vec![pattern("fjord"), pattern("world")]);
    assert_eq!(group_of('z'), vec![pattern("waltz")]);
    assert_eq!(group_of('q'), Vec::<u32>::new());
}

#[test]
fn groups_are_in_ascending_order_of_size() {
    let masks = [pattern("fjord"), pattern("glyph"), pattern("waltz"), pattern("world")];
    let space = SearchSpace::new(&masks);
    for pair in space.letter_groups.windows(2) {
        assert!(pair[0].words.len() <= pair[1].words.len());
    }
}

#[test]
fn groups_of_one_size_are_in_alphabetical_order() {
    let masks = [pattern("fjord"), pattern("glyph"), pattern("waltz"), pattern("world")];
    let space = SearchSpace::new(&masks);
    for pair in space.letter_groups.windows(2) {
        if pair[0].words.len() == pair[1].words.len() {
            assert!(pair[0].letter < pair[1].letter);
        }
    }
}

#[test]
fn search_space_over_two_words_is_ordered_as_expected() {
    // 'a' and 'b' occur twice, 'c' to 'h' once, the other letters never
    let masks = [pattern("abcde"), pattern("abfgh")];
    let space = SearchSpace::new(&masks);
    let letters: Vec<u32> = space.letter_groups.iter().map(|g| g.letter).collect();
    let mut expected: Vec<u32> = ('i'..='z').map(pattern_bit).collect();
    expected.extend(('c'..='h').map(pattern_bit));
    expected.extend(('a'..='b').map(pattern_bit));
    assert_eq!(letters, expected);
    assert_eq!(space.letter_groups[25].words, vec![pattern("abcde"), pattern("abfgh")]);
    assert_eq!(space.letter_groups[18].words, vec![pattern("abcde")]);
    assert_eq!(space.letter_groups[21].words, vec![pattern("abfgh")]);
}

#[test]
fn search_space_keeps_a_mask_that_is_given_twice() {
    let masks = [pattern("fjord"), pattern("fjord")];
    let space = SearchSpace::new(&masks);
    let group = space.letter_groups.iter().find(|g| g.letter == pattern_bit('j')).unwrap();
    assert_eq!(group.words, vec![pattern("fjord"), pattern("fjord")]);
}
