use wordle_clique::encode::{canonical_words, pattern, pattern_bit};
use wordle_clique::word_list::{canonical_word_list, eligible_words};
use wordle_clique::{LETTER_COUNT, SET_SIZE, WORD_LENGTH};

#[test]
fn constants_describe_the_puzzle() {
    assert_eq!(WORD_LENGTH, 5);
    assert_eq!(SET_SIZE, 5);
    assert_eq!(LETTER_COUNT, 26);
}

#[test]
fn pattern_bit_of_first_and_last_letter() {
    assert_eq!(pattern_bit('a'), 1);
    assert_eq!(pattern_bit('b'), 2);
    assert_eq!(pattern_bit('e'), 16);
    assert_eq!(pattern_bit('z'), 1 << 25);
}

#[test]
fn pattern_bit_ignores_case() {
    assert_eq!(pattern_bit('A'), 1);
    assert_eq!(pattern_bit('Q'), pattern_bit('q'));
    assert_eq!(pattern_bit('Z'), 1 << 25);
}

#[test]
fn pattern_bit_sets_exactly_one_bit_for_every_letter() {
    for (rank, ch) in ('a'..='z').enumerate() {
        assert_eq!(pattern_bit(ch), 1u32 << rank);
        assert_eq!(pattern_bit(ch.to_ascii_uppercase()), 1u32 << rank);
    }
}

#[test]
fn pattern_of_plain_words() {
    assert_eq!(pattern(""), 0);
    assert_eq!(pattern("a"), 1);
    assert_eq!(pattern("abcde"), 0b11111);
    assert_eq!(pattern("az"), 1 | (1 << 25));
    assert_eq!(pattern("fghij"), 0b11111 << 5);
}

#[test]
fn pattern_counts_a_repeated_letter_once() {
    assert_eq!(pattern("mommy"), (1 << 12) | (1 << 14) | (1 << 24));
    assert_eq!(pattern("aaaaa"), 1);
}

#[test]
fn pattern_is_the_same_for_anagrams_and_for_either_case() {
    assert_eq!(pattern("least"), pattern("slate"));
    assert_eq!(pattern("least"), pattern("stale"));
    assert_eq!(pattern("LEAST"), pattern("least"));
    assert_ne!(pattern("least"), pattern("leash"));
}

#[test]
fn canonical_words_accepts_five_distinct_letters() {
    assert_eq!(canonical_words("abcde"), Some("abcde".to_string()));
    assert_eq!(canonical_words("fjord"), Some("fjord".to_string()));
}

#[test]
fn canonical_words_lowers_the_case() {
    assert_eq!(canonical_words("ABCDE"), Some("abcde".to_string()));
    assert_eq!(canonical_words("FjOrD"), Some("fjord".to_string()));
}

#[test]
fn canonical_words_rejects_other_lengths() {
    assert_eq!(canonical_words(""), None);
    assert_eq!(canonical_words("a"), None);
    assert_eq!(canonical_words("abcd"), None);
    assert_eq!(canonical_words("abcdef"), None);
    assert_eq!(canonical_words("abcdefghijklmnopqrstuvwxyz"), None);
}

#[test]
fn canonical_words_rejects_what_is_no_letter() {
    assert_eq!(canonical_words("abcd1"), None);
    assert_eq!(canonical_words("ab de"), None);
    assert_eq!(canonical_words("ab-de"), None);
    assert_eq!(canonical_words("abcd\n"), None);
    assert_eq!(canonical_words("abcd{"), None);
    assert_eq!(canonical_words("abcd`"), None);
}

#[test]
fn canonical_words_rejects_letters_outside_ascii() {
    // five characters, more than five bytes
    assert_eq!(canonical_words("abcdé"), None);
    // five bytes, fewer than five characters
    assert_eq!(canonical_words("éèa"), None);
}

#[test]
fn canonical_words_rejects_a_repeated_letter() {
    assert_eq!(canonical_words("mommy"), None);
    assert_eq!(canonical_words("aabcd"), None);
    assert_eq!(canonical_words("abcda"), None);
    assert_eq!(canonical_words("zzzzz"), None);
}

#[test]
fn canonical_words_rejects_a_letter_repeated_in_another_case() {
    assert_eq!(canonical_words("Abcda"), None);
    assert_eq!(canonical_words("mOoky"), None);
}

#[test]
fn accepted_words_have_a_mask_of_five_bits() {
    for line in ["abcde", "FJORD", "vibex", "Glyph", "waltz", "quick"] {
        let word = canonical_words(line).unwrap();
        assert_eq!(pattern(&word).count_ones(), WORD_LENGTH as u32);
        assert_eq!(pattern(&word), pattern(line));
    }
}

#[test]
fn canonical_word_list_keeps_the_eligible_lines_in_order() {
    let lines: Vec<String> = ["fjord", "mommy", "", "GLYPH", "abc", "abcdef", "waltz", "fjord"]
        .iter()
        .map(|line| line.to_string())
        .collect();
    assert_eq!(canonical_word_list(&lines), vec!["fjord", "glyph", "waltz", "fjord"]);
}

#[test]
fn canonical_word_list_of_nothing_is_empty() {
    assert!(canonical_word_list(&[]).is_empty());
}

#[test]
fn eligible_words_splits_the_text_into_lines() {
    let words = eligible_words("fjord\nmommy\nGLYPH\n\nwaltz");
    assert_eq!(words, vec!["fjord", "glyph", "waltz"]);
}

#[test]
fn eligible_words_drops_carriage_returns_before_line_feeds() {
    let words = eligible_words("fjord\r\nglyph\r\nwaltz\r\n");
    assert_eq!(words, vec!["fjord", "glyph", "waltz"]);
}

#[test]
fn eligible_words_of_an_empty_text_is_empty() {
    assert!(eligible_words("").is_empty());
    assert!(eligible_words("\n\n").is_empty());
}

#[test]
fn eligible_words_rejects_lines_with_blanks_around_the_word() {
    assert!(eligible_words(" fjord\nglyph \n").is_empty());
}
