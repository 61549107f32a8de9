//! The word encoder: the mask of a word, and which lines are eligible words.
use vstd::prelude::*;
use vstd::string::StringSliceAdditionalSpecFns;
use crate::WORD_LENGTH;
use crate::bits::{
    alphabet_end, bit_count, lemma_alphabet_masks, lemma_bit_count_set, lemma_bits_overlap,
    lemma_union_has_bit,
};

verus! {

/// `c` is one of the 52 ASCII letters.
pub open spec fn is_letter(c: char) -> bool {
    ('a' <= c && c <= 'z') || ('A' <= c && c <= 'Z')
}

/// The ASCII lower-case form of `c`; a character that is no upper-case ASCII letter
/// is its own lower-case form.
pub open spec fn lower(c: char) -> char {
    if 'A' <= c && c <= 'Z' {
        ((c as u32) + 32) as char
    } else {
        c
    }
}

/// The position of the letter `c` in the alphabet, counted from zero, whatever its case.
pub open spec fn letter_rank(c: char) -> int {
    lower(c) as int - 'a' as int
}

/// The mask with the single bit of the letter `c`.
pub open spec fn letter_bit(c: char) -> u32 {
    1u32 << (letter_rank(c) as u32)
}

/// Every character of `word` is an ASCII letter.
pub open spec fn all_letters(word: Seq<char>) -> bool {
    forall|i: int| 0 <= i < word.len() ==> is_letter(#[trigger] word[i])
}

/// The mask of a word: the bits of all its letters.
pub open spec fn word_mask(word: Seq<char>) -> u32
    decreases word.len(),
{
    if word.len() == 0 {
        0
    } else {
        word_mask(word.drop_last()) | letter_bit(word.last())
    }
}

/// `char::to_ascii_lowercase`: maps 'A'..='Z' to 'a'..='z' and returns every other
/// character unchanged.
pub assume_specification[ char::to_ascii_lowercase ](c: &char) -> (r: char)
    ensures
        r == lower(*c),
;

/// `char::is_ascii_alphabetic`: true exactly for 'A'..='Z' and 'a'..='z'.
pub assume_specification[ char::is_ascii_alphabetic ](c: &char) -> (r: bool)
    ensures
        r == is_letter(*c),
;

/// The single-bit mask of a letter: bit 0 for 'a' or 'A', up to bit 25 for 'z' or 'Z'.
pub fn pattern_bit(ch: char) -> (bit: u32)
    requires
        is_letter(ch),
    ensures
        bit == letter_bit(ch),
{
    let ch = ch.to_ascii_lowercase();
    let index = ch as usize - 'a' as usize;
    1_u32 << index
}

/// The mask of a word made of letters only.
pub fn pattern(word: &str) -> (mask: u32)
    requires
        all_letters(word@),
    ensures
        mask == word_mask(word@),
{
    let mut mask: u32 = 0;
    let chars = word.chars();
    proof {
        vstd::string::axiom_spec_iter(word);
    }
    for ch in it: chars
        invariant
            it.seq() == word@,
            all_letters(word@),
            mask == word_mask(word@.take(it.index())),
    {
        assert(word@.take(it.index() + 1).drop_last() == word@.take(it.index()));
        mask = mask | pattern_bit(ch);
    }
    assert(word@.take(word@.len() as int) == word@);
    mask
}

/// No letter occurs twice in `word`, whatever its case.
pub open spec fn distinct_letters(word: Seq<char>) -> bool {
    forall|i: int, j: int|
        0 <= i < j < word.len() ==> letter_rank(#[trigger] word[i]) != letter_rank(
            #[trigger] word[j],
        )
}

/// A word is eligible when it has exactly `WORD_LENGTH` characters, all of them ASCII
/// letters, and no letter twice.
pub open spec fn eligible(word: Seq<char>) -> bool {
    &&& word.len() == WORD_LENGTH
    &&& all_letters(word)
    &&& distinct_letters(word)
}

/// The word with every character in its ASCII lower-case form.
pub open spec fn lowercase(word: Seq<char>) -> Seq<char> {
    word.map_values(|c: char| lower(c))
}

/// `str::to_ascii_lowercase`: a copy of the string with each character mapped to its
/// ASCII lower-case form.
pub assume_specification[ str::to_ascii_lowercase ](s: &str) -> (r: String)
    ensures
        r@ == lowercase(s@),
;

/// A letter's rank lies in the alphabet.
pub proof fn lemma_rank_in_alphabet(c: char)
    requires
        is_letter(c),
    ensures
        0 <= letter_rank(c) < 26,
        is_letter(lower(c)),
        letter_rank(lower(c)) == letter_rank(c),
{
}

/// The mask of a word holds the bit of rank `r` exactly when a letter of that rank
/// occurs in the word.
pub proof fn lemma_mask_has_letter(word: Seq<char>, r: u32)
    requires
        all_letters(word),
        r < 32,
    ensures
        (word_mask(word) & (1u32 << r) != 0) <==> exists|i: int|
            0 <= i < word.len() && letter_rank(#[trigger] word[i]) == r,
    decreases word.len(),
{
    if word.len() == 0 {
        lemma_bits_overlap(r, r);
    } else {
        let front = word.drop_last();
        let c = word.last();
        lemma_rank_in_alphabet(c);
        let rc = letter_rank(c) as u32;
        lemma_mask_has_letter(front, r);
        lemma_union_has_bit(word_mask(front), letter_bit(c), r);
        lemma_bits_overlap(rc, r);
        if word_mask(word) & (1u32 << r) != 0 {
            if word_mask(front) & (1u32 << r) != 0 {
                let i = choose|i: int|
                    0 <= i < front.len() && letter_rank(#[trigger] front[i]) == r;
                assert(letter_rank(word[i]) == r);
            } else {
                assert(letter_rank(word[word.len() - 1]) == r);
            }
        }
        if exists|i: int| 0 <= i < word.len() && letter_rank(#[trigger] word[i]) == r {
            let i = choose|i: int| 0 <= i < word.len() && letter_rank(#[trigger] word[i]) == r;
            if i < front.len() {
                assert(letter_rank(front[i]) == r);
            }
        }
    }
}

/// The mask of a word has at most as many bits as the word has letters, and exactly as
/// many when no letter occurs twice.
pub proof fn lemma_mask_count(word: Seq<char>)
    requires
        all_letters(word),
    ensures
        bit_count(word_mask(word)) <= word.len(),
        bit_count(word_mask(word)) == word.len() <==> distinct_letters(word),
    decreases word.len(),
{
    if word.len() > 0 {
        let front = word.drop_last();
        let c = word.last();
        lemma_rank_in_alphabet(c);
        let rc = letter_rank(c) as u32;
        lemma_mask_count(front);
        lemma_mask_has_letter(front, rc);
        lemma_bit_count_set(word_mask(front), rc);
        let fresh = word_mask(front) & (1u32 << rc) == 0;
        if distinct_letters(word) {
            assert forall|i: int, j: int| 0 <= i < j < front.len() implies letter_rank(
                #[trigger] front[i],
            ) != letter_rank(#[trigger] front[j]) by {
                assert(letter_rank(word[i]) != letter_rank(word[j]));
            }
            if !fresh {
                let i = choose|i: int|
                    0 <= i < front.len() && letter_rank(#[trigger] front[i]) == rc;
                assert(letter_rank(word[i]) != letter_rank(word[word.len() - 1]));
            }
        }
        if distinct_letters(front) && fresh {
            assert forall|i: int, j: int| 0 <= i < j < word.len() implies letter_rank(
                #[trigger] word[i],
            ) != letter_rank(#[trigger] word[j]) by {
                if j < front.len() {
                    assert(letter_rank(front[i]) != letter_rank(front[j]));
                } else {
                    assert(letter_rank(front[i]) != rc);
                }
            }
        }
    }
}

/// `m` is the mask of `WORD_LENGTH` different letters of the alphabet.
pub open spec fn is_word_mask(m: u32) -> bool {
    bit_count(m) == WORD_LENGTH && m < alphabet_end()
}

/// Every mask of `masks` is the mask of `WORD_LENGTH` different letters.
pub open spec fn all_word_masks(masks: Seq<u32>) -> bool {
    forall|i: int| 0 <= i < masks.len() ==> is_word_mask(#[trigger] masks[i])
}

/// The mask of a word of letters holds letters of the alphabet only.
pub proof fn lemma_mask_in_alphabet(word: Seq<char>)
    requires
        all_letters(word),
    ensures
        word_mask(word) < alphabet_end(),
    decreases word.len(),
{
    if word.len() > 0 {
        lemma_mask_in_alphabet(word.drop_last());
        lemma_rank_in_alphabet(word.last());
        lemma_alphabet_masks(
            word_mask(word.drop_last()),
            letter_bit(word.last()),
            letter_rank(word.last()) as u32,
        );
    }
}

/// The mask of an eligible word is a word mask.
pub proof fn lemma_eligible_mask(word: Seq<char>)
    requires
        eligible(word),
    ensures
        is_word_mask(word_mask(word)),
{
    lemma_mask_count(word);
    lemma_mask_in_alphabet(word);
}

/// Case does not change a word's mask, nor whether it is eligible.
pub proof fn lemma_lowercase_keeps_mask(word: Seq<char>)
    requires
        all_letters(word),
    ensures
        all_letters(lowercase(word)),
        word_mask(lowercase(word)) == word_mask(word),
        distinct_letters(word) <==> distinct_letters(lowercase(word)),
        lowercase(lowercase(word)) == lowercase(word),
    decreases word.len(),
{
    let low = lowercase(word);
    assert forall|i: int| 0 <= i < low.len() implies is_letter(#[trigger] low[i]) by {
        lemma_rank_in_alphabet(word[i]);
    }
    assert forall|i: int| 0 <= i < low.len() implies letter_rank(#[trigger] low[i])
        == letter_rank(word[i]) by {
        lemma_rank_in_alphabet(word[i]);
    }
    if distinct_letters(word) {
        assert forall|i: int, j: int| 0 <= i < j < low.len() implies letter_rank(
            #[trigger] low[i],
        ) != letter_rank(#[trigger] low[j]) by {
            assert(letter_rank(word[i]) != letter_rank(word[j]));
        }
    }
    if distinct_letters(low) {
        assert forall|i: int, j: int| 0 <= i < j < word.len() implies letter_rank(
            #[trigger] word[i],
        ) != letter_rank(#[trigger] word[j]) by {
            assert(letter_rank(low[i]) != letter_rank(low[j]));
        }
    }
    assert(lowercase(low) =~= low) by {
        assert forall|i: int| 0 <= i < low.len() implies lower(low[i]) == low[i] by {
            lemma_rank_in_alphabet(word[i]);
        }
    }
    if word.len() > 0 {
        lemma_lowercase_keeps_mask(word.drop_last());
        assert(low.drop_last() =~= lowercase(word.drop_last()));
        assert(letter_rank(low.last()) == letter_rank(word.last()));
    }
}

/// The lower-case form of an eligible word, and nothing for any other line.
///
/// A line is rejected when it does not have `WORD_LENGTH` characters (or bytes, which
/// is the same for a word of ASCII letters), when one of them is no ASCII letter, or
/// when a letter occurs twice, in whatever case.
pub fn canonical_words(word: &str) -> (canonical: Option<String>)
    ensures
        canonical is Some <==> eligible(word@),
        word@.len() != WORD_LENGTH || word.spec_bytes().len() != WORD_LENGTH ==> canonical is None,
        !all_letters(word@) ==> canonical is None,
        all_letters(word@) && !distinct_letters(word@) ==> canonical is None,
        canonical matches Some(w) ==> {
            &&& w@ == lowercase(word@)
            &&& eligible(w@)
            &&& word_mask(w@) == word_mask(word@)
            &&& bit_count(word_mask(w@)) == WORD_LENGTH
            &&& is_word_mask(word_mask(w@))
        },
{
    broadcast use vstd::string::is_ascii_spec_bytes;

    if word.as_bytes().len() != WORD_LENGTH {
        assert(!eligible(word@)) by {
            if eligible(word@) {
                assert(vstd::string::is_ascii(word));
            }
        }
        return None;
    }
    assert(word.spec_bytes().len() == WORD_LENGTH);
    let chars = word.chars();
    proof {
        vstd::string::axiom_spec_iter(word);
    }
    for ch in it: chars
        invariant
            it.seq() == word@,
            forall|i: int| 0 <= i < it.index() ==> is_letter(#[trigger] word@[i]),
    {
        if !ch.is_ascii_alphabetic() {
            return None;
        }
    }
    assert(all_letters(word@));
    assert(vstd::string::is_ascii(word));
    assert(word.spec_bytes().len() == word@.len());
    proof {
        lemma_mask_count(word@);
        lemma_mask_in_alphabet(word@);
        lemma_lowercase_keeps_mask(word@);
    }
    if pattern(word).count_ones() != WORD_LENGTH as u32 {
        return None;
    }
    Some(word.to_ascii_lowercase())
}

} // verus!
