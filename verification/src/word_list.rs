//! The word list: the eligible words among the lines of a text.
use vstd::prelude::*;
use crate::anagram::word_views;
use crate::encode::{canonical_words, eligible, lowercase};

verus! {

/// The lines of a text, without their line endings, as `str::lines` yields them.
pub uninterp spec fn text_lines(text: Seq<char>) -> Seq<Seq<char>>;

/// `str::lines`: the lines of the text, each as a string of its own. A line ends at a
/// line feed, with or without a carriage return before it; the ending is not part of
/// the line, and the last line needs none.
#[verifier::external_body]
fn lines_of(text: &str) -> (lines: Vec<String>)
    ensures
        word_views(lines@) == text_lines(text@),
{
    text.lines().map(String::from).collect()
}

/// What a line contributes to the word list: its lower-case form if it is an eligible
/// word, and nothing otherwise.
pub open spec fn canonical_of(line: Seq<char>) -> Option<Seq<char>> {
    if eligible(line) {
        Some(lowercase(line))
    } else {
        None
    }
}

/// The eligible words among the lines, in lower case and in the order of the lines.
pub open spec fn canonical_list(lines: Seq<Seq<char>>) -> Seq<Seq<char>> {
    lines.filter_map(|line: Seq<char>| canonical_of(line))
}

/// The eligible words among the lines, in lower case and in the order of the lines;
/// every other line is dropped.
pub fn canonical_word_list(lines: &[String]) -> (words: Vec<String>)
    ensures
        word_views(words@) == canonical_list(word_views(lines@)),
        forall|i: int| 0 <= i < words.len() ==> eligible(#[trigger] words[i]@),
{
    let ghost all = word_views(lines@);
    let ghost keep = |line: Seq<char>| canonical_of(line);
    let mut words: Vec<String> = Vec::new();
    let mut i: usize = 0;
    while i < lines.len()
        invariant
            i <= lines.len(),
            all == word_views(lines@),
            keep == |line: Seq<char>| canonical_of(line),
            word_views(words@) == all.take(i as int).filter_map(keep),
            forall|j: int| 0 <= j < words.len() ==> eligible(#[trigger] words[j]@),
        decreases lines.len() - i,
    {
        let ghost before = words@;
        proof {
            all.lemma_filter_map_take_succ(keep, i as int);
            assert(all[i as int] == lines[i as int]@);
        }
        match canonical_words(lines[i].as_str()) {
            Some(word) => {
                words.push(word);
                assert(word_views(words@) =~= word_views(before) + seq![word@]);
            },
            None => {},
        }
        i += 1;
    }
    assert(all.take(lines.len() as int) == all);
    words
}

/// The eligible words of a text that holds one candidate on each line, in lower case
/// and in the order of the lines.
pub fn eligible_words(text: &str) -> (words: Vec<String>)
    ensures
        word_views(words@) == canonical_list(text_lines(text@)),
        forall|i: int| 0 <= i < words.len() ==> eligible(#[trigger] words[i]@),
{
    let lines = lines_of(text);
    canonical_word_list(lines.as_slice())
}

} // verus!
