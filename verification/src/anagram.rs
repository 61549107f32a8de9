//! Anagram groups: the words that share a mask, and the masks that occur.
use std::collections::HashMap;
use std::collections::HashSet;
use vstd::prelude::*;
use crate::encode::{all_letters, eligible, pattern, word_mask};

verus! {

/// The words of a vector of strings, each as its sequence of characters.
pub open spec fn word_views(words: Seq<String>) -> Seq<Seq<char>> {
    words.map_values(|w: String| w@)
}

/// The masks of the words, in the order of the words.
pub open spec fn word_masks(words: Seq<Seq<char>>) -> Seq<u32> {
    words.map_values(|w: Seq<char>| word_mask(w))
}

/// Every word consists of ASCII letters only.
pub open spec fn all_words_of_letters(words: Seq<Seq<char>>) -> bool {
    forall|i: int| 0 <= i < words.len() ==> all_letters(#[trigger] words[i])
}

/// Every word is eligible.
pub open spec fn all_eligible(words: Seq<Seq<char>>) -> bool {
    forall|i: int| 0 <= i < words.len() ==> eligible(#[trigger] words[i])
}

/// The test that a word has the mask `mask`.
pub open spec fn has_mask(mask: u32) -> spec_fn(Seq<char>) -> bool {
    |w: Seq<char>| word_mask(w) == mask
}

/// The words with the mask `mask`, in the order of `words`.
pub open spec fn anagrams_of(words: Seq<Seq<char>>, mask: u32) -> Seq<Seq<char>> {
    words.filter(has_mask(mask))
}

/// The anagram groups of `words`: each mask that occurs among the words leads to the
/// words that have it, in the order in which they were given.
pub open spec fn anagram_map(words: Seq<Seq<char>>) -> Map<u32, Seq<Seq<char>>> {
    Map::new(|m: u32| word_masks(words).contains(m), |m: u32| anagrams_of(words, m))
}

/// The groups of a hash map of word lists, each word as its sequence of characters.
pub open spec fn anagram_view(groups: Map<u32, Vec<String>>) -> Map<u32, Seq<Seq<char>>> {
    groups.map_values(|g: Vec<String>| word_views(g@))
}

/// Taking one more word adds it at the end of the group of its mask.
pub proof fn lemma_anagram_map_push(words: Seq<Seq<char>>, word: Seq<char>)
    ensures
        anagram_map(words.push(word)) == anagram_map(words).insert(
            word_mask(word),
            anagrams_of(words, word_mask(word)).push(word),
        ),
        !word_masks(words).contains(word_mask(word)) ==> anagrams_of(words, word_mask(word))
            == Seq::<Seq<char>>::empty(),
{
    let mask = word_mask(word);
    let more = words.push(word);
    let grown = anagram_map(words).insert(mask, anagrams_of(words, mask).push(word));
    assert forall|m: u32| word_masks(more).contains(m) <==> (word_masks(words).contains(m) || m
        == mask) by {
        if word_masks(more).contains(m) {
            let i = choose|i: int| 0 <= i < more.len() && word_masks(more)[i] == m;
            if i < words.len() {
                assert(word_masks(words)[i] == m);
            }
        }
        if word_masks(words).contains(m) {
            let i = choose|i: int| 0 <= i < words.len() && word_masks(words)[i] == m;
            assert(word_masks(more)[i] == m);
        }
        if m == mask {
            assert(word_masks(more)[words.len() as int] == m);
        }
    }
    assert forall|m: u32| #[trigger] anagrams_of(more, m) == if m == mask {
        anagrams_of(words, m).push(word)
    } else {
        anagrams_of(words, m)
    } by {
        words.lemma_filter_push(word, has_mask(m));
    }
    assert(anagram_map(more) =~= grown);
    if !word_masks(words).contains(mask) {
        assert forall|i: int| 0 <= i < words.len() implies !has_mask(mask)(words[i]) by {
            assert(word_masks(words)[i] == word_mask(words[i]));
        }
        words.lemma_all_neg_filter_empty(has_mask(mask));
    }
}

/// Groups the words by their mask: the words of one group are anagrams of each other,
/// and stand in the group in the order in which they were given.
pub fn group_anagrams(words: &[String]) -> (groups: HashMap<u32, Vec<String>>)
    requires
        all_words_of_letters(word_views(words@)),
    ensures
        anagram_view(groups@) == anagram_map(word_views(words@)),
{
    broadcast use vstd::std_specs::hash::group_hash_axioms;

    let mut groups: HashMap<u32, Vec<String>> = HashMap::new();
    let mut i: usize = 0;
    assert(anagram_view(groups@) =~= anagram_map(word_views(words@).take(0)));
    while i < words.len()
        invariant
            i <= words.len(),
            all_words_of_letters(word_views(words@)),
            anagram_view(groups@) == anagram_map(word_views(words@).take(i as int)),
        decreases words.len() - i,
    {
        let word = &words[i];
        let ghost before = groups@;
        let ghost seen = word_views(words@).take(i as int);
        assert(word@ == word_views(words@)[i as int]);
        let pattern = pattern(word.as_str());
        groups.entry(pattern).or_insert(Vec::new()).push(word.clone());
        proof {
            lemma_anagram_map_push(seen, word@);
            assert(word_views(words@).take(i + 1) =~= seen.push(word@));
            let group = if before.contains_key(pattern) {
                before[pattern]@
            } else {
                Seq::<String>::empty()
            };
            assert(groups@ == before.insert(pattern, groups@[pattern]));
            assert(groups@[pattern]@ == group.push(*word));
            assert(anagram_view(before).contains_key(pattern) == before.contains_key(pattern));
            assert(word_views(group.push(*word)) =~= word_views(group).push(word@));
            if before.contains_key(pattern) {
                assert(anagram_view(before)[pattern] == word_views(group));
            } else {
                assert(!anagram_map(seen).contains_key(pattern));
                assert(word_views(group) =~= Seq::<Seq<char>>::empty());
            }
            assert(word_views(group) == anagrams_of(seen, pattern));
            assert(anagram_view(groups@) =~= anagram_view(before).insert(
                pattern,
                word_views(groups@[pattern]@),
            ));
        }
        i += 1;
    }
    assert(word_views(words@).take(words.len() as int) =~= word_views(words@));
    groups
}

/// The masks of `masks`, each once, in the order in which they first occur.
pub open spec fn first_seen(masks: Seq<u32>) -> Seq<u32>
    decreases masks.len(),
{
    if masks.len() == 0 {
        Seq::empty()
    } else {
        let front = first_seen(masks.drop_last());
        if front.contains(masks.last()) {
            front
        } else {
            front.push(masks.last())
        }
    }
}

/// `first_seen` holds no mask twice, and holds exactly the masks that occur.
pub proof fn lemma_first_seen(masks: Seq<u32>)
    ensures
        first_seen(masks).no_duplicates(),
        forall|m: u32|
            #![trigger first_seen(masks).contains(m)]
            #![trigger masks.contains(m)]
            first_seen(masks).contains(m) <==> masks.contains(m),
    decreases masks.len(),
{
    if masks.len() > 0 {
        let front = masks.drop_last();
        let last = masks.last();
        let kept = first_seen(front);
        lemma_first_seen(front);
        assert forall|m: u32|
            #![trigger first_seen(masks).contains(m)]
            #![trigger masks.contains(m)]
            first_seen(masks).contains(m) <==> masks.contains(m) by {
            assert(kept.contains(m) <==> front.contains(m));
            if first_seen(masks).contains(m) {
                let i = choose|i: int| 0 <= i < first_seen(masks).len() && first_seen(masks)[i] == m;
                if i < kept.len() {
                    assert(kept[i] == m);
                    assert(kept.contains(m));
                    let j = choose|j: int| 0 <= j < front.len() && front[j] == m;
                    assert(masks[j] == m);
                } else {
                    assert(masks[masks.len() - 1] == m);
                }
            }
            if masks.contains(m) {
                let j = choose|j: int| 0 <= j < masks.len() && masks[j] == m;
                if j < front.len() {
                    assert(front[j] == m);
                    assert(kept.contains(m));
                    let i = choose|i: int| 0 <= i < kept.len() && kept[i] == m;
                    assert(first_seen(masks)[i] == m);
                } else if kept.contains(last) {
                } else {
                    assert(first_seen(masks)[kept.len() as int] == m);
                }
            }
        }
    }
}

/// The masks of the words, each once, in the order in which they first occur.
pub fn distinct_masks(words: &[String]) -> (masks: Vec<u32>)
    requires
        all_words_of_letters(word_views(words@)),
    ensures
        masks@ == first_seen(word_masks(word_views(words@))),
        masks@.no_duplicates(),
        forall|m: u32| masks@.contains(m) <==> anagram_map(word_views(words@)).contains_key(m),
{
    broadcast use vstd::std_specs::hash::group_hash_axioms;

    let ghost all = word_masks(word_views(words@));
    let mut seen: HashSet<u32> = HashSet::new();
    let mut masks: Vec<u32> = Vec::new();
    let mut i: usize = 0;
    while i < words.len()
        invariant
            i <= words.len(),
            all == word_masks(word_views(words@)),
            all_words_of_letters(word_views(words@)),
            masks@ == first_seen(all.take(i as int)),
            seen@ == masks@.to_set(),
        decreases words.len() - i,
    {
        assert(words[i as int]@ == word_views(words@)[i as int]);
        let mask = pattern(words[i].as_str());
        proof {
            assert(all.take(i + 1).drop_last() == all.take(i as int));
            assert(all.take(i + 1).last() == mask);
        }
        if seen.insert(mask) {
            masks.push(mask);
            proof {
                first_seen(all.take(i as int)).lemma_push_to_set_commute(mask);
            }
        }
        i += 1;
    }
    proof {
        assert(all.take(words.len() as int) == all);
        lemma_first_seen(all);
    }
    masks
}

/// The words of the groups of `keys`, one group after the other.
pub open spec fn concat_groups(groups: Map<u32, Seq<Seq<char>>>, keys: Seq<u32>) -> Seq<
    Seq<char>,
>
    decreases keys.len(),
{
    if keys.len() == 0 {
        Seq::empty()
    } else {
        concat_groups(groups, keys.drop_last()) + groups[keys.last()]
    }
}

/// The test that the mask of a word is one of `keys`.
pub open spec fn mask_among(keys: Seq<u32>) -> spec_fn(Seq<char>) -> bool {
    |w: Seq<char>| keys.contains(word_mask(w))
}

/// A filter that keeps every word changes nothing.
proof fn lemma_filter_keeps_all(words: Seq<Seq<char>>, keep: spec_fn(Seq<char>) -> bool)
    requires
        forall|i: int| 0 <= i < words.len() ==> keep(#[trigger] words[i]),
    ensures
        words.filter(keep) == words,
    decreases words.len(),
{
    if words.len() == 0 {
        words.lemma_filter_len(keep);
        assert(words.filter(keep) =~= words);
    } else {
        let front = words.drop_last();
        assert forall|i: int| 0 <= i < front.len() implies keep(#[trigger] front[i]) by {
            assert(keep(words[i]));
        }
        lemma_filter_keeps_all(front, keep);
        front.lemma_filter_push(words.last(), keep);
        assert(words == front.push(words.last()));
    }
}

/// Two tests that never both hold split what their disjunction keeps.
proof fn lemma_filter_splits(
    words: Seq<Seq<char>>,
    p: spec_fn(Seq<char>) -> bool,
    q: spec_fn(Seq<char>) -> bool,
    either: spec_fn(Seq<char>) -> bool,
)
    requires
        forall|w: Seq<char>| #[trigger] either(w) == (p(w) || q(w)),
        forall|w: Seq<char>| !(#[trigger] p(w) && q(w)),
    ensures
        words.filter(either).to_multiset() == words.filter(p).to_multiset().add(
            words.filter(q).to_multiset(),
        ),
    decreases words.len(),
{
    broadcast use vstd::multiset::group_multiset_axioms;

    if words.len() == 0 {
        words.lemma_filter_len(either);
        words.lemma_filter_len(p);
        words.lemma_filter_len(q);
        words.filter(either).to_multiset_ensures();
        words.filter(p).to_multiset_ensures();
        words.filter(q).to_multiset_ensures();
        assert(words.filter(either).to_multiset() =~= words.filter(p).to_multiset().add(
            words.filter(q).to_multiset(),
        ));
    } else {
        let front = words.drop_last();
        let last = words.last();
        lemma_filter_splits(front, p, q, either);
        assert(words == front.push(last));
        front.lemma_filter_push(last, either);
        front.lemma_filter_push(last, p);
        front.lemma_filter_push(last, q);
        assert(either(last) == (p(last) || q(last)));
        assert(!(p(last) && q(last)));
        vstd::seq_lib::to_multiset_build(front.filter(either), last);
        vstd::seq_lib::to_multiset_build(front.filter(p), last);
        vstd::seq_lib::to_multiset_build(front.filter(q), last);
        assert(words.filter(either).to_multiset() =~= words.filter(p).to_multiset().add(
            words.filter(q).to_multiset(),
        ));
    }
}

/// The groups of keys that are pairwise different hold, taken together, the words whose
/// mask is one of the keys, each as often as it was given.
proof fn lemma_concat_groups(words: Seq<Seq<char>>, keys: Seq<u32>)
    requires
        keys.no_duplicates(),
        forall|i: int| 0 <= i < keys.len() ==> anagram_map(words).contains_key(#[trigger] keys[i]),
    ensures
        concat_groups(anagram_map(words), keys).to_multiset() == words.filter(
            mask_among(keys),
        ).to_multiset(),
    decreases keys.len(),
{
    broadcast use vstd::multiset::group_multiset_axioms;

    let groups = anagram_map(words);
    if keys.len() == 0 {
        assert forall|i: int| 0 <= i < words.len() implies !mask_among(keys)(
            #[trigger] words[i],
        ) by {}
        words.lemma_all_neg_filter_empty(mask_among(keys));
        assert(concat_groups(groups, keys) =~= words.filter(mask_among(keys)));
    } else {
        let front = keys.drop_last();
        let key = keys.last();
        assert forall|i: int| 0 <= i < front.len() implies groups.contains_key(
            #[trigger] front[i],
        ) by {
            assert(front[i] == keys[i]);
        }
        lemma_concat_groups(words, front);
        assert(groups.contains_key(keys[keys.len() - 1]));
        assert(groups[key] == words.filter(has_mask(key)));
        vstd::seq_lib::lemma_multiset_commutative(concat_groups(groups, front), groups[key]);
        assert forall|w: Seq<char>| #[trigger]
            mask_among(keys)(w) == (mask_among(front)(w) || has_mask(key)(w)) by {
            let m = word_mask(w);
            if keys.contains(m) {
                let i = choose|i: int| 0 <= i < keys.len() && keys[i] == m;
                if i < front.len() {
                    assert(front[i] == m);
                }
            }
            if front.contains(m) {
                let i = choose|i: int| 0 <= i < front.len() && front[i] == m;
                assert(keys[i] == m);
            }
            if m == key {
                assert(keys[keys.len() - 1] == m);
            }
        }
        assert forall|w: Seq<char>| !(#[trigger] mask_among(front)(w) && has_mask(key)(w)) by {
            let m = word_mask(w);
            if front.contains(m) && m == key {
                let i = choose|i: int| 0 <= i < front.len() && front[i] == m;
                assert(keys[i] == keys[keys.len() - 1]);
            }
        }
        lemma_filter_splits(words, mask_among(front), has_mask(key), mask_among(keys));
    }
}

/// Grouping is a partition of the words. Each word stands in the group of its own mask
/// and in no other; and the groups, taken once each in any order, hold together what
/// was given: every word as often as it occurs among `words`.
pub proof fn lemma_groups_partition_words(words: Seq<Seq<char>>, keys: Seq<u32>)
    requires
        keys.no_duplicates(),
        forall|m: u32| keys.contains(m) <==> anagram_map(words).contains_key(m),
    ensures
        concat_groups(anagram_map(words), keys).to_multiset() == words.to_multiset(),
        forall|i: int, m: u32|
            0 <= i < words.len() ==> (#[trigger] anagram_map(words).contains_key(m)
                && anagram_map(words)[m].contains(#[trigger] words[i]) <==> m == word_mask(
                words[i],
            )),
{
    assert forall|i: int| 0 <= i < keys.len() implies anagram_map(words).contains_key(
        #[trigger] keys[i],
    ) by {
        assert(keys.contains(keys[i]));
    }
    lemma_concat_groups(words, keys);
    assert forall|i: int| 0 <= i < words.len() implies mask_among(keys)(#[trigger] words[i]) by {
        assert(word_masks(words)[i] == word_mask(words[i]));
        assert(word_masks(words).contains(word_mask(words[i])));
    }
    lemma_filter_keeps_all(words, mask_among(keys));
    assert forall|i: int, m: u32| 0 <= i < words.len() implies (#[trigger] anagram_map(
        words,
    ).contains_key(m) && anagram_map(words)[m].contains(#[trigger] words[i]) <==> m == word_mask(
        words[i],
    )) by {
        let own = word_mask(words[i]);
        assert(word_masks(words)[i] == own);
        if anagram_map(words).contains_key(m) && anagram_map(words)[m].contains(words[i]) {
            let group = words.filter(has_mask(m));
            let k = choose|k: int| 0 <= k < group.len() && group[k] == words[i];
            words.lemma_filter_pred(has_mask(m), k);
        }
        if m == own {
            assert(has_mask(m)(words[i]));
            words.lemma_filter_contains(has_mask(m), i);
        }
    }
}

} // verus!
