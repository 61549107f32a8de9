//! The search is exhaustive: it reports every set that its search space can lead to,
//! and over word masks that is every set of pairwise disjoint masks.
use vstd::prelude::*;
use crate::{LETTER_COUNT, SET_SIZE, WORD_LENGTH};
use crate::encode::{all_word_masks, is_word_mask};
use crate::bits::{
    bit_count, disjoint, lemma_bit_count_bound, lemma_bit_count_disjoint, lemma_bit_count_set,
    lemma_bit_not_empty, lemma_bit_of_disjoint, lemma_bits_overlap, lemma_disjoint_union,
    alphabet_end, lemma_alphabet_masks, lemma_has_bit, lemma_meets_union, lemma_share_bit,
    lemma_union_avoids,
    lemma_within_disjoint, lemma_within_grows, lemma_within_own_union, single_bit, within,
};
use crate::search::{all_solutions, next_group, search, search_candidates};
use crate::search_lemmas::{all_within, pairwise_disjoint};
use crate::space::{
    goes_before, has_letters, is_letter_group, is_search_space_for, rank_bit, shares_letter,
    LetterGroupView,
};

verus! {

/// Some mask of `s` contains the letter.
pub open spec fn covers(s: Seq<u32>, letter: u32) -> bool {
    exists|i: int| 0 <= i < s.len() && !disjoint(letter, #[trigger] s[i])
}

/// `list` holds a solution with exactly the masks of `s`, in whatever order.
pub open spec fn finds(list: Seq<Seq<u32>>, s: Seq<u32>) -> bool {
    exists|n: int| 0 <= n < list.len() && (#[trigger] list[n]).to_set() == s.to_set()
}

/// Some group of the search space has a letter of `m`.
pub open spec fn has_group(groups: Seq<LetterGroupView>, m: u32) -> bool {
    exists|g: int| 0 <= g < groups.len() && !disjoint((#[trigger] groups[g]).letter, m)
}

/// `s` is a set of `SET_SIZE` pairwise disjoint masks that the search space can
/// lead to: each mask has a letter with a group and stands in the group of each of its
/// letters, and at most one group has a letter that no mask of `s` contains.
pub open spec fn reachable(groups: Seq<LetterGroupView>, s: Seq<u32>) -> bool {
    &&& s.len() == SET_SIZE
    &&& pairwise_disjoint(s)
    &&& forall|g: int| 0 <= g < groups.len() ==> single_bit((#[trigger] groups[g]).letter)
    &&& forall|i: int| 0 <= i < s.len() ==> has_group(groups, #[trigger] s[i])
    &&& forall|i: int, g: int|
        0 <= i < s.len() && 0 <= g < groups.len() && !disjoint(
            (#[trigger] groups[g]).letter,
            #[trigger] s[i],
        ) ==> groups[g].words.contains(s[i])
    &&& forall|g: int, h: int|
        0 <= g < groups.len() && 0 <= h < groups.len() && !covers(
            s,
            (#[trigger] groups[g]).letter,
        ) && !covers(s, (#[trigger] groups[h]).letter) ==> g == h
}

/// The state of the search can still lead to `s`: the masks chosen are masks of `s`,
/// the other masks of `s` avoid the letters spoken for, every group before `idx` is
/// spoken for, and once the skip is spent every letter that `s` leaves out is too.
pub open spec fn on_track(
    groups: Seq<LetterGroupView>,
    s: Seq<u32>,
    idx: int,
    partial: Seq<u32>,
    used: u32,
    can_skip: bool,
) -> bool {
    &&& partial.no_duplicates()
    &&& forall|i: int| 0 <= i < partial.len() ==> s.contains(#[trigger] partial[i])
    &&& all_within(partial, used)
    &&& forall|i: int|
        0 <= i < s.len() && !partial.contains(s[i]) ==> disjoint(used, #[trigger] s[i])
    &&& forall|g: int|
        0 <= g < idx && g < groups.len() ==> !disjoint(used, (#[trigger] groups[g]).letter)
    &&& !can_skip ==> forall|g: int|
        0 <= g < groups.len() && !covers(s, groups[g].letter) ==> !disjoint(
            used,
            (#[trigger] groups[g]).letter,
        )
}

/// What one of two lists holds, the two lists joined hold.
proof fn lemma_finds_in_concat(a: Seq<Seq<u32>>, b: Seq<Seq<u32>>, s: Seq<u32>)
    requires
        finds(a, s) || finds(b, s),
    ensures
        finds(a + b, s),
{
    let all = a + b;
    if finds(a, s) {
        let n = choose|n: int| 0 <= n < a.len() && (#[trigger] a[n]).to_set() == s.to_set();
        assert(all[n] == a[n]);
    } else {
        let n = choose|n: int| 0 <= n < b.len() && (#[trigger] b[n]).to_set() == s.to_set();
        assert(all[a.len() + n] == b[n]);
    }
}

/// What the search finds through candidate `k` of group `g`, it finds from any
/// candidate at or before `k`.
proof fn lemma_candidates_find_branch(
    groups: Seq<LetterGroupView>,
    g: int,
    from: int,
    k: int,
    partial: Seq<u32>,
    used: u32,
    can_skip: bool,
    s: Seq<u32>,
)
    requires
        0 <= g < groups.len(),
        0 <= from <= k < groups[g].words.len(),
        disjoint(used, groups[g].words[k]),
        finds(
            search(
                groups,
                g + 1,
                partial.push(groups[g].words[k]),
                used | groups[g].words[k],
                can_skip,
            ),
            s,
        ),
    ensures
        finds(search_candidates(groups, g, from, partial, used, can_skip), s),
    decreases k - from,
{
    let w = groups[g].words[from];
    let through = if used & w == 0 {
        search(groups, g + 1, partial.push(w), used | w, can_skip)
    } else {
        Seq::empty()
    };
    let rest = search_candidates(groups, g, from + 1, partial, used, can_skip);
    assert(search_candidates(groups, g, from, partial, used, can_skip) == through + rest);
    if from < k {
        lemma_candidates_find_branch(groups, g, from + 1, k, partial, used, can_skip, s);
    }
    lemma_finds_in_concat(through, rest, s);
}

/// What the search finds after leaving out the letter of group `g`, it finds from any
/// candidate of `g`.
proof fn lemma_candidates_find_skip(
    groups: Seq<LetterGroupView>,
    g: int,
    from: int,
    partial: Seq<u32>,
    used: u32,
    s: Seq<u32>,
)
    requires
        0 <= g < groups.len(),
        0 <= from,
        finds(search(groups, g + 1, partial, used | groups[g].letter, false), s),
    ensures
        finds(search_candidates(groups, g, from, partial, used, true), s),
    decreases groups[g].words.len() - from,
{
    if from < groups[g].words.len() {
        let w = groups[g].words[from];
        let through = if used & w == 0 {
            search(groups, g + 1, partial.push(w), used | w, true)
        } else {
            Seq::empty()
        };
        let rest = search_candidates(groups, g, from + 1, partial, used, true);
        assert(search_candidates(groups, g, from, partial, used, true) == through + rest);
        lemma_candidates_find_skip(groups, g, from + 1, partial, used, s);
        lemma_finds_in_concat(through, rest, s);
    }
}

/// The masks of a reachable set are pairwise different.
proof fn lemma_reachable_no_duplicates(groups: Seq<LetterGroupView>, s: Seq<u32>)
    requires
        reachable(groups, s),
    ensures
        s.no_duplicates(),
{
    assert forall|i: int, j: int| 0 <= i < s.len() && 0 <= j < s.len() && i != j implies s[i]
        != s[j] by {
        assert(has_group(groups, s[i]));
        let g = choose|g: int|
            0 <= g < groups.len() && !disjoint((#[trigger] groups[g]).letter, s[i]);
        let letter = groups[g].letter;
        let r = choose|r: u32| r < 32 && letter == 1u32 << r;
        if s[i] == s[j] {
            lemma_share_bit(r, s[i], s[j]);
            if i < j {
                assert(disjoint(s[i], s[j]));
            } else {
                assert(disjoint(s[j], s[i]));
            }
        }
    }
}

/// Chosen masks that are masks of `s` and pairwise different are at most as many as
/// `s` has; with as many they are the masks of `s`, with fewer one mask of `s` is left.
proof fn lemma_chosen_among(s: Seq<u32>, partial: Seq<u32>)
    requires
        s.no_duplicates(),
        partial.no_duplicates(),
        forall|i: int| 0 <= i < partial.len() ==> s.contains(#[trigger] partial[i]),
    ensures
        partial.len() <= s.len(),
        partial.len() == s.len() ==> partial.to_set() == s.to_set(),
        partial.len() < s.len() ==> exists|i: int|
            0 <= i < s.len() && !partial.contains(#[trigger] s[i]),
{
    s.unique_seq_to_set();
    partial.unique_seq_to_set();
    vstd::seq_lib::seq_to_set_is_finite(s);
    vstd::seq_lib::seq_to_set_is_finite(partial);
    assert(partial.to_set().subset_of(s.to_set())) by {
        assert forall|m: u32| partial.to_set().contains(m) implies s.to_set().contains(m) by {
            let i = choose|i: int| 0 <= i < partial.len() && partial[i] == m;
            assert(s.contains(partial[i]));
        }
    }
    vstd::set_lib::lemma_len_subset(partial.to_set(), s.to_set());
    if partial.len() == s.len() {
        vstd::set_lib::lemma_subset_equality(partial.to_set(), s.to_set());
    }
    if partial.len() < s.len() && forall|i: int|
        0 <= i < s.len() ==> partial.contains(#[trigger] s[i]) {
        assert(s.to_set().subset_of(partial.to_set())) by {
            assert forall|m: u32| s.to_set().contains(m) implies partial.to_set().contains(m) by {
                let i = choose|i: int| 0 <= i < s.len() && s[i] == m;
                assert(partial.contains(s[i]));
            }
        }
        vstd::set_lib::lemma_len_subset(s.to_set(), partial.to_set());
    }
}

/// Where a free group stands at or after `idx`, the next group is free, stands at or
/// before it, and every group between `idx` and the next group is spoken for.
proof fn lemma_next_group_is_first(groups: Seq<LetterGroupView>, idx: int, used: u32, free: int)
    requires
        0 <= idx <= free < groups.len(),
        disjoint(used, groups[free].letter),
    ensures
        idx <= next_group(groups, idx, used) <= free,
        disjoint(used, groups[next_group(groups, idx, used)].letter),
        forall|h: int|
            idx <= h < next_group(groups, idx, used) ==> !disjoint(
                used,
                (#[trigger] groups[h]).letter,
            ),
    decreases groups.len() - idx,
{
    if !(used & groups[idx].letter == 0) {
        lemma_next_group_is_first(groups, idx + 1, used, free);
    }
}

/// Taking a mask of `s` from the next group keeps the search on track.
proof fn lemma_take_keeps_track(
    groups: Seq<LetterGroupView>,
    s: Seq<u32>,
    idx: int,
    g: int,
    partial: Seq<u32>,
    used: u32,
    can_skip: bool,
    i: int,
)
    requires
        pairwise_disjoint(s),
        on_track(groups, s, idx, partial, used, can_skip),
        0 <= idx <= g < groups.len(),
        forall|h: int| idx <= h < g ==> !disjoint(used, (#[trigger] groups[h]).letter),
        0 <= i < s.len(),
        !disjoint(groups[g].letter, s[i]),
        !partial.contains(s[i]),
    ensures
        on_track(groups, s, g + 1, partial.push(s[i]), used | s[i], can_skip),
{
    let w = s[i];
    let next = partial.push(w);
    let more = used | w;
    assert forall|a: int, b: int| 0 <= a < next.len() && 0 <= b < next.len() && a != b implies
        next[a] != next[b] by {
        if a < partial.len() {
            assert(partial.contains(partial[a]));
        }
        if b < partial.len() {
            assert(partial.contains(partial[b]));
        }
    }
    assert forall|j: int| 0 <= j < next.len() implies s.contains(#[trigger] next[j]) by {
        if j < partial.len() {
            assert(s.contains(partial[j]));
        }
    }
    assert forall|j: int| 0 <= j < next.len() implies within(#[trigger] next[j], more) by {
        if j < partial.len() {
            assert(within(partial[j], used));
            lemma_within_grows(partial[j], used, w);
        } else {
            lemma_within_own_union(used, w);
        }
    }
    assert forall|j: int| 0 <= j < s.len() && !next.contains(s[j]) implies disjoint(
        more,
        #[trigger] s[j],
    ) by {
        assert(next[partial.len() as int] == w);
        if partial.contains(s[j]) {
            let a = choose|a: int| 0 <= a < partial.len() && partial[a] == s[j];
            assert(next[a] == s[j]);
        }
        assert(disjoint(used, s[j]));
        if i < j {
            assert(disjoint(s[i], s[j]));
        } else {
            assert(disjoint(s[j], s[i]));
        }
        lemma_disjoint_union(used, w, s[j]);
    }
    assert forall|h: int| 0 <= h < g + 1 && h < groups.len() implies !disjoint(
        more,
        (#[trigger] groups[h]).letter,
    ) by {
        lemma_meets_union(used, w, groups[h].letter);
    }
    if !can_skip {
        assert forall|h: int| 0 <= h < groups.len() && !covers(s, groups[h].letter) implies !disjoint(
            more,
            (#[trigger] groups[h]).letter,
        ) by {
            lemma_meets_union(used, w, groups[h].letter);
        }
    }
}

/// Leaving out the letter of the next group, where no mask of `s` contains it, is
/// still allowed and keeps the search on track.
proof fn lemma_skip_keeps_track(
    groups: Seq<LetterGroupView>,
    s: Seq<u32>,
    idx: int,
    g: int,
    partial: Seq<u32>,
    used: u32,
    can_skip: bool,
)
    requires
        on_track(groups, s, idx, partial, used, can_skip),
        0 <= idx <= g < groups.len(),
        single_bit(groups[g].letter),
        disjoint(used, groups[g].letter),
        forall|h: int| idx <= h < g ==> !disjoint(used, (#[trigger] groups[h]).letter),
        forall|i: int| 0 <= i < s.len() ==> disjoint(groups[g].letter, #[trigger] s[i]),
        forall|h: int|
            0 <= h < groups.len() && !covers(s, (#[trigger] groups[h]).letter) ==> h == g,
    ensures
        can_skip,
        on_track(groups, s, g + 1, partial, used | groups[g].letter, false),
{
    let letter = groups[g].letter;
    let more = used | letter;
    let r = choose|r: u32| r < 32 && letter == 1u32 << r;
    lemma_bit_not_empty(r);
    assert(!covers(s, groups[g].letter));
    assert forall|j: int| 0 <= j < partial.len() implies within(#[trigger] partial[j], more) by {
        assert(within(partial[j], used));
        lemma_within_grows(partial[j], used, letter);
    }
    assert forall|j: int| 0 <= j < s.len() && !partial.contains(s[j]) implies disjoint(
        more,
        #[trigger] s[j],
    ) by {
        assert(disjoint(used, s[j]));
        assert(disjoint(letter, s[j]));
        lemma_disjoint_union(used, letter, s[j]);
    }
    assert forall|h: int| 0 <= h < g + 1 && h < groups.len() implies !disjoint(
        more,
        (#[trigger] groups[h]).letter,
    ) by {
        lemma_meets_union(used, letter, groups[h].letter);
    }
    assert forall|h: int| 0 <= h < groups.len() && !covers(s, groups[h].letter) implies !disjoint(
        more,
        (#[trigger] groups[h]).letter,
    ) by {
        assert(h == g);
        lemma_meets_union(used, letter, groups[h].letter);
    }
}

/// From a state that is on track for `s`, the search reports `s`.
pub proof fn lemma_search_finds(
    groups: Seq<LetterGroupView>,
    s: Seq<u32>,
    idx: int,
    partial: Seq<u32>,
    used: u32,
    can_skip: bool,
)
    requires
        reachable(groups, s),
        0 <= idx,
        on_track(groups, s, idx, partial, used, can_skip),
    ensures
        finds(search(groups, idx, partial, used, can_skip), s),
    decreases groups.len() - idx,
{
    lemma_reachable_no_duplicates(groups, s);
    lemma_chosen_among(s, partial);
    let all = search(groups, idx, partial, used, can_skip);
    if partial.len() == SET_SIZE {
        assert(all == seq![partial]);
        assert(all[0].to_set() == s.to_set());
    } else {
        // a mask of `s` is still to be chosen, and a letter of it is free
        let open = choose|i: int| 0 <= i < s.len() && !partial.contains(#[trigger] s[i]);
        assert(has_group(groups, s[open]));
        let free = choose|g: int|
            0 <= g < groups.len() && !disjoint((#[trigger] groups[g]).letter, s[open]);
        assert(single_bit(groups[free].letter));
        let r = choose|r: u32| r < 32 && groups[free].letter == 1u32 << r;
        assert(disjoint(used, s[open]));
        lemma_bit_of_disjoint(r, s[open], used);
        lemma_next_group_is_first(groups, idx, used, free);
        let g = next_group(groups, idx, used);
        let letter = groups[g].letter;
        let words = groups[g].words;
        assert(all == search_candidates(groups, g, 0, partial, used, can_skip));
        if covers(s, letter) {
            let i = choose|i: int| 0 <= i < s.len() && !disjoint(letter, #[trigger] s[i]);
            let w = s[i];
            if partial.contains(w) {
                let j = choose|j: int| 0 <= j < partial.len() && partial[j] == w;
                assert(within(partial[j], used));
                lemma_within_disjoint(partial[j], used, letter);
            }
            assert(disjoint(used, w));
            assert(groups[g].words.contains(s[i]));
            let k = choose|k: int| 0 <= k < words.len() && words[k] == w;
            lemma_take_keeps_track(groups, s, idx, g, partial, used, can_skip, i);
            lemma_search_finds(groups, s, g + 1, partial.push(w), used | w, can_skip);
            lemma_candidates_find_branch(groups, g, 0, k, partial, used, can_skip, s);
        } else {
            assert(single_bit(groups[g].letter));
            assert forall|h: int|
                0 <= h < groups.len() && !covers(s, (#[trigger] groups[h]).letter) implies h
                == g by {}
            lemma_skip_keeps_track(groups, s, idx, g, partial, used, can_skip);
            lemma_search_finds(groups, s, g + 1, partial, used | letter, false);
            lemma_candidates_find_skip(groups, g, 0, partial, used, s);
        }
    }
}

/// The search reports every set that its search space can lead to.
pub proof fn lemma_solutions_hold_reachable(groups: Seq<LetterGroupView>, s: Seq<u32>)
    requires
        reachable(groups, s),
    ensures
        finds(all_solutions(groups), s),
{
    let none = Seq::<u32>::empty();
    assert(all_within(none, 0));
    assert forall|i: int| 0 <= i < s.len() && !none.contains(s[i]) implies disjoint(
        0,
        #[trigger] s[i],
    ) by {
        lemma_disjoint_from_nothing(s[i]);
    }
    lemma_search_finds(groups, s, 0, none, 0, true);
}

/// Every mask is disjoint from the empty mask.
proof fn lemma_disjoint_from_nothing(m: u32)
    by (bit_vector)
    ensures
        0u32 & m == 0,
{
}

/// `s` holds `SET_SIZE` masks of `masks`, no two of which share a letter.
pub open spec fn is_word_set(s: Seq<u32>, masks: Seq<u32>) -> bool {
    &&& s.len() == SET_SIZE
    &&& pairwise_disjoint(s)
    &&& forall|i: int| 0 <= i < s.len() ==> masks.contains(#[trigger] s[i])
}

/// All letters of the masks of `s`.
pub open spec fn union_of(s: Seq<u32>) -> u32
    decreases s.len(),
{
    if s.len() == 0 {
        0
    } else {
        union_of(s.drop_last()) | s.last()
    }
}

/// Pairwise disjoint word masks hold `WORD_LENGTH` letters of the alphabet each, none of
/// them twice; a letter that none of them contains is not among these.
proof fn lemma_union_of_word_masks(s: Seq<u32>, letter: u32)
    requires
        pairwise_disjoint(s),
        all_word_masks(s),
    ensures
        bit_count(union_of(s)) == WORD_LENGTH * s.len(),
        union_of(s) < alphabet_end(),
        (forall|i: int| 0 <= i < s.len() ==> disjoint(letter, #[trigger] s[i])) ==> disjoint(
            union_of(s),
            letter,
        ),
    decreases s.len(),
{
    if s.len() == 0 {
        lemma_alphabet_masks(letter, 0, 0);
    } else {
        let front = s.drop_last();
        let last = s.last();
        assert forall|i: int, j: int| 0 <= i < j < front.len() implies disjoint(
            #[trigger] front[i],
            #[trigger] front[j],
        ) by {
            assert(disjoint(s[i], s[j]));
        }
        assert forall|i: int| 0 <= i < front.len() implies is_word_mask(#[trigger] front[i]) by {
            assert(is_word_mask(s[i]));
        }
        lemma_union_of_word_masks(front, last);
        lemma_union_of_word_masks(front, letter);
        assert(is_word_mask(s[s.len() - 1]));
        // the last mask shares no letter with the masks before it
        assert forall|i: int| 0 <= i < front.len() implies disjoint(last, #[trigger] front[i]) by {
            assert(disjoint(s[i], s[s.len() - 1]));
            lemma_commute(s[i], last);
        }
        lemma_bit_count_disjoint(union_of(front), last);
        lemma_alphabet_masks(union_of(front), last, 0);
        if forall|i: int| 0 <= i < s.len() ==> disjoint(letter, #[trigger] s[i]) {
            assert forall|i: int| 0 <= i < front.len() implies disjoint(
                letter,
                #[trigger] front[i],
            ) by {
                assert(disjoint(letter, s[i]));
            }
            assert(disjoint(letter, s[s.len() - 1]));
            lemma_commute(union_of(front), letter);
            lemma_union_avoids(union_of(front), last, letter);
        }
    }
}

/// The letters that two masks share do not depend on their order.
proof fn lemma_commute(a: u32, b: u32)
    by (bit_vector)
    ensures
        a & b == b & a,
{
}

/// Two groups of a search space that stand at different places have different letters.
proof fn lemma_letters_differ(
    groups: Seq<LetterGroupView>,
    masks: Seq<u32>,
    g: int,
    h: int,
)
    requires
        is_search_space_for(groups, masks),
        0 <= g < h < groups.len(),
    ensures
        groups[g].letter != groups[h].letter,
{
    assert(is_letter_group(groups[g], masks, LETTER_COUNT as int));
    assert(is_letter_group(groups[h], masks, LETTER_COUNT as int));
    assert(goes_before(groups[g], groups[h]));
}

/// A set of `SET_SIZE` word masks leaves out at most one letter of the alphabet.
proof fn lemma_one_letter_left(s: Seq<u32>, r1: u32, r2: u32)
    requires
        s.len() == SET_SIZE,
        pairwise_disjoint(s),
        all_word_masks(s),
        r1 < 26,
        r2 < 26,
        forall|i: int| 0 <= i < s.len() ==> disjoint(1u32 << r1, #[trigger] s[i]),
        forall|i: int| 0 <= i < s.len() ==> disjoint(1u32 << r2, #[trigger] s[i]),
    ensures
        r1 == r2,
{
    if r1 != r2 {
        let all = union_of(s);
        let b1 = 1u32 << r1;
        let b2 = 1u32 << r2;
        lemma_union_of_word_masks(s, b1);
        lemma_union_of_word_masks(s, b2);
        lemma_bit_count_set(all, r1);
        lemma_bits_overlap(r1, r2);
        lemma_commute(all, b2);
        lemma_commute(b1, b2);
        lemma_union_avoids(all, b1, b2);
        lemma_bit_count_set(all | b1, r2);
        lemma_alphabet_masks(all, b1, r1);
        lemma_alphabet_masks(all | b1, b2, r2);
        lemma_bit_count_bound((all | b1) | b2, 26);
    }
}

/// The search space over word masks can lead to every set of `SET_SIZE` of them that
/// are pairwise disjoint.
pub proof fn lemma_word_sets_reachable(
    groups: Seq<LetterGroupView>,
    masks: Seq<u32>,
    s: Seq<u32>,
)
    requires
        is_search_space_for(groups, masks),
        all_word_masks(masks),
        is_word_set(s, masks),
    ensures
        reachable(groups, s),
{
    assert forall|i: int| 0 <= i < s.len() implies is_word_mask(#[trigger] s[i]) by {
        assert(masks.contains(s[i]));
        let j = choose|j: int| 0 <= j < masks.len() && masks[j] == s[i];
        assert(is_word_mask(masks[j]));
    }
    assert forall|g: int| 0 <= g < groups.len() implies single_bit(
        (#[trigger] groups[g]).letter,
    ) by {
        assert(is_letter_group(groups[g], masks, LETTER_COUNT as int));
        let r = choose|r: int| 0 <= r < LETTER_COUNT && groups[g].letter == #[trigger] rank_bit(r);
        assert((r as u32) < 32 && groups[g].letter == 1u32 << (r as u32));
    }
    assert forall|i: int| 0 <= i < s.len() implies has_group(groups, #[trigger] s[i]) by {
        assert(is_word_mask(s[i]));
        assert(bit_count(0) == 0);
        lemma_alphabet_masks(0, 0, 0);
        lemma_has_bit(s[i], 26);
        let r = choose|r: u32| r < 26 && #[trigger] (1u32 << r) & s[i] != 0;
        assert(has_letters(groups, LETTER_COUNT as int));
        assert(rank_bit(r as int) == 1u32 << r);
        let g = choose|g: int|
            0 <= g < groups.len() && (#[trigger] groups[g]).letter == rank_bit(r as int);
        assert(!disjoint(groups[g].letter, s[i]));
    }
    assert forall|i: int, g: int|
        0 <= i < s.len() && 0 <= g < groups.len() && !disjoint(
            (#[trigger] groups[g]).letter,
            #[trigger] s[i],
        ) implies groups[g].words.contains(s[i]) by {
        assert(is_letter_group(groups[g], masks, LETTER_COUNT as int));
        assert(masks.contains(s[i]));
        let j = choose|j: int| 0 <= j < masks.len() && masks[j] == s[i];
        masks.lemma_filter_contains(shares_letter(groups[g].letter), j);
    }
    assert forall|g: int, h: int|
        0 <= g < groups.len() && 0 <= h < groups.len() && !covers(
            s,
            (#[trigger] groups[g]).letter,
        ) && !covers(s, (#[trigger] groups[h]).letter) implies g == h by {
        assert(is_letter_group(groups[g], masks, LETTER_COUNT as int));
        assert(is_letter_group(groups[h], masks, LETTER_COUNT as int));
        let rg = choose|r: int| 0 <= r < LETTER_COUNT && groups[g].letter == #[trigger] rank_bit(r);
        let rh = choose|r: int| 0 <= r < LETTER_COUNT && groups[h].letter == #[trigger] rank_bit(r);
        assert forall|i: int| 0 <= i < s.len() implies disjoint(
            1u32 << (rg as u32),
            #[trigger] s[i],
        ) by {}
        assert forall|i: int| 0 <= i < s.len() implies disjoint(
            1u32 << (rh as u32),
            #[trigger] s[i],
        ) by {}
        lemma_one_letter_left(s, rg as u32, rh as u32);
        if g < h {
            lemma_letters_differ(groups, masks, g, h);
        } else if h < g {
            lemma_letters_differ(groups, masks, h, g);
        }
    }
}

/// The search over word masks is exhaustive: it reports every set of `SET_SIZE` of them
/// that are pairwise disjoint.
pub proof fn lemma_solutions_hold_every_word_set(
    groups: Seq<LetterGroupView>,
    masks: Seq<u32>,
    s: Seq<u32>,
)
    requires
        is_search_space_for(groups, masks),
        all_word_masks(masks),
        is_word_set(s, masks),
    ensures
        finds(all_solutions(groups), s),
{
    lemma_word_sets_reachable(groups, masks, s);
    lemma_solutions_hold_reachable(groups, s);
}

} // verus!
