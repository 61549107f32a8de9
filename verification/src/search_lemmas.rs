//! What holds of every reported solution: its masks are pairwise disjoint candidates,
//! and no solution is reported twice.
use vstd::prelude::*;
use crate::SET_SIZE;
use crate::bits::{
    disjoint, lemma_disjoint_from_union, lemma_share_bit, lemma_within_disjoint,
    lemma_within_grows, lemma_within_own_union, within,
};
use crate::space::{well_formed, LetterGroupView};
use crate::search::{
    all_solutions, lemma_next_group_bounds, next_group, search, search_candidates,
};

verus! {

/// No two masks of `s` share a letter.
pub open spec fn pairwise_disjoint(s: Seq<u32>) -> bool {
    forall|i: int, j: int| 0 <= i < j < s.len() ==> disjoint(#[trigger] s[i], #[trigger] s[j])
}

/// Every mask of `s` lies within `used`.
pub open spec fn all_within(s: Seq<u32>, used: u32) -> bool {
    forall|i: int| 0 <= i < s.len() ==> within(#[trigger] s[i], used)
}

/// No mask of `s` contains a letter of `letters`.
pub open spec fn avoids(s: Seq<u32>, letters: u32) -> bool {
    forall|i: int| 0 <= i < s.len() ==> disjoint(letters, #[trigger] s[i])
}

/// `m` is a candidate of some group of the search space.
pub open spec fn in_space(groups: Seq<LetterGroupView>, m: u32) -> bool {
    exists|g: int, k: int|
        0 <= g < groups.len() && 0 <= k < groups[g].words.len() && #[trigger] groups[g].words[k]
            == m
}

/// `s` begins with the masks of `partial`, in order.
pub open spec fn starts_with(s: Seq<u32>, partial: Seq<u32>) -> bool {
    &&& partial.len() <= s.len()
    &&& forall|i: int| 0 <= i < partial.len() ==> s[i] == #[trigger] partial[i]
}

/// `s` is a full solution that starts with `partial` and whose further masks are
/// candidates of the search space that avoid the letters of `used`.
pub open spec fn completes(
    groups: Seq<LetterGroupView>,
    s: Seq<u32>,
    partial: Seq<u32>,
    used: u32,
) -> bool {
    &&& s.len() == SET_SIZE
    &&& starts_with(s, partial)
    &&& pairwise_disjoint(s)
    &&& forall|i: int|
        partial.len() <= i < s.len() ==> disjoint(used, #[trigger] s[i]) && in_space(groups, s[i])
}

/// The solution `s` took the candidate at or after `k` of `words` as its mask number `p`.
pub open spec fn took_candidate(s: Seq<u32>, p: int, words: Seq<u32>, k: int) -> bool {
    exists|k2: int| k <= k2 < words.len() && 0 <= p < s.len() && s[p] == #[trigger] words[k2]
}

/// A mask that avoids the letters used can be chosen next: the masks chosen stay
/// pairwise disjoint and within the letters used.
proof fn lemma_push_keeps_invariant(partial: Seq<u32>, used: u32, w: u32)
    requires
        pairwise_disjoint(partial),
        all_within(partial, used),
        disjoint(used, w),
    ensures
        pairwise_disjoint(partial.push(w)),
        all_within(partial.push(w), used | w),
{
    let next = partial.push(w);
    assert forall|i: int, j: int| 0 <= i < j < next.len() implies disjoint(
        #[trigger] next[i],
        #[trigger] next[j],
    ) by {
        if j == partial.len() {
            assert(within(partial[i], used));
            lemma_within_disjoint(partial[i], used, w);
        } else {
            assert(disjoint(partial[i], partial[j]));
        }
    }
    assert forall|i: int| 0 <= i < next.len() implies within(#[trigger] next[i], used | w) by {
        if i < partial.len() {
            assert(within(partial[i], used));
            lemma_within_grows(partial[i], used, w);
        } else {
            lemma_within_own_union(used, w);
        }
    }
}

/// Masks within the letters used stay within them when more letters are used.
proof fn lemma_used_grows(partial: Seq<u32>, used: u32, more: u32)
    requires
        all_within(partial, used),
    ensures
        all_within(partial, used | more),
{
    assert forall|i: int| 0 <= i < partial.len() implies within(
        #[trigger] partial[i],
        used | more,
    ) by {
        assert(within(partial[i], used));
        lemma_within_grows(partial[i], used, more);
    }
}

/// Every solution that the search reports from a state completes that state's partial
/// solution with candidates that avoid the letters already used.
pub proof fn lemma_search_completes(
    groups: Seq<LetterGroupView>,
    idx: int,
    partial: Seq<u32>,
    used: u32,
    can_skip: bool,
)
    requires
        pairwise_disjoint(partial),
        all_within(partial, used),
    ensures
        forall|n: int|
            0 <= n < search(groups, idx, partial, used, can_skip).len() ==> completes(
                groups,
                #[trigger] search(groups, idx, partial, used, can_skip)[n],
                partial,
                used,
            ),
    decreases groups.len() - idx, 1int, 0int,
{
    let all = search(groups, idx, partial, used, can_skip);
    if partial.len() == SET_SIZE {
        assert(all == seq![partial]);
    } else if idx >= 0 {
        let g = next_group(groups, idx, used);
        if idx <= g < groups.len() {
            lemma_candidates_complete(groups, g, 0, partial, used, can_skip);
            assert(all == search_candidates(groups, g, 0, partial, used, can_skip));
        }
    }
}

/// Every solution reported from the candidates of group `g` at or after `k` completes
/// the partial solution, and either took one of those candidates as its next mask or
/// avoids the letter of `g` altogether.
pub proof fn lemma_candidates_complete(
    groups: Seq<LetterGroupView>,
    g: int,
    k: int,
    partial: Seq<u32>,
    used: u32,
    can_skip: bool,
)
    requires
        0 <= g < groups.len(),
        0 <= k,
        pairwise_disjoint(partial),
        all_within(partial, used),
    ensures
        forall|n: int|
            0 <= n < search_candidates(groups, g, k, partial, used, can_skip).len() ==> {
                let s = #[trigger] search_candidates(groups, g, k, partial, used, can_skip)[n];
                &&& completes(groups, s, partial, used)
                &&& took_candidate(s, partial.len() as int, groups[g].words, k) || (disjoint(
                    used,
                    groups[g].letter,
                ) ==> avoids(s, groups[g].letter))
            },
    decreases groups.len() - g, 0int, groups[g].words.len() - k,
{
    let all = search_candidates(groups, g, k, partial, used, can_skip);
    let letter = groups[g].letter;
    let words = groups[g].words;
    let p = partial.len() as int;
    if k >= words.len() {
        if can_skip {
            lemma_used_grows(partial, used, letter);
            lemma_search_completes(groups, g + 1, partial, used | letter, false);
            assert(all == search(groups, g + 1, partial, used | letter, false));
            assert forall|n: int| 0 <= n < all.len() implies {
                let s = #[trigger] all[n];
                &&& completes(groups, s, partial, used)
                &&& disjoint(used, letter) ==> avoids(s, letter)
            } by {
                let s = all[n];
                assert(completes(groups, s, partial, used | letter));
                assert forall|i: int| p <= i < s.len() implies disjoint(used, #[trigger] s[i])
                    && in_space(groups, s[i]) by {
                    assert(disjoint(used | letter, s[i]));
                    lemma_disjoint_from_union(s[i], used, letter);
                }
                if disjoint(used, letter) {
                    assert forall|i: int| 0 <= i < s.len() implies disjoint(
                        letter,
                        #[trigger] s[i],
                    ) by {
                        if i < p {
                            assert(s[i] == partial[i]);
                            assert(within(partial[i], used));
                            lemma_within_disjoint(partial[i], used, letter);
                        } else {
                            assert(disjoint(used | letter, s[i]));
                            lemma_disjoint_from_union(s[i], used, letter);
                        }
                    }
                }
            }
        }
    } else {
        let w = words[k];
        let through = if used & w == 0 {
            search(groups, g + 1, partial.push(w), used | w, can_skip)
        } else {
            Seq::empty()
        };
        let rest = search_candidates(groups, g, k + 1, partial, used, can_skip);
        assert(all == through + rest);
        lemma_candidates_complete(groups, g, k + 1, partial, used, can_skip);
        if used & w == 0 {
            lemma_push_keeps_invariant(partial, used, w);
            lemma_search_completes(groups, g + 1, partial.push(w), used | w, can_skip);
        }
        assert forall|n: int| 0 <= n < all.len() implies {
            let s = #[trigger] all[n];
            &&& completes(groups, s, partial, used)
            &&& took_candidate(s, p, words, k) || (disjoint(used, letter) ==> avoids(s, letter))
        } by {
            let s = all[n];
            if n < through.len() {
                assert(s == through[n]);
                assert(completes(groups, s, partial.push(w), used | w));
                assert(s[p] == partial.push(w)[p]);
                assert(words[k] == w);
                assert(took_candidate(s, p, words, k));
                assert forall|i: int| 0 <= i < p implies s[i] == #[trigger] partial[i] by {
                    assert(partial.push(w)[i] == partial[i]);
                }
                assert forall|i: int| p <= i < s.len() implies disjoint(used, #[trigger] s[i])
                    && in_space(groups, s[i]) by {
                    if i == p {
                        assert(groups[g].words[k] == s[i]);
                    } else {
                        assert(disjoint(used | w, s[i]));
                        lemma_disjoint_from_union(s[i], used, w);
                    }
                }
            } else {
                assert(s == rest[n - through.len()]);
                if took_candidate(s, p, words, k + 1) {
                    let k2 = choose|k2: int|
                        k + 1 <= k2 < words.len() && 0 <= p < s.len() && s[p]
                            == #[trigger] words[k2];
                    assert(k <= k2 < words.len() && s[p] == words[k2]);
                }
            }
        }
    }
}

/// No two entries of `solutions` hold the same set of masks.
pub open spec fn distinct_as_sets(solutions: Seq<Seq<u32>>) -> bool {
    forall|i: int, j: int|
        0 <= i < j < solutions.len() ==> (#[trigger] solutions[i]).to_set() != (
        #[trigger] solutions[j]).to_set()
}

/// A solution through candidate `k` of group `g` differs, as a set, from every solution
/// that took a later candidate of `g` or that avoids the letter of `g`.
proof fn lemma_branches_differ(
    groups: Seq<LetterGroupView>,
    g: int,
    k: int,
    a: Seq<u32>,
    b: Seq<u32>,
    partial: Seq<u32>,
    used: u32,
)
    requires
        well_formed(groups),
        0 <= g < groups.len(),
        0 <= k < groups[g].words.len(),
        completes(groups, a, partial.push(groups[g].words[k]), used | groups[g].words[k]),
        completes(groups, b, partial, used),
        took_candidate(b, partial.len() as int, groups[g].words, k + 1) || avoids(
            b,
            groups[g].letter,
        ),
    ensures
        a.to_set() != b.to_set(),
{
    let letter = groups[g].letter;
    let words = groups[g].words;
    let w = words[k];
    let p = partial.len() as int;
    assert(a[p] == partial.push(w)[p]);
    assert(a.contains(w));
    assert(a.to_set().contains(w));
    assert(!disjoint(letter, w));
    if b.contains(w) {
        let q = choose|q: int| 0 <= q < b.len() && b[q] == w;
        if took_candidate(b, p, words, k + 1) {
            let k2 = choose|k2: int|
                k + 1 <= k2 < words.len() && 0 <= p < b.len() && b[p] == #[trigger] words[k2];
            assert(words[k2] != words[k]);
            assert(!disjoint(letter, words[k2]));
            let r = choose|r: u32| r < 32 && letter == 1u32 << r;
            lemma_share_bit(r, b[q], b[p]);
            if q < p {
                assert(disjoint(b[q], b[p]));
            } else {
                assert(disjoint(b[p], b[q]));
            }
        } else {
            assert(disjoint(letter, b[q]));
        }
    }
    assert(!b.to_set().contains(w));
}

/// The solutions that the search reports from one state differ pairwise as sets of masks.
pub proof fn lemma_search_distinct(
    groups: Seq<LetterGroupView>,
    idx: int,
    partial: Seq<u32>,
    used: u32,
    can_skip: bool,
)
    requires
        well_formed(groups),
        pairwise_disjoint(partial),
        all_within(partial, used),
    ensures
        distinct_as_sets(search(groups, idx, partial, used, can_skip)),
    decreases groups.len() - idx, 1int, 0int,
{
    let all = search(groups, idx, partial, used, can_skip);
    if partial.len() == SET_SIZE {
        assert(all == seq![partial]);
    } else if idx >= 0 {
        let g = next_group(groups, idx, used);
        if idx <= g < groups.len() {
            lemma_next_group_bounds(groups, idx, used);
            lemma_candidates_distinct(groups, g, 0, partial, used, can_skip);
            assert(all == search_candidates(groups, g, 0, partial, used, can_skip));
        }
    }
}

/// The solutions reported from the candidates of group `g` at or after `k` differ
/// pairwise as sets of masks.
pub proof fn lemma_candidates_distinct(
    groups: Seq<LetterGroupView>,
    g: int,
    k: int,
    partial: Seq<u32>,
    used: u32,
    can_skip: bool,
)
    requires
        well_formed(groups),
        0 <= g < groups.len(),
        0 <= k,
        pairwise_disjoint(partial),
        all_within(partial, used),
        disjoint(used, groups[g].letter),
    ensures
        distinct_as_sets(search_candidates(groups, g, k, partial, used, can_skip)),
    decreases groups.len() - g, 0int, groups[g].words.len() - k,
{
    let all = search_candidates(groups, g, k, partial, used, can_skip);
    let letter = groups[g].letter;
    let words = groups[g].words;
    if k >= words.len() {
        if can_skip {
            lemma_used_grows(partial, used, letter);
            lemma_search_distinct(groups, g + 1, partial, used | letter, false);
            assert(all == search(groups, g + 1, partial, used | letter, false));
        }
    } else {
        let w = words[k];
        let through = if used & w == 0 {
            search(groups, g + 1, partial.push(w), used | w, can_skip)
        } else {
            Seq::empty()
        };
        let rest = search_candidates(groups, g, k + 1, partial, used, can_skip);
        assert(all == through + rest);
        lemma_candidates_distinct(groups, g, k + 1, partial, used, can_skip);
        lemma_candidates_complete(groups, g, k + 1, partial, used, can_skip);
        if used & w == 0 {
            lemma_push_keeps_invariant(partial, used, w);
            lemma_search_distinct(groups, g + 1, partial.push(w), used | w, can_skip);
            lemma_search_completes(groups, g + 1, partial.push(w), used | w, can_skip);
        }
        assert forall|i: int, j: int| 0 <= i < j < all.len() implies (#[trigger] all[i]).to_set()
            != (#[trigger] all[j]).to_set() by {
            if j < through.len() {
                assert(all[i] == through[i] && all[j] == through[j]);
            } else if i >= through.len() {
                assert(all[i] == rest[i - through.len()] && all[j] == rest[j - through.len()]);
            } else {
                assert(all[i] == through[i] && all[j] == rest[j - through.len()]);
                lemma_branches_differ(groups, g, k, all[i], all[j], partial, used);
            }
        }
    }
}

/// Every solution of a search space holds `SET_SIZE` masks, all of them candidates of
/// the space, and no two of them share a letter.
pub proof fn lemma_solutions_disjoint(groups: Seq<LetterGroupView>)
    ensures
        forall|n: int|
            0 <= n < all_solutions(groups).len() ==> {
                let s = #[trigger] all_solutions(groups)[n];
                &&& s.len() == SET_SIZE
                &&& pairwise_disjoint(s)
                &&& forall|i: int| 0 <= i < s.len() ==> in_space(groups, #[trigger] s[i])
            },
{
    lemma_search_completes(groups, 0, Seq::empty(), 0, true);
    assert forall|n: int| 0 <= n < all_solutions(groups).len() implies {
        let s = #[trigger] all_solutions(groups)[n];
        &&& s.len() == SET_SIZE
        &&& pairwise_disjoint(s)
        &&& forall|i: int| 0 <= i < s.len() ==> in_space(groups, #[trigger] s[i])
    } by {
        let s = all_solutions(groups)[n];
        assert(completes(groups, s, Seq::empty(), 0));
    }
}

/// No solution of a well-formed search space is reported twice, not even with its
/// masks in another order.
pub proof fn lemma_solutions_distinct(groups: Seq<LetterGroupView>)
    requires
        well_formed(groups),
    ensures
        distinct_as_sets(all_solutions(groups)),
{
    lemma_search_distinct(groups, 0, Seq::empty(), 0, true);
}

} // verus!
