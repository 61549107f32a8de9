//! The search space: one group of masks for each letter, rarest letter first.
use vstd::prelude::*;
use crate::LETTER_COUNT;
use crate::bits::{disjoint, lemma_rank_bits_ordered, single_bit};

verus! {

/// One letter of the alphabet together with every mask that contains it.
#[derive(Debug)]
pub struct LetterGroup {
    /// The single-bit mask of the letter.
    pub letter: u32,
    /// The masks that contain the letter, in the order they were given.
    pub words: Vec<u32>,
}

/// The mathematical content of a [`LetterGroup`].
pub ghost struct LetterGroupView {
    pub letter: u32,
    pub words: Seq<u32>,
}

impl View for LetterGroup {
    type V = LetterGroupView;

    open spec fn view(&self) -> LetterGroupView {
        LetterGroupView { letter: self.letter, words: self.words@ }
    }
}

/// The letter groups in the order in which the search branches on them.
pub struct SearchSpace {
    pub letter_groups: Vec<LetterGroup>,
}

impl View for SearchSpace {
    type V = Seq<LetterGroupView>;

    open spec fn view(&self) -> Seq<LetterGroupView> {
        group_views(self.letter_groups@)
    }
}

/// The mask of the letter with rank `r` in the alphabet.
pub open spec fn rank_bit(r: int) -> u32 {
    1u32 << (r as u32)
}

/// The test that a mask shares a letter with `letter`.
pub open spec fn shares_letter(letter: u32) -> spec_fn(u32) -> bool {
    |m: u32| !disjoint(letter, m)
}

/// The masks of `masks` that contain `letter`, in the order of `masks`.
pub open spec fn containing(masks: Seq<u32>, letter: u32) -> Seq<u32> {
    masks.filter(shares_letter(letter))
}

/// `group` is the group of one of the first `n` letters of the alphabet over `masks`.
pub open spec fn is_letter_group(group: LetterGroupView, masks: Seq<u32>, n: int) -> bool {
    &&& exists|r: int| 0 <= r < n && group.letter == #[trigger] rank_bit(r)
    &&& group.words == containing(masks, group.letter)
}

/// `a` stands before `b` in a search space: it has fewer masks, or as many and the
/// earlier letter.
pub open spec fn goes_before(a: LetterGroupView, b: LetterGroupView) -> bool {
    a.words.len() < b.words.len() || (a.words.len() == b.words.len() && a.letter < b.letter)
}

/// Every group of `groups` stands before the groups after it.
pub open spec fn ordered(groups: Seq<LetterGroupView>) -> bool {
    forall|i: int, j: int|
        0 <= i < j < groups.len() ==> goes_before(#[trigger] groups[i], #[trigger] groups[j])
}

/// Each of the first `n` letters of the alphabet has a group in `groups`.
pub open spec fn has_letters(groups: Seq<LetterGroupView>, n: int) -> bool {
    forall|r: int|
        0 <= r < n ==> exists|i: int|
            0 <= i < groups.len() && (#[trigger] groups[i]).letter == #[trigger] rank_bit(r)
}

/// `groups` holds one group over `masks` for each of the first `n` letters of the
/// alphabet, smallest group first, groups of one size in alphabetical order.
pub open spec fn is_space_of_letters(groups: Seq<LetterGroupView>, masks: Seq<u32>, n: int) -> bool {
    &&& groups.len() == n
    &&& forall|i: int| 0 <= i < groups.len() ==> is_letter_group(#[trigger] groups[i], masks, n)
    &&& has_letters(groups, n)
    &&& ordered(groups)
}

/// `groups` is the search space over `masks`: one group for each letter of the
/// alphabet, smallest group first, groups of one size in alphabetical order.
pub open spec fn is_search_space_for(groups: Seq<LetterGroupView>, masks: Seq<u32>) -> bool {
    is_space_of_letters(groups, masks, LETTER_COUNT as int)
}

/// The search space over `masks`.
pub open spec fn search_space_of(masks: Seq<u32>) -> Seq<LetterGroupView> {
    choose|groups: Seq<LetterGroupView>| is_search_space_for(groups, masks)
}

/// Each group's letter is a single bit, and its candidates all contain that letter and
/// are pairwise different.
pub open spec fn well_formed(groups: Seq<LetterGroupView>) -> bool {
    forall|g: int|
        0 <= g < groups.len() ==> {
            &&& single_bit((#[trigger] groups[g]).letter)
            &&& groups[g].words.no_duplicates()
            &&& forall|k: int|
                0 <= k < groups[g].words.len() ==> !disjoint(
                    groups[g].letter,
                    #[trigger] groups[g].words[k],
                )
        }
}

/// The masks of `words` that contain `letter`, in order.
fn masks_containing(words: &[u32], letter: u32) -> (members: Vec<u32>)
    ensures
        members@ == containing(words@, letter),
{
    let mut members: Vec<u32> = Vec::new();
    let mut i: usize = 0;
    while i < words.len()
        invariant
            i <= words.len(),
            members@ == containing(words@.take(i as int), letter),
        decreases words.len() - i,
    {
        proof {
            words@.lemma_take_succ_push(i as int);
            words@.take(i as int).lemma_filter_push(words@[i as int], shares_letter(letter));
        }
        if letter & words[i] != 0 {
            members.push(words[i]);
        }
        i += 1;
    }
    proof {
        words@.lemma_take_len();
    }
    members
}

/// With the group of the next letter put in at any place, each group is still the
/// group of a letter, and each letter up to the next has its group.
proof fn lemma_insert_keeps_groups(
    groups: Seq<LetterGroupView>,
    masks: Seq<u32>,
    n: int,
    group: LetterGroupView,
    at: int,
)
    requires
        is_space_of_letters(groups, masks, n),
        group.letter == rank_bit(n),
        group.words == containing(masks, group.letter),
        0 <= at <= groups.len(),
    ensures
        forall|i: int|
            0 <= i < groups.len() + 1 ==> is_letter_group(
                #[trigger] groups.insert(at, group)[i],
                masks,
                n + 1,
            ),
        has_letters(groups.insert(at, group), n + 1),
{
    let after = groups.insert(at, group);
    assert forall|i: int| 0 <= i < after.len() implies is_letter_group(
        #[trigger] after[i],
        masks,
        n + 1,
    ) by {
        if i == at {
            assert(after[i].letter == rank_bit(n));
        } else {
            let b = if i < at { i } else { i - 1 };
            assert(after[i] == groups[b]);
            assert(is_letter_group(groups[b], masks, n));
            let r = choose|r: int| 0 <= r < n && groups[b].letter == #[trigger] rank_bit(r);
            assert(0 <= r < n + 1 && after[i].letter == rank_bit(r));
        }
    }
    assert forall|r: int| 0 <= r < n + 1 implies exists|i: int|
        0 <= i < after.len() && (#[trigger] after[i]).letter == #[trigger] rank_bit(r) by {
        if r < n {
            let i = choose|i: int|
                0 <= i < groups.len() && (#[trigger] groups[i]).letter == rank_bit(r);
            let a = if i < at { i } else { i + 1 };
            assert(after[a] == groups[i]);
            assert(after[a].letter == rank_bit(r));
        } else {
            assert(after[at].letter == rank_bit(r));
        }
    }
}

/// The group of the next letter, put in behind the groups that are no larger and
/// before the first larger one, keeps the groups in order.
proof fn lemma_insert_keeps_order(
    groups: Seq<LetterGroupView>,
    masks: Seq<u32>,
    n: int,
    group: LetterGroupView,
    at: int,
)
    requires
        is_space_of_letters(groups, masks, n),
        0 <= n < 32,
        group.letter == rank_bit(n),
        0 <= at <= groups.len(),
        forall|i: int| 0 <= i < at ==> (#[trigger] groups[i]).words.len() <= group.words.len(),
        at < groups.len() ==> group.words.len() < groups[at].words.len(),
    ensures
        ordered(groups.insert(at, group)),
{
    let after = groups.insert(at, group);
    assert forall|i: int, j: int| 0 <= i < j < after.len() implies goes_before(
        #[trigger] after[i],
        #[trigger] after[j],
    ) by {
        let bi = if i < at { i } else { i - 1 };
        let bj = if j < at { j } else { j - 1 };
        if i != at && j != at {
            assert(after[i] == groups[bi] && after[j] == groups[bj]);
            assert(goes_before(groups[bi], groups[bj]));
        } else if i == at {
            assert(after[j] == groups[bj]);
            if at < bj {
                assert(goes_before(groups[at], groups[bj]));
            }
        } else {
            assert(after[i] == groups[bi]);
            assert(is_letter_group(groups[bi], masks, n));
            let r = choose|r: int| 0 <= r < n && groups[bi].letter == #[trigger] rank_bit(r);
            lemma_rank_bits_ordered(r as u32, n as u32);
        }
    }
}

/// Filtering keeps a sequence free of duplicates.
proof fn lemma_containing_no_duplicates(masks: Seq<u32>, letter: u32)
    requires
        masks.no_duplicates(),
    ensures
        containing(masks, letter).no_duplicates(),
    decreases masks.len(),
{
    if masks.len() > 0 {
        let front = masks.drop_last();
        let last = masks.last();
        let kept = containing(front, letter);
        lemma_containing_no_duplicates(front, letter);
        assert(masks == front.push(last));
        front.lemma_filter_push(last, shares_letter(letter));
        if kept.contains(last) {
            front.lemma_filter_contains_rev(shares_letter(letter), last);
            let i = choose|i: int| 0 <= i < front.len() && front[i] == last;
            assert(masks[i] == masks[masks.len() - 1]);
        }
    }
}

/// The search space over masks that are pairwise different is well formed.
pub proof fn lemma_search_space_well_formed(groups: Seq<LetterGroupView>, masks: Seq<u32>)
    requires
        is_search_space_for(groups, masks),
        masks.no_duplicates(),
    ensures
        well_formed(groups),
{
    assert forall|g: int| 0 <= g < groups.len() implies {
        &&& single_bit((#[trigger] groups[g]).letter)
        &&& groups[g].words.no_duplicates()
        &&& forall|k: int|
            0 <= k < groups[g].words.len() ==> !disjoint(
                groups[g].letter,
                #[trigger] groups[g].words[k],
            )
    } by {
        let letter = groups[g].letter;
        assert(is_letter_group(groups[g], masks, LETTER_COUNT as int));
        let r = choose|r: int| 0 <= r < LETTER_COUNT && letter == #[trigger] rank_bit(r);
        assert((r as u32) < 32 && letter == 1u32 << (r as u32));
        lemma_containing_no_duplicates(masks, letter);
        assert forall|k: int| 0 <= k < groups[g].words.len() implies !disjoint(
            letter,
            #[trigger] groups[g].words[k],
        ) by {
            masks.lemma_filter_pred(shares_letter(letter), k);
        }
    }
}

/// Two ordered sequences that hold the same groups agree on their first `n` groups.
proof fn lemma_ordered_agree(a: Seq<LetterGroupView>, b: Seq<LetterGroupView>, n: int)
    requires
        ordered(a),
        ordered(b),
        a.len() == b.len(),
        0 <= n <= a.len(),
        forall|i: int| 0 <= i < a.len() ==> b.contains(#[trigger] a[i]),
        forall|i: int| 0 <= i < b.len() ==> a.contains(#[trigger] b[i]),
    ensures
        forall|i: int| 0 <= i < n ==> a[i] == b[i],
    decreases n,
{
    if n > 0 {
        lemma_ordered_agree(a, b, n - 1);
        let i = n - 1;
        assert(b.contains(a[i]));
        assert(a.contains(b[i]));
        let jb = choose|j: int| 0 <= j < b.len() && b[j] == a[i];
        let ja = choose|j: int| 0 <= j < a.len() && a[j] == b[i];
        if jb < i {
            assert(goes_before(a[jb], a[i]));
        } else if jb > i {
            assert(goes_before(b[i], b[jb]));
            if ja < i {
                assert(goes_before(b[ja], b[i]));
            } else if ja > i {
                assert(goes_before(a[i], a[ja]));
            }
        }
    }
}

/// Every group of one search space over `masks` stands in any other.
proof fn lemma_search_space_holds_group(
    a: Seq<LetterGroupView>,
    b: Seq<LetterGroupView>,
    masks: Seq<u32>,
    i: int,
)
    requires
        is_search_space_for(a, masks),
        is_search_space_for(b, masks),
        0 <= i < a.len(),
    ensures
        b.contains(a[i]),
{
    assert(is_letter_group(a[i], masks, LETTER_COUNT as int));
    let r = choose|r: int| 0 <= r < LETTER_COUNT && a[i].letter == #[trigger] rank_bit(r);
    assert(has_letters(b, LETTER_COUNT as int));
    let j = choose|j: int| 0 <= j < b.len() && (#[trigger] b[j]).letter == rank_bit(r);
    assert(is_letter_group(b[j], masks, LETTER_COUNT as int));
    assert(b[j] == a[i]);
}

/// The masks determine their search space: there is only one.
pub proof fn lemma_search_space_unique(
    a: Seq<LetterGroupView>,
    b: Seq<LetterGroupView>,
    masks: Seq<u32>,
)
    requires
        is_search_space_for(a, masks),
        is_search_space_for(b, masks),
    ensures
        a == b,
{
    assert forall|i: int| 0 <= i < a.len() implies b.contains(#[trigger] a[i]) by {
        lemma_search_space_holds_group(a, b, masks, i);
    }
    assert forall|i: int| 0 <= i < b.len() implies a.contains(#[trigger] b[i]) by {
        lemma_search_space_holds_group(b, a, masks, i);
    }
    lemma_ordered_agree(a, b, LETTER_COUNT as int);
    assert(a =~= b);
}

/// Every candidate of the search space over `masks` is one of `masks`.
pub proof fn lemma_candidates_are_masks(
    groups: Seq<LetterGroupView>,
    masks: Seq<u32>,
    g: int,
    k: int,
)
    requires
        is_search_space_for(groups, masks),
        0 <= g < groups.len(),
        0 <= k < groups[g].words.len(),
    ensures
        masks.contains(groups[g].words[k]),
{
    assert(is_letter_group(groups[g], masks, LETTER_COUNT as int));
    let kept = containing(masks, groups[g].letter);
    assert(kept[k] == groups[g].words[k]);
    assert(kept.contains(groups[g].words[k]));
    masks.lemma_filter_contains_rev(shares_letter(groups[g].letter), groups[g].words[k]);
}

/// The views of the groups of a vector, in order.
pub open spec fn group_views(groups: Seq<LetterGroup>) -> Seq<LetterGroupView> {
    groups.map_values(|g: LetterGroup| g@)
}

impl SearchSpace {
    /// The search space over `words`: for each letter of the alphabet the masks that
    /// contain it, the groups in ascending order of size and, within one size, of
    /// letter.
    pub fn new(words: &[u32]) -> (space: SearchSpace)
        ensures
            is_search_space_for(space@, words@),
            space@ == search_space_of(words@),
            words@.no_duplicates() ==> well_formed(space@),
    {
        let mut letter_groups: Vec<LetterGroup> = Vec::new();
        let mut rank: usize = 0;
        while rank < LETTER_COUNT
            invariant
                rank <= LETTER_COUNT,
                is_space_of_letters(group_views(letter_groups@), words@, rank as int),
            decreases LETTER_COUNT - rank,
        {
            let letter = 1u32 << rank;
            let members = masks_containing(words, letter);
            let mut at: usize = 0;
            while at < letter_groups.len() && letter_groups[at].words.len() <= members.len()
                invariant
                    at <= letter_groups.len(),
                    forall|i: int|
                        0 <= i < at ==> (#[trigger] letter_groups[i]).words.len() <= members.len(),
                decreases letter_groups.len() - at,
            {
                at += 1;
            }
            let ghost before = group_views(letter_groups@);
            let group = LetterGroup { letter, words: members };
            proof {
                lemma_insert_keeps_groups(before, words@, rank as int, group@, at as int);
                lemma_insert_keeps_order(before, words@, rank as int, group@, at as int);
            }
            letter_groups.insert(at, group);
            assert(group_views(letter_groups@) =~= before.insert(at as int, group@));
            rank += 1;
        }
        let space = SearchSpace { letter_groups };
        proof {
            lemma_search_space_unique(space@, search_space_of(words@), words@);
            if words@.no_duplicates() {
                lemma_search_space_well_formed(space@, words@);
            }
        }
        space
    }
}

} // verus!
