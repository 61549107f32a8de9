//! Masks of letters as bit sets: disjointness, containment and the number of bits.
use vstd::prelude::*;

verus! {

/// Two masks are disjoint when no letter occurs in both.
pub open spec fn disjoint(a: u32, b: u32) -> bool {
    a & b == 0
}

/// Every letter of `m` is among the letters of `used`.
pub open spec fn within(m: u32, used: u32) -> bool {
    m & !used == 0
}

/// `letter` is the mask of exactly one of the 32 positions.
pub open spec fn single_bit(letter: u32) -> bool {
    exists|r: u32| r < 32 && letter == 1u32 << r
}

/// What lies within `used` shares no letter with what is disjoint from `used`.
pub proof fn lemma_within_disjoint(m: u32, used: u32, x: u32)
    by (bit_vector)
    requires
        m & !used == 0,
        used & x == 0,
    ensures
        m & x == 0,
        x & m == 0,
{
}

/// What lies within `used` lies within every union of `used`.
pub proof fn lemma_within_grows(m: u32, used: u32, more: u32)
    by (bit_vector)
    requires
        m & !used == 0,
    ensures
        m & !(used | more) == 0,
{
}

/// A mask lies within every union that it is part of.
pub proof fn lemma_within_own_union(used: u32, m: u32)
    by (bit_vector)
    ensures
        m & !(used | m) == 0,
{
}

/// What is disjoint from a union is disjoint from both of its sides.
pub proof fn lemma_disjoint_from_union(x: u32, used: u32, more: u32)
    by (bit_vector)
    requires
        (used | more) & x == 0,
    ensures
        used & x == 0,
        more & x == 0,
        x & more == 0,
{
}

/// Two masks that hold the same bit are not disjoint.
pub proof fn lemma_share_bit(r: u32, a: u32, b: u32)
    by (bit_vector)
    requires
        r < 32,
        (1u32 << r) & a != 0,
        (1u32 << r) & b != 0,
    ensures
        a & b != 0,
        b & a != 0,
{
}

/// The number of bits that are set in `x`.
pub open spec fn bit_count(x: u32) -> nat
    decreases x,
{
    if x == 0 {
        0
    } else {
        (x % 2) as nat + bit_count(x / 2)
    }
}

/// `u32::count_ones`: the number of ones in the binary representation of the value.
pub assume_specification[ u32::count_ones ](x: u32) -> (r: u32)
    ensures
        r == bit_count(x),
;

/// Setting one bit raises the count by one if the bit was clear, and leaves it otherwise.
pub proof fn lemma_bit_count_set(m: u32, r: u32)
    requires
        r < 32,
    ensures
        bit_count(m | (1u32 << r)) == bit_count(m) + if m & (1u32 << r) == 0 {
            1nat
        } else {
            0nat
        },
    decreases r,
{
    let b = 1u32 << r;
    if m & b != 0 {
        assert(m | b == m) by (bit_vector)
            requires
                m & b != 0,
                b == 1u32 << r,
                r < 32,
        ;
    } else if r == 0 {
        assert((m | b) % 2 == 1 && (m | b) / 2 == m / 2 && m % 2 == 0 && (m | b) != 0)
            by (bit_vector)
            requires
                m & b == 0,
                b == 1u32 << r,
                r == 0,
        ;
    } else {
        let r1 = (r - 1) as u32;
        let b1 = 1u32 << r1;
        assert((m | b) % 2 == m % 2 && (m | b) / 2 == (m / 2) | b1 && ((m / 2) & b1 == 0) && (m
            | b) != 0) by (bit_vector)
            requires
                m & b == 0,
                b == 1u32 << r,
                b1 == 1u32 << r1,
                r1 + 1 == r,
                r < 32,
        ;
        lemma_bit_count_set(m / 2, r1);
    }
}

/// A union holds a bit exactly when one of its sides does.
pub proof fn lemma_union_has_bit(a: u32, b: u32, r: u32)
    by (bit_vector)
    requires
        r < 32,
    ensures
        ((a | b) & (1u32 << r) != 0) <==> (a & (1u32 << r) != 0 || b & (1u32 << r) != 0),
{
}

/// Two single bits overlap exactly when they are the same bit.
pub proof fn lemma_bits_overlap(r: u32, s: u32)
    by (bit_vector)
    requires
        r < 32,
        s < 32,
    ensures
        ((1u32 << r) & (1u32 << s) != 0) <==> r == s,
        0u32 & (1u32 << s) == 0,
{
}

/// A later bit is the larger mask.
pub proof fn lemma_rank_bits_ordered(r: u32, s: u32)
    by (bit_vector)
    requires
        r < s,
        s < 32,
    ensures
        (1u32 << r) < (1u32 << s),
{
}

/// A mask below the bit of rank `n` has at most `n` bits.
pub proof fn lemma_bit_count_bound(x: u32, n: u32)
    requires
        n < 32,
        x < (1u32 << n),
    ensures
        bit_count(x) <= n,
    decreases n,
{
    if x != 0 {
        let m = (n - 1) as u32;
        assert(n > 0 && x / 2 < (1u32 << m)) by (bit_vector)
            requires
                x != 0,
                n < 32,
                x < (1u32 << n),
                m == (n - 1) as u32,
        ;
        lemma_bit_count_bound(x / 2, m);
    }
}

/// The bits of two disjoint masks add up in their union.
pub proof fn lemma_bit_count_disjoint(a: u32, b: u32)
    requires
        a & b == 0,
    ensures
        bit_count(a | b) == bit_count(a) + bit_count(b),
    decreases a + b,
{
    let x = a | b;
    if x == 0 {
        assert(a == 0 && b == 0) by (bit_vector)
            requires
                a | b == 0,
        ;
    } else {
        assert(x % 2 == a % 2 + b % 2 && x / 2 == (a / 2) | (b / 2) && (a / 2) & (b / 2) == 0 && a
            / 2 + b / 2 < a + b) by (bit_vector)
            requires
                x == a | b,
                a & b == 0,
                x != 0,
        ;
        lemma_bit_count_disjoint(a / 2, b / 2);
    }
}

/// A mask that is not empty and lies below the bit of rank `n` holds a bit below `n`.
pub proof fn lemma_has_bit(m: u32, n: u32)
    requires
        m != 0,
        n < 32,
        m < (1u32 << n),
    ensures
        exists|r: u32| r < n && #[trigger] (1u32 << r) & m != 0,
    decreases n,
{
    assert(n > 0) by (bit_vector)
        requires
            m != 0,
            n < 32,
            m < (1u32 << n),
    ;
    let top = (n - 1) as u32;
    if (1u32 << top) & m != 0 {
    } else {
        assert(m < (1u32 << top)) by (bit_vector)
            requires
                n < 32,
                m < (1u32 << n),
                top == (n - 1) as u32,
                n > 0,
                (1u32 << top) & m == 0,
        ;
        lemma_has_bit(m, top);
        let r = choose|r: u32| r < top && #[trigger] (1u32 << r) & m != 0;
        assert(r < n && (1u32 << r) & m != 0);
    }
}

/// What is disjoint from both sides of a union is disjoint from the union.
pub proof fn lemma_disjoint_union(used: u32, more: u32, x: u32)
    by (bit_vector)
    requires
        used & x == 0,
        more & x == 0 || x & more == 0,
    ensures
        (used | more) & x == 0,
{
}

/// What meets one side of a union meets the union.
pub proof fn lemma_meets_union(used: u32, more: u32, x: u32)
    by (bit_vector)
    requires
        used & x != 0 || more & x != 0 || x & more != 0,
    ensures
        (used | more) & x != 0,
{
}

/// A single bit of a mask is disjoint from whatever the mask is disjoint from.
pub proof fn lemma_bit_of_disjoint(r: u32, m: u32, used: u32)
    by (bit_vector)
    requires
        r < 32,
        (1u32 << r) & m != 0,
        used & m == 0,
    ensures
        used & (1u32 << r) == 0,
{
}

/// A single bit is not empty.
pub proof fn lemma_bit_not_empty(r: u32)
    by (bit_vector)
    requires
        r < 32,
    ensures
        (1u32 << r) != 0,
        (1u32 << r) & (1u32 << r) != 0,
{
}

/// What avoids both sides of a union avoids the union.
pub proof fn lemma_union_avoids(a: u32, b: u32, x: u32)
    by (bit_vector)
    requires
        x & a == 0,
        x & b == 0,
    ensures
        x & (a | b) == 0,
        (a | b) & x == 0,
{
}

/// The first mask above the 26 letters of the alphabet.
pub open spec fn alphabet_end() -> u32 {
    0x400_0000
}

/// Unions of masks of the alphabet, and the bits of its letters, are masks of the
/// alphabet.
pub proof fn lemma_alphabet_masks(a: u32, b: u32, r: u32)
    by (bit_vector)
    ensures
        (1u32 << 26u32) == 0x400_0000u32,
        a < 0x400_0000u32 && b < 0x400_0000u32 ==> (a | b) < 0x400_0000u32,
        r < 26 ==> (1u32 << r) < 0x400_0000u32,
        0u32 & a == 0,
{
}

} // verus!
