//! CHAMP (compressed hash-array mapped prefix-tree) bit arithmetic: the 4-bit hash
//! slice per trie level, the slot masks, and the rank of a slot in a packed array.

use vstd::prelude::*;

verus! {

/// Bits of hash consumed per trie level. 4 gives 16-way branching.
pub const BITS_PER_LEVEL: u32 = 4;

/// Number of levels before the hash is exhausted (64 bits / 4 bits per level).
pub const MAX_DEPTH: u32 = 16;

/// The 4-bit hash slice for level `depth`.
pub open spec fn spec_slot_at(hash: u64, depth: u32) -> u8 {
    ((hash >> ((depth * 4) as u64)) & 0xFu64) as u8
}

/// Is bit `s` of `bm` set?
pub open spec fn bit_set(bm: u16, s: int) -> bool {
    0 <= s < 16 && ((bm >> (s as u16)) & 1u16) == 1u16
}

/// The number of set bits of `bm` strictly below position `s`.
pub open spec fn bits_below(bm: u16, s: int) -> nat
    decreases s,
{
    if s <= 0 {
        0
    } else {
        bits_below(bm, s - 1) + if bit_set(bm, s - 1) {
            1nat
        } else {
            0nat
        }
    }
}

/// The number of set bits of `bm`.
pub open spec fn popcount(bm: u16) -> nat {
    bits_below(bm, 16)
}

/// The 4-bit hash slice for level `depth` — which of the 16 child slots a key
/// belongs in at this level.
pub fn slot_at(hash: u64, depth: u32) -> (r: u8)
    requires
        depth < MAX_DEPTH,
    ensures
        r == spec_slot_at(hash, depth),
        r < 16,
{
    let sh: u64 = (depth * BITS_PER_LEVEL) as u64;
    proof {
        assert((hash >> sh) & 0xFu64 <= 0xFu64) by (bit_vector);
    }
    ((hash >> sh) & 0xFu64) as u8
}

/// `1 << slot` as a 16-bit mask isolating slot `slot` in a bitmap.
pub fn slot_mask(slot: u8) -> (r: u16)
    requires
        slot < 16,
    ensures
        r == 1u16 << (slot as u16),
        forall|t: int| 0 <= t < 16 ==> (bit_set(r, t) <==> t == slot),
{
    proof {
        lemma_mask_bits(slot as u16);
    }
    1u16 << (slot as u16)
}

proof fn lemma_mask_bits(s: u16)
    requires
        s < 16,
    ensures
        forall|t: int| 0 <= t < 16 ==> (bit_set(1u16 << s, t) <==> t == s),
{
    assert forall|t: int| 0 <= t < 16 implies (bit_set(1u16 << s, t) <==> t == s) by {
        let tt = t as u16;
        assert((((1u16 << s) >> tt) & 1u16 == 1u16) <==> tt == s) by (bit_vector)
            requires
                s < 16,
                tt < 16,
        ;
    }
}

/// The index into a packed slot array for the entry or child at `slot`, given the
/// relevant bitmap: the count of set bits below `slot`.
pub fn rank(bitmap: u16, slot: u8) -> (r: usize)
    requires
        slot < 16,
    ensures
        r == bits_below(bitmap, slot as int),
        r <= slot,
{
    let mut count: usize = 0;
    let mut i: u8 = 0;
    while i < slot
        invariant
            i <= slot,
            slot < 16,
            count == bits_below(bitmap, i as int),
            count <= i,
        decreases slot - i,
    {
        if (bitmap >> (i as u16)) & 1u16 == 1u16 {
            count = count + 1;
        }
        i = i + 1;
    }
    count
}

/// Setting a bit changes only that bit.
pub proof fn lemma_bit_or(bm: u16, s: int, t: int)
    requires
        0 <= s < 16,
        0 <= t < 16,
    ensures
        bit_set(bm | (1u16 << (s as u16)), t) <==> (bit_set(bm, t) || t == s),
{
    let ss = s as u16;
    let tt = t as u16;
    assert((((bm | (1u16 << ss)) >> tt) & 1u16 == 1u16) <==> (((bm >> tt) & 1u16 == 1u16) || tt
        == ss)) by (bit_vector)
        requires
            ss < 16,
            tt < 16,
    ;
}

/// Toggling a bit changes only that bit.
pub proof fn lemma_bit_xor(bm: u16, s: int, t: int)
    requires
        0 <= s < 16,
        0 <= t < 16,
    ensures
        bit_set(bm ^ (1u16 << (s as u16)), t) <==> (bit_set(bm, t) != (t == s)),
{
    let ss = s as u16;
    let tt = t as u16;
    assert((((bm ^ (1u16 << ss)) >> tt) & 1u16 == 1u16) <==> (((bm >> tt) & 1u16 == 1u16) != (tt
        == ss))) by (bit_vector)
        requires
            ss < 16,
            tt < 16,
    ;
}

/// A bit test through a mask agrees with `bit_set`.
pub proof fn lemma_bit_and_mask(bm: u16, s: int)
    requires
        0 <= s < 16,
    ensures
        (bm & (1u16 << (s as u16)) != 0) <==> bit_set(bm, s),
{
    let ss = s as u16;
    assert((bm & (1u16 << ss) != 0) <==> ((bm >> ss) & 1u16 == 1u16)) by (bit_vector)
        requires
            ss < 16,
    ;
}

/// Disjoint bitmaps share no set bit.
pub proof fn lemma_bit_disjoint(a: u16, b: u16, t: int)
    requires
        a & b == 0,
        0 <= t < 16,
    ensures
        !(bit_set(a, t) && bit_set(b, t)),
{
    let tt = t as u16;
    assert(!(((a >> tt) & 1u16 == 1u16) && ((b >> tt) & 1u16 == 1u16))) by (bit_vector)
        requires
            a & b == 0,
            tt < 16,
    ;
}

/// The empty bitmap has no set bit.
pub proof fn lemma_bit_zero(t: int)
    requires
        0 <= t < 16,
    ensures
        !bit_set(0u16, t),
{
    let tt = t as u16;
    assert(((0u16 >> tt) & 1u16) == 0u16) by (bit_vector);
}

/// `bits_below` never exceeds the position.
pub proof fn lemma_bits_below_le(bm: u16, s: int)
    requires
        0 <= s,
    ensures
        bits_below(bm, s) <= s,
    decreases s,
{
    if s > 0 {
        lemma_bits_below_le(bm, s - 1);
    }
}

/// `bits_below` grows with the position, strictly past a set bit.
pub proof fn lemma_bits_below_mono(bm: u16, a: int, b: int)
    requires
        0 <= a <= b,
    ensures
        bits_below(bm, a) <= bits_below(bm, b),
        a < b && bit_set(bm, a) ==> bits_below(bm, a) < bits_below(bm, b),
    decreases b - a,
{
    if a < b {
        lemma_bits_below_mono(bm, a, b - 1);
        if bit_set(bm, a) && a < b - 1 {
            lemma_bits_below_mono(bm, a, b - 1);
        }
    }
}

/// Two set bits have distinct ranks.
pub proof fn lemma_bits_below_injective(bm: u16, a: int, b: int)
    requires
        bit_set(bm, a),
        bit_set(bm, b),
        bits_below(bm, a) == bits_below(bm, b),
    ensures
        a == b,
{
    if a < b {
        lemma_bits_below_mono(bm, a, b);
    } else if b < a {
        lemma_bits_below_mono(bm, b, a);
    }
}

/// A set bit's rank is below the popcount.
pub proof fn lemma_rank_lt_popcount(bm: u16, s: int)
    requires
        bit_set(bm, s),
    ensures
        bits_below(bm, s) < popcount(bm),
{
    lemma_bits_below_mono(bm, s, 16);
}

/// Setting a clear bit shifts the ranks above it by one.
pub proof fn lemma_bits_below_insert(bm: u16, s: int, t: int)
    requires
        0 <= s < 16,
        !bit_set(bm, s),
        0 <= t <= 16,
    ensures
        bits_below(bm | (1u16 << (s as u16)), t) == bits_below(bm, t) + if s < t {
            1nat
        } else {
            0nat
        },
    decreases t,
{
    if t > 0 {
        lemma_bits_below_insert(bm, s, t - 1);
        lemma_bit_or(bm, s, t - 1);
    }
}

/// Clearing a set bit shifts the ranks above it down by one.
pub proof fn lemma_bits_below_remove(bm: u16, s: int, t: int)
    requires
        0 <= s < 16,
        bit_set(bm, s),
        0 <= t <= 16,
    ensures
        bits_below(bm ^ (1u16 << (s as u16)), t) + if s < t {
            1nat
        } else {
            0nat
        } == bits_below(bm, t),
    decreases t,
{
    if t > 0 {
        lemma_bits_below_remove(bm, s, t - 1);
        lemma_bit_xor(bm, s, t - 1);
    }
}

/// Every rank below the popcount belongs to some set bit.
pub proof fn lemma_rank_surjective(bm: u16, i: int) -> (s: int)
    requires
        0 <= i < popcount(bm),
    ensures
        bit_set(bm, s),
        bits_below(bm, s) == i,
{
    lemma_rank_surjective_upto(bm, i, 16)
}

proof fn lemma_rank_surjective_upto(bm: u16, i: int, t: int) -> (s: int)
    requires
        0 <= i < bits_below(bm, t),
        0 <= t <= 16,
    ensures
        bit_set(bm, s),
        bits_below(bm, s) == i,
        s < t,
    decreases t,
{
    if i < bits_below(bm, t - 1) {
        lemma_rank_surjective_upto(bm, i, t - 1)
    } else {
        t - 1
    }
}

} // verus!
