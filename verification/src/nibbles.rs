use vstd::prelude::*;

verus! {

/// The `k`-th 4-bit group of `w`, counted from the least significant end.
pub open spec fn nib(w: u32, k: u32) -> u32 {
    (w >> ((4 * k) as u32)) & 0xFu32
}

/// The `k`-th 4-bit group of a 64-bit word.
pub open spec fn nib64(w: u64, k: u64) -> u64 {
    (w >> ((4 * k) as u64)) & 0xFu64
}

/// Shifting right by whole groups moves groups down; groups shifted in are empty.
pub proof fn lemma_nib_shr(w: u32, s: u32, k: u32)
    by (bit_vector)
    requires
        s < 8,
        k < 8,
    ensures
        nib(w >> ((4 * s) as u32), k) == (if s + k < 8 { nib(w, (s + k) as u32) } else { 0 }),
{
}

/// Shifting left by whole groups moves groups up; groups shifted in are empty.
pub proof fn lemma_nib_shl(w: u32, s: u32, k: u32)
    by (bit_vector)
    requires
        s < 8,
        k < 8,
    ensures
        nib(w << ((4 * s) as u32), k) == (if k >= s { nib(w, (k - s) as u32) } else { 0 }),
{
}


/// Group `c` of a row word, where columns outside 0 to 7 hold nothing.
pub open spec fn group_at(w: u32, c: int) -> u32 {
    if 0 <= c < 8 { nib(w, c as u32) } else { 0 }
}

/// A row word moved so that column `x - 2` lands in group 0 (`x` at most 9).
pub open spec fn align(w: u32, x: u32) -> u32 {
    if x > 2 {
        w >> ((4 * (x - 2)) as u32)
    } else if x < 2 {
        w << ((4 * (2 - x)) as u32)
    } else {
        w
    }
}

pub proof fn lemma_align(w: u32, x: u32, k: u32)
    requires
        x <= 9,
        k < 8,
    ensures
        nib(align(w, x), k) == group_at(w, x - 2 + k),
{
    if x > 2 {
        lemma_nib_shr(w, (x - 2) as u32, k);
    } else if x < 2 {
        lemma_nib_shl(w, (2 - x) as u32, k);
    } else {
    }
}

/// Masking a word to its lowest groups keeps those groups and clears the rest.
pub proof fn lemma_low_groups(w: u32, k: u32)
    by (bit_vector)
    requires
        k < 8,
    ensures
        nib(0xFFF & w, k) == (if k < 3 { nib(w, k) } else { 0 }),
        nib(0xFFFF & w, k) == (if k < 4 { nib(w, k) } else { 0 }),
        nib(0xFFFFF & w, k) == (if k < 5 { nib(w, k) } else { 0 }),
        0xFFF & w <= 0xFFF,
        0xFFFF & w <= 0xFFFF,
        0xFFFFF & w <= 0xFFFFF,
        0xFFF & w == w & 0xFFF,
        0xFFFF & w == w & 0xFFFF,
{
}

/// The color bits of a group are the same whether it is read as 32 or 64 bits.
pub proof fn lemma_widen_color(v: u32)
    by (bit_vector)
    ensures
        (v as u64) & 0xE == ((v & 0xE) as u64),
        (v as u64) == 1 <==> v == 1,
{
}


/// The groups of four packed words: 4, 5, 4 and 3 groups from the lowest up.
pub proof fn lemma_pack_4_5_4_3(a0: u32, a1: u32, a2: u32, a3: u32, w: u64, n: u64)
    by (bit_vector)
    requires
        a0 <= 0xFFFF,
        a1 <= 0xFFFFF,
        a2 <= 0xFFFF,
        a3 <= 0xFFF,
        w == (a0 as u64) | ((a1 as u64) << 16) | ((a2 as u64) << 36) | ((a3 as u64) << 52),
        n < 16,
    ensures
        n < 4 ==> nib64(w, n) == nib(a0, n as u32) as u64,
        4 <= n < 9 ==> nib64(w, n) == nib(a1, (n - 4) as u32) as u64,
        9 <= n < 13 ==> nib64(w, n) == nib(a2, (n - 9) as u32) as u64,
        13 <= n ==> nib64(w, n) == nib(a3, (n - 13) as u32) as u64,
{
}


/// The color bits (`0xE`) of group `n` of a 64-bit word.
pub open spec fn color64(w: u64, n: u64) -> u64 {
    nib64(w, n) & 0xE
}


/// A row word moved by `s` whole groups: right for `s >= 0`, left otherwise.
pub open spec fn shift_groups(w: u32, s: int) -> u32 {
    if s >= 0 { w >> ((4 * s) as u32) } else { w << ((-4 * s) as u32) }
}

pub proof fn lemma_shift_groups(w: u32, s: int, k: u32)
    requires
        -8 < s < 8,
        k < 8,
    ensures
        nib(shift_groups(w, s), k) == group_at(w, s + k),
{
    if s >= 0 {
        lemma_nib_shr(w, s as u32, k);
    } else {
        lemma_nib_shl(w, (-s) as u32, k);
    }
}

/// The groups of four packed words: 3, 4, 4 and 3 groups from the lowest up,
/// and two empty groups on top.
pub proof fn lemma_pack_3_4_4_3(a0: u32, a1: u32, a2: u32, a3: u32, w: u64, n: u64)
    by (bit_vector)
    requires
        a0 <= 0xFFF,
        a1 <= 0xFFFF,
        a2 <= 0xFFFF,
        a3 <= 0xFFF,
        w == (a0 as u64) | ((a1 as u64) << 12) | ((a2 as u64) << 28) | ((a3 as u64) << 44),
        n < 16,
    ensures
        n < 3 ==> nib64(w, n) == nib(a0, n as u32) as u64,
        3 <= n < 7 ==> nib64(w, n) == nib(a1, (n - 3) as u32) as u64,
        7 <= n < 11 ==> nib64(w, n) == nib(a2, (n - 7) as u32) as u64,
        11 <= n < 14 ==> nib64(w, n) == nib(a3, (n - 11) as u32) as u64,
        14 <= n ==> nib64(w, n) == 0,
{
}

/// A mask of one whole group tests whether that group is empty.
pub proof fn lemma_group_mask(w: u32, k: u32)
    by (bit_vector)
    requires
        k < 8,
    ensures
        ((0xFu32 << ((4 * k) as u32)) & w != 0) == (nib(w, k) != 0),
{
}


/// Bit `i` of `w` is set.
pub open spec fn bit_set(w: u32, i: u32) -> bool {
    (w >> i) & 1 == 1
}

/// Two words with the same bits are equal.
pub proof fn lemma_same_bits(a: u32, b: u32)
    requires
        forall|i: u32| i < 32 ==> #[trigger] ((a >> i) & 1) == ((b >> i) & 1),
    ensures
        a == b,
{
    assert(((a >> 0u32) & 1) == ((b >> 0u32) & 1));
    assert(((a >> 1u32) & 1) == ((b >> 1u32) & 1));
    assert(((a >> 2u32) & 1) == ((b >> 2u32) & 1));
    assert(((a >> 3u32) & 1) == ((b >> 3u32) & 1));
    assert(((a >> 4u32) & 1) == ((b >> 4u32) & 1));
    assert(((a >> 5u32) & 1) == ((b >> 5u32) & 1));
    assert(((a >> 6u32) & 1) == ((b >> 6u32) & 1));
    assert(((a >> 7u32) & 1) == ((b >> 7u32) & 1));
    assert(((a >> 8u32) & 1) == ((b >> 8u32) & 1));
    assert(((a >> 9u32) & 1) == ((b >> 9u32) & 1));
    assert(((a >> 10u32) & 1) == ((b >> 10u32) & 1));
    assert(((a >> 11u32) & 1) == ((b >> 11u32) & 1));
    assert(((a >> 12u32) & 1) == ((b >> 12u32) & 1));
    assert(((a >> 13u32) & 1) == ((b >> 13u32) & 1));
    assert(((a >> 14u32) & 1) == ((b >> 14u32) & 1));
    assert(((a >> 15u32) & 1) == ((b >> 15u32) & 1));
    assert(((a >> 16u32) & 1) == ((b >> 16u32) & 1));
    assert(((a >> 17u32) & 1) == ((b >> 17u32) & 1));
    assert(((a >> 18u32) & 1) == ((b >> 18u32) & 1));
    assert(((a >> 19u32) & 1) == ((b >> 19u32) & 1));
    assert(((a >> 20u32) & 1) == ((b >> 20u32) & 1));
    assert(((a >> 21u32) & 1) == ((b >> 21u32) & 1));
    assert(((a >> 22u32) & 1) == ((b >> 22u32) & 1));
    assert(((a >> 23u32) & 1) == ((b >> 23u32) & 1));
    assert(((a >> 24u32) & 1) == ((b >> 24u32) & 1));
    assert(((a >> 25u32) & 1) == ((b >> 25u32) & 1));
    assert(((a >> 26u32) & 1) == ((b >> 26u32) & 1));
    assert(((a >> 27u32) & 1) == ((b >> 27u32) & 1));
    assert(((a >> 28u32) & 1) == ((b >> 28u32) & 1));
    assert(((a >> 29u32) & 1) == ((b >> 29u32) & 1));
    assert(((a >> 30u32) & 1) == ((b >> 30u32) & 1));
    assert(((a >> 31u32) & 1) == ((b >> 31u32) & 1));
    assert(a == b) by (bit_vector)
        requires
            (a >> 0u32) & 1 == (b >> 0u32) & 1,
            (a >> 1u32) & 1 == (b >> 1u32) & 1,
            (a >> 2u32) & 1 == (b >> 2u32) & 1,
            (a >> 3u32) & 1 == (b >> 3u32) & 1,
            (a >> 4u32) & 1 == (b >> 4u32) & 1,
            (a >> 5u32) & 1 == (b >> 5u32) & 1,
            (a >> 6u32) & 1 == (b >> 6u32) & 1,
            (a >> 7u32) & 1 == (b >> 7u32) & 1,
            (a >> 8u32) & 1 == (b >> 8u32) & 1,
            (a >> 9u32) & 1 == (b >> 9u32) & 1,
            (a >> 10u32) & 1 == (b >> 10u32) & 1,
            (a >> 11u32) & 1 == (b >> 11u32) & 1,
            (a >> 12u32) & 1 == (b >> 12u32) & 1,
            (a >> 13u32) & 1 == (b >> 13u32) & 1,
            (a >> 14u32) & 1 == (b >> 14u32) & 1,
            (a >> 15u32) & 1 == (b >> 15u32) & 1,
            (a >> 16u32) & 1 == (b >> 16u32) & 1,
            (a >> 17u32) & 1 == (b >> 17u32) & 1,
            (a >> 18u32) & 1 == (b >> 18u32) & 1,
            (a >> 19u32) & 1 == (b >> 19u32) & 1,
            (a >> 20u32) & 1 == (b >> 20u32) & 1,
            (a >> 21u32) & 1 == (b >> 21u32) & 1,
            (a >> 22u32) & 1 == (b >> 22u32) & 1,
            (a >> 23u32) & 1 == (b >> 23u32) & 1,
            (a >> 24u32) & 1 == (b >> 24u32) & 1,
            (a >> 25u32) & 1 == (b >> 25u32) & 1,
            (a >> 26u32) & 1 == (b >> 26u32) & 1,
            (a >> 27u32) & 1 == (b >> 27u32) & 1,
            (a >> 28u32) & 1 == (b >> 28u32) & 1,
            (a >> 29u32) & 1 == (b >> 29u32) & 1,
            (a >> 30u32) & 1 == (b >> 30u32) & 1,
            (a >> 31u32) & 1 == (b >> 31u32) & 1,
    ;
}

/// A bit of an or is set when it is set in either word.
pub proof fn lemma_or_bit(a: u32, b: u32, i: u32)
    by (bit_vector)
    requires
        i < 32,
    ensures
        ((a | b) >> i) & 1 == 1 <==> ((a >> i) & 1 == 1 || (b >> i) & 1 == 1),
        ((a >> i) & 1 == 1) || ((a >> i) & 1 == 0),
{
}

} // verus!
