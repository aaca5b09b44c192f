//! Single-bit views of the `u64` occupancy masks and the `u128` line
//! bitsets, and the handful of bit-vector facts the rest of the crate
//! is proved from.

use vstd::prelude::*;

verus! {

/// Bit `k` of a 64-bit mask, as a boolean.
pub open spec fn occ64(m: u64, k: int) -> bool {
    (m >> (k as u64)) & 1u64 == 1u64
}

/// Bit `k` of a 128-bit bitset, as a boolean.
pub open spec fn occ128(m: u128, k: int) -> bool {
    (m >> (k as u128)) & 1u128 == 1u128
}

/// A bit extraction is never anything but 0 or 1.
pub proof fn lemma_bit64_01(m: u64, k: u64)
    ensures
        (m >> k) & 1u64 == 1u64 || (m >> k) & 1u64 == 0u64,
{
    assert((m >> k) & 1u64 == 1u64 || (m >> k) & 1u64 == 0u64) by (bit_vector);
}

/// A bit extraction is never anything but 0 or 1.
pub proof fn lemma_bit128_01(m: u128, k: u128)
    ensures
        (m >> k) & 1u128 == 1u128 || (m >> k) & 1u128 == 0u128,
{
    assert((m >> k) & 1u128 == 1u128 || (m >> k) & 1u128 == 0u128) by (bit_vector);
}

/// Reading bit `j` after setting bit `k`: the set bit reads as one and
/// every other position is unchanged.
pub proof fn lemma_set64_get(a: u64, k: u64, j: u64)
    requires
        k < 64,
        j < 64,
    ensures
        ((a | (1u64 << k)) >> j) & 1u64 == if j == k {
            1u64
        } else {
            (a >> j) & 1u64
        },
{
    assert(((a | (1u64 << k)) >> j) & 1u64 == if j == k {
        1u64
    } else {
        (a >> j) & 1u64
    }) by (bit_vector)
        requires
            k < 64,
            j < 64,
    ;
}

/// Setting a bit that is free in the union of two disjoint masks keeps
/// the masks disjoint.
pub proof fn lemma_disjoint_after_set(a: u64, b: u64, k: u64)
    requires
        k < 64,
        a & b == 0,
        ((a | b) >> k) & 1u64 == 0u64,
    ensures
        (a | (1u64 << k)) & b == 0,
{
    assert((a | (1u64 << k)) & b == 0) by (bit_vector)
        requires
            k < 64,
            a & b == 0,
            ((a | b) >> k) & 1u64 == 0u64,
    ;
}

/// Setting a bit below position 42 keeps a mask confined to the low 42 bits.
pub proof fn lemma_range_after_set(a: u64, b: u64, k: u64)
    requires
        k < 42,
        (a | b) >> 42 == 0,
    ensures
        ((a | (1u64 << k)) | b) >> 42 == 0,
        (a | (b | (1u64 << k))) >> 42 == 0,
{
    assert((((a | (1u64 << k)) | b) >> 42 == 0 && (a | (b | (1u64 << k))) >> 42 == 0)) by (
    bit_vector)
        requires
            k < 42,
            (a | b) >> 42 == 0,
    ;
}

/// A mask that covers a line keeps covering it when a bit is added; a
/// line newly covered by an added bit must pass through that bit.
pub proof fn lemma_cover_after_set(a: u64, l: u64, k: u64)
    requires
        k < 64,
    ensures
        a & l == l ==> (a | (1u64 << k)) & l == l,
        ((a | (1u64 << k)) & l == l && a & l != l) ==> (l >> k) & 1u64 == 1u64,
{
    assert((a & l == l ==> (a | (1u64 << k)) & l == l) && (((a | (1u64 << k)) & l == l && a & l
        != l) ==> (l >> k) & 1u64 == 1u64)) by (bit_vector);
}

/// A mask stays clear of a line after a bit is added exactly when it
/// was clear of it and the bit is off the line.
pub proof fn lemma_clear_after_set(a: u64, l: u64, k: u64)
    requires
        k < 64,
    ensures
        ((a | (1u64 << k)) & l == 0) <==> (a & l == 0 && (l >> k) & 1u64 != 1u64),
{
    assert(((a | (1u64 << k)) & l == 0) <==> (a & l == 0 && (l >> k) & 1u64 != 1u64)) by (
    bit_vector)
        requires
            k < 64,
    ;
}

/// Two disjoint masks never cover the same nonempty line.
pub proof fn lemma_disjoint_no_shared_cover(a: u64, b: u64, l: u64)
    requires
        a & b == 0,
        b & l == l,
        l != 0,
    ensures
        a & l == 0,
{
    assert(a & l == 0) by (bit_vector)
        requires
            a & b == 0,
            b & l == l,
    ;
}

/// The bitset with one bit per winning line, all 69 of them set.
pub const ALL_LINES: u128 = 0x1fffffffffffffffff;

/// Bits of the all-69-lines bitset: set exactly below position 69.
pub proof fn lemma_all69_bit(j: u128)
    requires
        j < 128,
    ensures
        ((ALL_LINES >> j) & 1u128 == 1u128) <==> j < 69,
{
    assert(((0x1fffffffffffffffffu128 >> j) & 1u128 == 1u128) <==> j < 69) by (bit_vector)
        requires
            j < 128,
    ;
}

/// A bit of `a & !b` is set exactly when it is set in `a` and clear in `b`.
pub proof fn lemma_andnot128_bit(a: u128, b: u128, j: u128)
    requires
        j < 128,
    ensures
        (((a & !b) >> j) & 1u128 == 1u128) <==> ((a >> j) & 1u128 == 1u128 && (b >> j) & 1u128
            != 1u128),
{
    assert((((a & !b) >> j) & 1u128 == 1u128) <==> ((a >> j) & 1u128 == 1u128 && (b >> j) & 1u128
        != 1u128)) by (bit_vector);
}

/// A bit of `a & b` is set exactly when it is set on both sides.
pub proof fn lemma_and128_bit(a: u128, b: u128, j: u128)
    requires
        j < 128,
    ensures
        (((a & b) >> j) & 1u128 == 1u128) <==> ((a >> j) & 1u128 == 1u128 && (b >> j) & 1u128
            == 1u128),
{
    assert((((a & b) >> j) & 1u128 == 1u128) <==> ((a >> j) & 1u128 == 1u128 && (b >> j) & 1u128
        == 1u128)) by (bit_vector);
}

/// Reading bit `j` of a 128-bit set after setting bit `k`.
pub proof fn lemma_set128_get(a: u128, k: u128, j: u128)
    requires
        k < 128,
        j < 128,
    ensures
        ((a | (1u128 << k)) >> j) & 1u128 == if j == k {
            1u128
        } else {
            (a >> j) & 1u128
        },
{
    assert(((a | (1u128 << k)) >> j) & 1u128 == if j == k {
        1u128
    } else {
        (a >> j) & 1u128
    }) by (bit_vector)
        requires
            k < 128,
            j < 128,
    ;
}

/// The bits of a four-cell line mask built from a start and a stride:
/// exactly the four positions of the line are set.
pub proof fn lemma_line_mask_bits(k: u64, s: u64, j: u64)
    requires
        s >= 1,
        k + 3 * s < 64,
        j < 64,
    ensures
        ((((1u64 << k) | (1u64 << (k + s)) | (1u64 << (k + 2 * s)) | (1u64 << (k + 3 * s))) >> j)
            & 1u64 == 1u64) <==> (j == k || j == k + s || j == k + 2 * s || j == k + 3 * s),
{
    assert(((((1u64 << k) | (1u64 << (k + s)) | (1u64 << (k + 2 * s)) | (1u64 << (k + 3 * s))) >> j)
        & 1u64 == 1u64) <==> (j == k || j == k + s || j == k + 2 * s || j == k + 3 * s)) by (
    bit_vector)
        requires
            s >= 1,
            k + 3 * s < 64,
            j < 64,
    ;
}

} // verus!
