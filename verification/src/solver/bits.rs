//! Facts about single bits of a 64-bit word, each proved by bit blasting.
//! The rest of the crate reasons about masks only through these.

use vstd::prelude::*;
use vstd::std_specs::bits::{axiom_u64_trailing_zeros, u64_trailing_zeros};

verus! {

/// Whether bit `i` of `b` is set.
pub open spec fn bit(b: u64, i: u64) -> bool {
    (b >> i) & 1 == 1
}

/// A bit of `a | b` is set where it is set in `a` or in `b`.
pub proof fn lemma_bit_or(a: u64, b: u64, i: u64)
    by (bit_vector)
    requires
        i < 64,
    ensures
        bit(a | b, i) == (bit(a, i) || bit(b, i)),
{
}

/// A bit of `a & b` is set where it is set in `a` and in `b`.
pub proof fn lemma_bit_and(a: u64, b: u64, i: u64)
    by (bit_vector)
    requires
        i < 64,
    ensures
        bit(a & b, i) == (bit(a, i) && bit(b, i)),
{
}

/// A bit of `!a` is set where it is clear in `a`.
pub proof fn lemma_bit_not(a: u64, i: u64)
    by (bit_vector)
    requires
        i < 64,
    ensures
        bit(!a, i) == !bit(a, i),
{
}

/// A bit of `a ^ b` is set where `a` and `b` differ.
pub proof fn lemma_bit_xor(a: u64, b: u64, i: u64)
    by (bit_vector)
    requires
        i < 64,
    ensures
        bit(a ^ b, i) == (bit(a, i) != bit(b, i)),
{
}

/// `1 << k` has bit `k` set and no other.
pub proof fn lemma_bit_single(k: u64, i: u64)
    by (bit_vector)
    requires
        k < 64,
        i < 64,
    ensures
        bit(1u64 << k, i) == (i == k),
{
}

/// A left shift by `s` moves bit `i - s` to bit `i`.
pub proof fn lemma_bit_shl(a: u64, s: u64, i: u64)
    by (bit_vector)
    requires
        s < 64,
        i < 64,
    ensures
        bit(a << s, i) == (i >= s && bit(a, (i - s) as u64)),
{
}

/// A right shift by `s` moves bit `i + s` to bit `i`.
pub proof fn lemma_bit_shr(a: u64, s: u64, i: u64)
    by (bit_vector)
    requires
        s < 64,
        i < 64,
    ensures
        bit(a >> s, i) == (i + s < 64 && bit(a, (i + s) as u64)),
{
}

/// A word that is at most the full board has no bit set past the last cell.
pub proof fn lemma_bit_past_board(a: u64, i: u64)
    by (bit_vector)
    requires
        a <= 0x003F_FFFF_FFFF_FFFFu64,
        54 <= i < 64,
    ensures
        !bit(a, i),
{
}

/// The operations on mask words keep them within the full board.
pub proof fn lemma_ops_within_board(a: u64, b: u64, k: u64)
    by (bit_vector)
    requires
        a <= 0x003F_FFFF_FFFF_FFFFu64,
    ensures
        a & b <= 0x003F_FFFF_FFFF_FFFFu64,
        b & a <= 0x003F_FFFF_FFFF_FFFFu64,
        b <= 0x003F_FFFF_FFFF_FFFFu64 ==> a | b <= 0x003F_FFFF_FFFF_FFFFu64,
        k < 54 ==> a | (1u64 << k) <= 0x003F_FFFF_FFFF_FFFFu64,
        k < 64 ==> a >> k <= 0x003F_FFFF_FFFF_FFFFu64,
{
}

/// Bits of the pattern that keeps, of a row of six cells, the columns from
/// `k` on, and of the pattern that keeps the columns below `6 - k`.
pub proof fn lemma_row_pattern(k: u64, j: u64)
    by (bit_vector)
    requires
        k < 6,
        j < 6,
    ensures
        (0x3Fu64 << k) & 0x3Fu64 < 64,
        0x3Fu64 >> k < 64,
        bit((0x3Fu64 << k) & 0x3Fu64, j) == (j >= k),
        bit(0x3Fu64 >> k, j) == (j + k < 6),
{
}

/// A pattern of six bits times `ROW_UNIT` is the pattern repeated in each of
/// the nine rows of the board.
pub proof fn lemma_row_repeated(row: u64, i: u64)
    by (bit_vector)
    requires
        row < 64,
        i < 64,
    ensures
        row * 0x0001_0410_4104_1041u64 <= 0x003F_FFFF_FFFF_FFFFu64,
        bit((row * 0x0001_0410_4104_1041u64) as u64, i) == (i < 54 && bit(row, i % 6)),
{
}

/// Taking one from a word and intersecting clears its lowest set bit.
pub proof fn lemma_clear_lowest(a: u64, t: u64)
    by (bit_vector)
    requires
        t < 64,
        bit(a, t),
        a << ((64 - t) as u64) == 0,
    ensures
        a >= 1,
        a & ((a - 1) as u64) == a & !(1u64 << t),
        a & ((a - 1) as u64) < a,
{
}

/// A word below `2^9` is one whose bits from 9 on are clear, and setting
/// one of its first nine bits keeps it so.
pub proof fn lemma_nine_bits(a: u64, k: u64)
    by (bit_vector)
    requires
        a < 512,
    ensures
        k < 9 ==> a | (1u64 << k) < 512,
        9 <= k < 64 ==> !bit(a, k),
        a & ((a - 1) as u64) < 512,
{
}

/// Zero has no bit set.
pub proof fn lemma_bit_zero(i: u64)
    by (bit_vector)
    requires
        i < 64,
    ensures
        !bit(0u64, i),
{
}

/// A word that is not zero has a lowest set bit, at the position that
/// `trailing_zeros` reports.
pub proof fn lemma_lowest_bit(a: u64)
    requires
        a != 0,
    ensures
        u64_trailing_zeros(a) < 64,
        bit(a, u64_trailing_zeros(a) as u64),
        forall|j: u64| j < u64_trailing_zeros(a) ==> !#[trigger] bit(a, j),
{
    axiom_u64_trailing_zeros(a);
    assert forall|j: u64| j < u64_trailing_zeros(a) implies !#[trigger] bit(a, j) by {
        assert((a >> j) & 1u64 == 0u64);
    }
}

/// Two words with the same bits are the same word.
pub proof fn lemma_bits_equal(a: u64, b: u64)
    requires
        forall|i: u64| i < 64 ==> bit(a, i) == bit(b, i),
    ensures
        a == b,
{
    let d = a ^ b;
    if d != 0 {
        lemma_lowest_bit(d);
        let t = u64_trailing_zeros(d) as u64;
        lemma_bit_xor(a, b, t);
        assert(bit(a, t) == bit(b, t));
    }
    lemma_xor_zero(a, b);
}

/// Packing a cell index, a number of quarter turns and a flag into one
/// number by shifts is the same as by multiplications.
pub proof fn lemma_pack_code(pos: u64, rotation: u64, flipped: u64)
    by (bit_vector)
    requires
        pos < 54,
        rotation < 4,
        flipped < 2,
    ensures
        (pos << 3) | (rotation << 1) | flipped == pos * 8 + rotation * 2 + flipped,
{
}

proof fn lemma_xor_zero(a: u64, b: u64)
    by (bit_vector)
    ensures
        a ^ b == 0 ==> a == b,
{
}

} // verus!
