use vstd::prelude::*;

verus! {

use vstd::arithmetic::power2::{pow2, lemma_pow2_unfold, lemma_pow2_pos, lemma2_to64, lemma_pow2_adds};

/// `1 << k` is the k-th power of two, for every shift that stays inside 128 bits.
pub proof fn lemma_one_shl(k: u32)
    requires
        k < 128,
    ensures
        (1u128 << k) as nat == pow2(k as nat),
    decreases k,
{
    if k == 0 {
        assert(1u128 << 0u32 == 1u128) by (bit_vector);
        lemma2_to64();
    } else {
        let j: u32 = (k - 1) as u32;
        assert((1u128 << k) == (1u128 << j) * 2) by (bit_vector)
            requires
                0 < k < 128,
                j == k - 1,
        ;
        lemma_one_shl(j);
        lemma_pow2_unfold(k as nat);
    }
}


/// The mask with the low `k` bits set, as the machine computes it.
pub open spec fn low_mask(k: u32) -> u128 {
    ((1u128 << k) - 1) as u128
}

/// The low `k` bits of `a` are `a` modulo `2^k`.
pub proof fn lemma_low_mask_is_mod(a: u128, k: u32)
    requires
        k < 128,
    ensures
        (a & low_mask(k)) as nat == a as nat % pow2(k as nat),
    decreases k,
{
    lemma_pow2_pos(k as nat);
    if k == 0 {
        assert(a & (((1u128 << 0u32) - 1) as u128) == 0u128) by (bit_vector);
        lemma2_to64();
    } else {
        let j: u32 = (k - 1) as u32;
        let h: u128 = a >> 1u32;
        assert(a & (((1u128 << k) - 1) as u128) == (h & (((1u128 << j) - 1) as u128)) * 2 + (a & 1u128)) by (bit_vector)
            requires
                0 < k < 128,
                j == k - 1,
                h == a >> 1u32,
        ;
        assert(a & 1u128 == a % 2) by (bit_vector);
        assert(h == a / 2) by (bit_vector)
            requires
                h == a >> 1u32,
        ;
        lemma_low_mask_is_mod(h, j);
        lemma_pow2_unfold(k as nat);
        lemma_pow2_pos(j as nat);
        vstd::arithmetic::div_mod::lemma_mod_breakdown(a as int, 2, pow2(j as nat) as int);
    }
}


/// The value of `2^128`, one past the largest u128.
pub proof fn lemma_pow2_128()
    ensures
        pow2(128) == 0x1_0000_0000_0000_0000_0000_0000_0000_0000nat,
        pow2(128) == u128::MAX as nat + 1,
{
    lemma2_to64();
    lemma_pow2_adds(64, 64);
}


/// All ones over the low `w` bits, for the two address widths.
pub open spec fn width_ones(w: u8) -> u128 {
    if w == 128 {
        u128::MAX
    } else {
        0xffff_ffffu128
    }
}

/// A run of `p` one bits moved up by `w - p` is the width mask with the
/// low `w - p` bits cleared.
pub proof fn lemma_prefix_ones(p: u8, w: u8)
    requires
        0 < p < w,
        w == 32 || w == 128,
    ensures
        ((((1u128 << p) - 1) as u128) << ((w - p) as u8)) == (width_ones(w) - low_mask(
            (w - p) as u32,
        )) as u128,
        low_mask((w - p) as u32) <= width_ones(w),
{
    let k: u8 = (w - p) as u8;
    let kk: u32 = k as u32;
    if w == 128 {
        assert(((((1u128 << p) - 1) as u128) << k) == (u128::MAX - (((1u128 << kk) - 1) as u128))
            as u128) by (bit_vector)
            requires
                0 < p < 128,
                k == 128 - p,
                kk == k,
        ;
    } else {
        assert(((((1u128 << p) - 1) as u128) << k) == (0xffff_ffffu128 - (((1u128 << kk) - 1)
            as u128)) as u128 && (((1u128 << kk) - 1) as u128) <= 0xffff_ffffu128) by (bit_vector)
            requires
                0 < p < 32,
                k == 32 - p,
                kk == k,
        ;
    }
}

/// Clearing the low bits of an address that fits the width, with a netmask
/// written as the width mask minus the low mask.
pub proof fn lemma_and_netmask(a: u128, w: u8, k: u32, nm: u128)
    requires
        w == 32 || w == 128,
        k < w,
        a <= width_ones(w),
        nm == width_ones(w) - low_mask(k),
    ensures
        a & nm == a - (a & low_mask(k)),
        (a & nm) | (width_ones(w) & !nm) == (a & nm) + low_mask(k),
{
    if w == 128 {
        assert(a & nm == a - (a & (((1u128 << k) - 1) as u128)) && (a & nm) | (u128::MAX & !nm) == (
        a & nm) + (((1u128 << k) - 1) as u128)) by (bit_vector)
            requires
                k < 128,
                nm == u128::MAX - (((1u128 << k) - 1) as u128),
        ;
    } else {
        assert(a & nm == a - (a & (((1u128 << k) - 1) as u128)) && (a & nm) | (0xffff_ffffu128
            & !nm) == (a & nm) + (((1u128 << k) - 1) as u128)) by (bit_vector)
            requires
                k < 32,
                a <= 0xffff_ffffu128,
                nm == 0xffff_ffffu128 - (((1u128 << k) - 1) as u128),
        ;
    }
}

} // verus!
