//! The layout of the two bitmaps of a node.
//!
//! A node of stride `S` covers the nibbles of length 1 to `S` that follow the
//! path to the node. The prefix bitmap has one bit for each of them, laid out
//! as the levels of a complete binary tree are read from the top: the nibble
//! `n` of length `len` is at place `2^len - 1 + n`, counted from the most
//! significant bit of a field of `2^(S+1)` bits. The child bitmap has one bit
//! for each nibble of length `S`, the nibble `n` at place `n` of a field of
//! `2^S` bits.

use vstd::prelude::*;
use vstd::arithmetic::power2::{pow2, lemma2_to64, lemma_pow2_strictly_increases};
use vstd::bits::lemma_u32_shl_is_mul;

verus! {

/// The strides that a node can have.
pub open spec fn valid_stride(stride: u8) -> bool {
    3 <= stride <= 5
}

/// The bit of the prefix bitmap that stands for the nibble, counted from the
/// least significant bit.
pub open spec fn pfx_shift(stride: u8, nibble: nat, len: nat) -> nat {
    (pow2((stride + 1) as nat) - pow2(len) - nibble) as nat
}

/// The bit of the child bitmap that stands for the nibble, counted from the
/// least significant bit.
pub open spec fn ptr_shift(stride: u8, nibble: nat) -> nat {
    (pow2(stride as nat) - 1 - nibble) as nat
}

/// Whether the bit `shift` of a prefix bitmap is set.
pub open spec fn bit_is_set(bitmap: u64, shift: nat) -> bool {
    bitmap & (1u64 << (shift as u64)) != 0
}

/// Whether the bit `shift` of a child bitmap is set.
pub open spec fn ptr_bit_is_set(bitmap: u32, shift: nat) -> bool {
    bitmap & (1u32 << (shift as u32)) != 0
}

/// Setting one bit sets that bit and leaves the others.
pub proof fn lemma_set_bit(bitmap: u64, s: u64, t: u64)
    by (bit_vector)
    requires
        s < 64,
        t < 64,
    ensures
        ((bitmap | (1u64 << s)) & (1u64 << t) != 0) == ((bitmap & (1u64 << t)) != 0 || s == t),
{
}

/// Setting one bit sets that bit and leaves the others.
pub proof fn lemma_set_ptr_bit(bitmap: u32, s: u32, t: u32)
    by (bit_vector)
    requires
        s < 32,
        t < 32,
    ensures
        ((bitmap | (1u32 << s)) & (1u32 << t) != 0) == ((bitmap & (1u32 << t)) != 0 || s == t),
{
}

/// No bit of an empty bitmap is set.
pub proof fn lemma_empty_bitmaps(shift: nat)
    ensures
        !bit_is_set(0, shift),
        !ptr_bit_is_set(0, shift),
{
    let s = shift as u64;
    assert(0u64 & (1u64 << s) == 0) by (bit_vector);
    let t = shift as u32;
    assert(0u32 & (1u32 << t) == 0) by (bit_vector);
}

/// Where the bits of the nibbles are: within the bitmaps, and each nibble at
/// a bit of its own.
pub proof fn lemma_layout(stride: u8, nibble: nat, len: nat)
    requires
        valid_stride(stride),
        len <= stride,
        nibble < pow2(len),
    ensures
        1 <= pfx_shift(stride, nibble, len) < 64,
        pfx_shift(stride, nibble, len) + pow2(len) + nibble == pow2((stride + 1) as nat),
        len == stride ==> ptr_shift(stride, nibble) < 32 && ptr_shift(stride, nibble) + 1 + nibble
            == pow2(stride as nat),
        pow2(len) <= 32,
        pow2((stride + 1) as nat) <= 64,
{
    lemma2_to64();
    if len < stride {
        lemma_pow2_strictly_increases(len, stride as nat);
    }
    lemma_pow2_strictly_increases(stride as nat, (stride + 1) as nat);
    vstd::arithmetic::power2::lemma_pow2_unfold((stride + 1) as nat);
}

/// Different nibbles have different bits in the prefix bitmap.
pub proof fn lemma_layout_distinct(stride: u8, n1: nat, k1: nat, n2: nat, k2: nat)
    requires
        valid_stride(stride),
        k1 <= stride,
        k2 <= stride,
        n1 < pow2(k1),
        n2 < pow2(k2),
        pfx_shift(stride, n1, k1) == pfx_shift(stride, n2, k2),
    ensures
        n1 == n2,
        k1 == k2,
{
    lemma_layout(stride, n1, k1);
    lemma_layout(stride, n2, k2);
    if k1 < k2 {
        lemma_pow2_strictly_increases(k1, k2);
        vstd::arithmetic::power2::lemma_pow2_unfold(k2);
        lemma_pow2_le_local(k1, (k2 - 1) as nat);
    } else if k2 < k1 {
        lemma_pow2_strictly_increases(k2, k1);
        vstd::arithmetic::power2::lemma_pow2_unfold(k1);
        lemma_pow2_le_local(k2, (k1 - 1) as nat);
    }
}

proof fn lemma_pow2_le_local(a: nat, b: nat)
    requires
        a <= b,
    ensures
        pow2(a) <= pow2(b),
{
    if a < b {
        lemma_pow2_strictly_increases(a, b);
    }
}

/// Two to the power `k`, for the small powers that the bitmaps need.
pub fn pow2_u32(k: u8) -> (r: u32)
    requires
        k <= 6,
    ensures
        r == pow2(k as nat),
        r <= 64,
{
    proof {
        lemma2_to64();
        lemma_pow2_le_local(k as nat, 6);
        lemma_u32_shl_is_mul(1u32, k as u32);
    }
    1u32 << (k as u32)
}

/// The bit of the prefix bitmap that stands for the nibble.
pub fn get_bit_pos(stride: u8, nibble: u32, len: u8) -> (r: u64)
    requires
        valid_stride(stride),
        len <= stride,
        (nibble as nat) < pow2(len as nat),
    ensures
        r == 1u64 << (pfx_shift(stride, nibble as nat, len as nat) as u64),
{
    proof {
        lemma_layout(stride, nibble as nat, len as nat);
    }
    let bits: u32 = pow2_u32(stride + 1);
    let index: u32 = pow2_u32(len) - 1 + nibble;
    1u64 << ((bits - 1 - index) as u64)
}

/// The bit of the child bitmap that stands for the nibble of full length.
pub fn get_ptr_bit_pos(stride: u8, nibble: u32) -> (r: u32)
    requires
        valid_stride(stride),
        (nibble as nat) < pow2(stride as nat),
    ensures
        r == 1u32 << (ptr_shift(stride, nibble as nat) as u32),
{
    proof {
        lemma_layout(stride, nibble as nat, stride as nat);
    }
    let bits: u32 = pow2_u32(stride);
    1u32 << (bits - 1 - nibble)
}

} // verus!
