//! The block codec: 128 sorted document ids are stored as the steps between
//! neighbours, every step of a block at the same bit width.
//!
//! The packing itself is done by the `bitpacking` crate. This module states
//! what the library relies on and calls it.

use crate::sorted::{nondecreasing, strictly_increasing};
use bitpacking::BitPacker;
use bitpacking::BitPacker4x;
use vstd::arithmetic::power2::{lemma2_to64, lemma_pow2_unfold, pow2};
use vstd::prelude::*;

verus! {

/// Number of document ids in one block.
pub const BLOCK_LEN: usize = 128;

/// Largest bit width of a step between two 32-bit ids.
pub const MAX_BITS: u8 = 32;

/// The codec of the `bitpacking` crate for blocks of 128 integers.
#[verifier::external_type_specification]
#[verifier::external_body]
pub struct ExBitPacker4x(BitPacker4x);

/// Length of the binary numeral of `n`: 0 for 0, else one more than for `n / 2`.
pub open spec fn bit_length(n: nat) -> nat
    decreases n,
{
    if n == 0 {
        0
    } else {
        1 + bit_length(n / 2)
    }
}

/// The step that leads to `block[i]`: from `block[i - 1]`, or from `initial`
/// for the first element.
pub open spec fn delta(initial: u32, block: Seq<u32>, i: int) -> int {
    block[i] - (if i == 0 {
        initial
    } else {
        block[i - 1]
    })
}

/// The largest of the steps that lead to the first `n` elements of `block`,
/// and 0 if none of them is positive.
pub open spec fn max_delta_upto(initial: u32, block: Seq<u32>, n: nat) -> nat
    decreases n,
{
    if n == 0 {
        0
    } else {
        let rest = max_delta_upto(initial, block, (n - 1) as nat);
        let step = delta(initial, block, n - 1);
        if step > rest {
            step as nat
        } else {
            rest
        }
    }
}

/// The largest step within `initial` followed by `block`.
pub open spec fn max_delta(initial: u32, block: Seq<u32>) -> nat {
    max_delta_upto(initial, block, block.len())
}

/// The bit width at which a sorted block is stored: the least that holds its
/// largest step.
pub open spec fn bits_needed(initial: u32, block: Seq<u32>) -> nat {
    bit_length(max_delta(initial, block))
}

/// Bytes that a block takes at `num_bits` bits per step.
pub open spec fn packed_size(num_bits: nat) -> nat {
    BLOCK_LEN as nat * num_bits / 8
}

/// A block that the codec takes: 128 ids in ascending order, none below `initial`.
pub open spec fn is_sorted_block(initial: u32, block: Seq<u32>) -> bool {
    &&& block.len() == BLOCK_LEN
    &&& initial <= block[0]
    &&& nondecreasing(block)
}

/// The bytes that `BitPacker4x::compress_sorted` writes for `block` at
/// `num_bits` bits per step.
pub uninterp spec fn packed_block(initial: u32, block: Seq<u32>, num_bits: u8) -> Seq<u8>;

/// The 128 integers that `BitPacker4x::decompress_sorted` reads out of `bytes`
/// at `num_bits` bits per step.
pub uninterp spec fn unpacked_block(initial: u32, bytes: Seq<u8>, num_bits: u8) -> Seq<u32>;

/// Calls `BitPacker4x::new`, which picks the implementation for this CPU.
/// Nothing is claimed of the value.
#[verifier::external_body]
pub(crate) fn new_bitpacker() -> BitPacker4x {
    BitPacker4x::new()
}

/// Calls `BitPacker4x::compressed_block_size`: a block of 128 integers at
/// `num_bits` bits each takes `128 * num_bits / 8` bytes.
#[verifier::external_body]
pub(crate) fn compressed_block_size(num_bits: u8) -> (size: usize)
    ensures
        size == packed_size(num_bits as nat),
{
    BitPacker4x::compressed_block_size(num_bits)
}

/// Calls `BitPacker4x::num_bits_sorted`. For a sorted block the crate returns
/// the position of the highest bit set in any step, which is the bit length
/// of the largest step.
#[verifier::external_body]
pub(crate) fn num_bits_sorted(bitpacker: &BitPacker4x, initial: u32, block: &[u32]) -> (bits: u8)
    requires
        is_sorted_block(initial, block@),
    ensures
        bits == bits_needed(initial, block@),
{
    bitpacker.num_bits_sorted(initial, block)
}

/// Calls `BitPacker4x::compress_sorted` on a destination of exactly the
/// block's packed size. Claimed of the crate: it fills the destination with
/// bytes that depend on `initial`, the block and the width alone, and
/// `decompress_sorted` at the same `initial` and width reads the block back
/// out of them. The number of bytes that the crate returns is dropped.
#[verifier::external_body]
pub(crate) fn compress_sorted(
    bitpacker: &BitPacker4x,
    initial: u32,
    block: &[u32],
    compressed: &mut [u8],
    num_bits: u8,
)
    requires
        is_sorted_block(initial, block@),
        bits_needed(initial, block@) <= num_bits <= MAX_BITS,
        old(compressed)@.len() == packed_size(num_bits as nat),
    ensures
        final(compressed)@ == packed_block(initial, block@, num_bits),
        final(compressed)@.len() == old(compressed)@.len(),
        unpacked_block(initial, final(compressed)@, num_bits) == block@,
{
    bitpacker.compress_sorted(initial, block, compressed, num_bits);
}

/// Calls `BitPacker4x::decompress_sorted` on the bytes of one block. Claimed of
/// the crate: it overwrites the 128 integers of the destination with values
/// that depend on `initial`, the bytes and the width alone. The number of
/// bytes read, which the crate returns, is dropped.
#[verifier::external_body]
pub(crate) fn decompress_sorted(
    bitpacker: &BitPacker4x,
    initial: u32,
    compressed: &[u8],
    decompressed: &mut [u32],
    num_bits: u8,
)
    requires
        num_bits <= MAX_BITS,
        compressed@.len() == packed_size(num_bits as nat),
        old(decompressed)@.len() == BLOCK_LEN,
    ensures
        final(decompressed)@ == unpacked_block(initial, compressed@, num_bits),
        final(decompressed)@.len() == BLOCK_LEN,
{
    bitpacker.decompress_sorted(initial, compressed, decompressed, num_bits);
}

/// A number below `2^k` has at most `k` binary digits.
proof fn lemma_bit_length_below_pow2(n: nat, k: nat)
    requires
        n < pow2(k),
    ensures
        bit_length(n) <= k,
    decreases k,
{
    lemma2_to64();
    if n > 0 {
        lemma_pow2_unfold(k);
        lemma_bit_length_below_pow2(n / 2, (k - 1) as nat);
    }
}

/// Sixteen bytes per bit of width are at most the number itself and 64.
proof fn lemma_bit_length_linear(d: nat)
    ensures
        16 * bit_length(d) <= d + 64,
    decreases d,
{
    lemma2_to64();
    if d >= 32 {
        lemma_bit_length_linear(d / 2);
    } else if d >= 16 {
        lemma_bit_length_below_pow2(d, 5);
    } else if d >= 8 {
        lemma_bit_length_below_pow2(d, 4);
    } else if d >= 4 {
        lemma_bit_length_below_pow2(d, 3);
    } else if d >= 2 {
        lemma_bit_length_below_pow2(d, 2);
    } else {
        lemma_bit_length_below_pow2(d, 1);
    }
}

/// In ascending order no step among the first `n` exceeds the way from
/// `initial` to the `n`-th element.
proof fn lemma_max_delta_within_span(initial: u32, block: Seq<u32>, n: nat)
    requires
        nondecreasing(block),
        0 < n <= block.len(),
        initial <= block[0],
    ensures
        max_delta_upto(initial, block, n) <= block[n - 1] - initial,
    decreases n,
{
    if n > 1 {
        lemma_max_delta_within_span(initial, block, (n - 1) as nat);
        assert(block[0] <= block[n - 2] <= block[n - 1]);
    } else {
        assert(max_delta_upto(initial, block, 0) == 0);
    }
}

/// A block that the codec takes needs at most 32 bits per step.
pub(crate) proof fn lemma_bits_needed_fit(initial: u32, block: Seq<u32>)
    requires
        is_sorted_block(initial, block),
    ensures
        bits_needed(initial, block) <= MAX_BITS,
{
    lemma_max_delta_within_span(initial, block, block.len());
    lemma2_to64();
    lemma_bit_length_below_pow2(max_delta(initial, block), 32);
}

/// In strictly ascending order the largest of the first `n` steps, counted
/// from the block's own first element, leaves room for all the others.
proof fn lemma_max_delta_strict(block: Seq<u32>, n: nat)
    requires
        strictly_increasing(block),
        2 <= n <= block.len(),
    ensures
        max_delta_upto(block[0], block, n) + n - 2 <= block[n - 1] - block[0],
        n - 1 <= block[n - 1] - block[0],
    decreases n,
{
    if n > 2 {
        lemma_max_delta_strict(block, (n - 1) as nat);
    } else {
        assert(max_delta_upto(block[0], block, 1) == 0) by {
            reveal_with_fuel(max_delta_upto, 2);
        }
    }
}

/// No step among the first `n` is larger than the largest of them.
proof fn lemma_max_delta_covers(initial: u32, block: Seq<u32>, n: nat, i: int)
    requires
        0 <= i < n,
    ensures
        delta(initial, block, i) <= max_delta_upto(initial, block, n),
    decreases n,
{
    if i < n - 1 {
        lemma_max_delta_covers(initial, block, (n - 1) as nat, i);
    }
}

/// A full block of strictly ascending ids takes at least one bit per step,
/// and packs into fewer bytes than the distance from its first id to its
/// last, by at least 62.
pub(crate) proof fn lemma_strict_block_size(block: Seq<u32>)
    requires
        block.len() == BLOCK_LEN,
        strictly_increasing(block),
    ensures
        bits_needed(block[0], block) >= 1,
        packed_size(bits_needed(block[0], block)) + 62 <= block[BLOCK_LEN - 1] - block[0],
{
    lemma_max_delta_strict(block, block.len());
    lemma_bit_length_linear(max_delta(block[0], block));
    lemma_max_delta_covers(block[0], block, block.len(), 1);
    assert(delta(block[0], block, 1) >= 1);
}

} // verus!
