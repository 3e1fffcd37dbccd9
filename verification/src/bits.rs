//! Bit-level lemmas behind the classifier's carry-propagation trick.
//!
//! All masks are reasoned about as 64-bit values: the 32 table lanes occupy
//! the low half, and sums of two such masks never overflow 64 bits, so
//! addition here is exact. `run_mask(lo, hi)` is the contiguous run of bits
//! `lo..=hi`; a candidate whose bytes occupy table offsets `lo..=hi` owns
//! exactly that run in every derived mask.

use vstd::prelude::*;

verus! {

/// Bit `p` of `x` is set.
pub open spec fn bit64(x: u64, p: u64) -> bool {
    (x >> p) & 1 == 1
}

/// The bits `lo..=hi`, all set.
pub open spec fn run_mask(lo: u64, hi: u64) -> u64 {
    (((1u64 << hi) << 1) - (1u64 << lo)) as u64
}

/// The bits `lo..hi`, all set (the run without its topmost bit).
pub open spec fn sub_mask(lo: u64, hi: u64) -> u64 {
    ((1u64 << hi) - (1u64 << lo)) as u64
}

/// The bits `0..p`, all set.
pub open spec fn low_bits(p: u64) -> u64 {
    ((1u64 << p) - 1) as u64
}

/// Setting one bit by `|` sets that bit and leaves every other bit alone.
pub proof fn lemma_or_sets_bit(x: u64, j: u64, p: u64)
    by (bit_vector)
    requires
        j < 64,
        p < 64,
    ensures
        bit64(x | (1u64 << j), j),
        p != j ==> bit64(x | (1u64 << j), p) == bit64(x, p),
{
}

/// Setting a bit at or above `j` does not change the value below `j`.
pub proof fn lemma_or_keeps_low(x: u64, j: u64, rm: u64)
    by (bit_vector)
    requires
        j < 64,
        rm < (1u64 << j),
    ensures
        (x | (1u64 << j)) & rm == x & rm,
{
}

/// A value with no bits at or above `lo` gains exactly bit `b` of the run
/// `lo..=hi` when bit `b` is set, for `b` inside the run; and stays below
/// the next free position.
pub proof fn lemma_or_fresh_bit(x: u64, lo: u64, hi: u64, b: u64)
    by (bit_vector)
    requires
        lo <= b <= hi,
        hi < 63,
        x < (1u64 << lo),
    ensures
        (x | (1u64 << b)) & run_mask(lo, hi) == (1u64 << b),
        (x | (1u64 << b)) < (1u64 << (b + 1)),
{
}

/// Casting a value that fits 32 bits down to `u32` and back loses nothing.
pub proof fn lemma_u32_roundtrip(x: u64)
    by (bit_vector)
    requires
        x < 0x1_0000_0000,
    ensures
        ((x as u32) as u64) == x,
{
}

/// A value below `2^t` has no bits at or above `t`.
pub proof fn lemma_high_bits_clear(x: u64, t: u64, p: u64)
    by (bit_vector)
    requires
        x < (1u64 << t),
        t <= p < 64,
    ensures
        !bit64(x, p),
{
}

/// Bits of a three-way `&` are the conjunction of the operands' bits.
pub proof fn lemma_and3_bit(a: u64, b: u64, c: u64, p: u64)
    by (bit_vector)
    requires
        p < 64,
    ensures
        bit64(a & b & c, p) == (bit64(a, p) && bit64(b, p) && bit64(c, p)),
{
}

/// Bits of `a & !b` in terms of the operands' bits.
pub proof fn lemma_andnot_bit(a: u64, b: u64, p: u64)
    by (bit_vector)
    requires
        p < 64,
    ensures
        bit64(a & !b, p) == (bit64(a, p) && !bit64(b, p)),
{
}

/// If a mask holds the whole run `lo..hi`, every bit of the run is set.
pub proof fn lemma_run_gives_bits(x: u64, lo: u64, hi: u64, p: u64)
    by (bit_vector)
    requires
        lo <= p < hi,
        hi < 64,
        x & sub_mask(lo, hi) == sub_mask(lo, hi),
    ensures
        bit64(x, p),
{
}

/// If the run `lo..=hi` of `x` is exactly the single bit `b`, then inside
/// the run only bit `b` is set.
pub proof fn lemma_single_bit_in_run(x: u64, lo: u64, hi: u64, b: u64, p: u64)
    by (bit_vector)
    requires
        lo <= b <= hi,
        lo <= p <= hi,
        hi < 63,
        x & run_mask(lo, hi) == (1u64 << b),
    ensures
        bit64(x, p) == (p == b),
{
}

/// One induction step of `lemma_bits_give_run`.
proof fn lemma_bits_give_run_step(x: u64, lo: u64, hi: u64)
    by (bit_vector)
    requires
        lo < hi,
        hi < 64,
        x & sub_mask(lo, (hi - 1) as u64) == sub_mask(lo, (hi - 1) as u64),
        bit64(x, (hi - 1) as u64),
    ensures
        x & sub_mask(lo, hi) == sub_mask(lo, hi),
{
}

/// If every bit of the run `lo..hi` is set in `x`, `x` holds the whole run.
pub proof fn lemma_bits_give_run(x: u64, lo: u64, hi: u64)
    requires
        lo <= hi,
        hi < 64,
        forall|p: u64| lo <= p < hi ==> bit64(x, p),
    ensures
        x & sub_mask(lo, hi) == sub_mask(lo, hi),
    decreases hi - lo,
{
    if lo == hi {
        assert(x & sub_mask(lo, hi) == sub_mask(lo, hi)) by (bit_vector)
            requires
                lo == hi,
                hi < 64,
        ;
    } else {
        lemma_bits_give_run(x, lo, (hi - 1) as u64);
        lemma_bits_give_run_step(x, lo, hi);
    }
}

/// A run of bits `lo..=hi` is a value below `2^(hi+1)`.
pub proof fn lemma_run_mask_bound(lo: u64, hi: u64)
    by (bit_vector)
    requires
        lo <= hi < 63,
    ensures
        run_mask(lo, hi) < (1u64 << (hi + 1)),
{
}

/// Shifting one further left never shrinks a power of two.
pub proof fn lemma_shift_mono(a: u64, b: u64)
    by (bit_vector)
    requires
        a <= b < 64,
    ensures
        (1u64 << a) <= (1u64 << b),
{
}

/// The carry-propagation core, one candidate region at a time.
///
/// `m` is the comparison mask with tail bits cleared and `h` the head-bit
/// mask. Inside the region `lo..=hi` the head mask holds exactly bit `lo`,
/// the cleared mask has bit `hi` clear, and no carry arrives from below
/// `lo`. Then in the sum `m + h`, bit `hi` is set exactly when the whole
/// run `lo..hi` of `m` is set (the carry injected at `lo` ripples up to
/// `hi` if and only if every bit on the way is set), and no carry leaves
/// the region.
pub proof fn lemma_region_carry(m: u64, h: u64, lo: u64, hi: u64)
    by (bit_vector)
    requires
        lo <= hi,
        hi < 63,
        m < 0x1_0000_0000,
        h < 0x1_0000_0000,
        !bit64(m, hi),
        h & run_mask(lo, hi) == (1u64 << lo),
        (m & low_bits(lo)) + (h & low_bits(lo)) < (1u64 << lo),
    ensures
        bit64((m + h) as u64, hi) == (m & sub_mask(lo, hi) == sub_mask(lo, hi)),
        (m & low_bits((hi + 1) as u64)) + (h & low_bits((hi + 1) as u64)) < (1u64 << (hi + 1)),
{
}

} // verus!
