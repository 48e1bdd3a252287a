//! Bit-level operations on the allocation bitmaps.
//!
//! A bitmap stores one bit per frame, most significant bit first within
//! each byte: frame `i` lives in byte `i / 8` at bit `i % 8` counted from
//! the top of the byte. A set bit means the frame is allocated, a clear
//! bit means it is free.

use vstd::prelude::*;

verus! {

/// True when bit `k` of `byte` is set, counting from the most
/// significant bit, so `k == 0` is the top bit.
pub open spec fn bit_set(byte: u8, k: int) -> bool
    recommends
        0 <= k < 8,
{
    (byte >> ((7 - k) as u8)) & 1u8 == 1u8
}

/// Allocation state of frame `i` in the bitmap `bm`: byte `i / 8`,
/// bit `i % 8` from the most significant end.
pub open spec fn frame_bit(bm: Seq<u8>, i: int) -> bool
    recommends
        0 <= i,
        i / 8 < bm.len(),
{
    bit_set(bm[i / 8], i % 8)
}

proof fn lemma_set_bit_effect(byte: u8, sh: u8)
    by (bit_vector)
    requires
        sh < 8,
    ensures
        ((byte | (1u8 << sh)) >> sh) & 1u8 == 1u8,
        forall|t: u8|
            t < 8 && t != sh ==> ((byte | (1u8 << sh)) >> t) & 1u8 == (byte >> t) & 1u8,
{
}

proof fn lemma_clear_bit_effect(byte: u8, sh: u8)
    by (bit_vector)
    requires
        sh < 8,
    ensures
        ((byte & !(1u8 << sh)) >> sh) & 1u8 != 1u8,
        forall|t: u8|
            t < 8 && t != sh ==> ((byte & !(1u8 << sh)) >> t) & 1u8 == (byte >> t) & 1u8,
{
}

proof fn lemma_zero_byte_clear(sh: u8)
    by (bit_vector)
    requires
        sh < 8,
    ensures
        (0u8 >> sh) & 1u8 != 1u8,
{
}

/// A zeroed byte tracks eight free frames.
pub proof fn lemma_zero_byte_all_free(k: int)
    requires
        0 <= k < 8,
    ensures
        !bit_set(0u8, k),
{
    lemma_zero_byte_clear((7 - k) as u8);
}

/// Reads the allocation bit of frame `i`.
pub fn get_frame_bit(bm: &Vec<u8>, i: usize) -> (r: bool)
    requires
        i / 8 < bm@.len(),
    ensures
        r == frame_bit(bm@, i as int),
{
    let byte: u8 = bm[i / 8];
    let sh: u8 = (7 - (i % 8)) as u8;
    (byte >> sh) & 1u8 == 1u8
}

/// Writes the allocation bit of frame `i`, leaving every other frame's
/// bit unchanged.
pub fn set_frame_bit(bm: &mut Vec<u8>, i: usize, v: bool)
    requires
        i / 8 < old(bm)@.len(),
    ensures
        final(bm)@.len() == old(bm)@.len(),
        frame_bit(final(bm)@, i as int) == v,
        forall|t: int|
            0 <= t && t / 8 < old(bm)@.len() && t != i ==> frame_bit(final(bm)@, t) == frame_bit(
                old(bm)@,
                t,
            ),
{
    let byte_index: usize = i / 8;
    let sh: u8 = (7 - (i % 8)) as u8;
    let byte: u8 = bm[byte_index];
    let updated: u8 = if v {
        byte | (1u8 << sh)
    } else {
        byte & !(1u8 << sh)
    };
    bm[byte_index] = updated;
    proof {
        if v {
            lemma_set_bit_effect(byte, sh);
        } else {
            lemma_clear_bit_effect(byte, sh);
        }
        assert forall|t: int| 0 <= t && t / 8 < old(bm)@.len() && t != i implies frame_bit(
            bm@,
            t,
        ) == frame_bit(old(bm)@, t) by {
            if t / 8 == i as int / 8 {
                assert(t % 8 != i as int % 8);
                let tsh = (7 - t % 8) as u8;
                assert(tsh < 8 && tsh != sh);
            } else {
                assert(bm@[t / 8] == old(bm)@[t / 8]);
            }
        }
    }
}

} // verus!
