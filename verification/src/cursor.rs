//! Packed cursor arithmetic.
//!
//! Every cursor in the ring packs two fields into one machine word: the low
//! bits (below `one_lap`, a power of two) carry a slot or block index, the
//! high bits carry the lap version. Extraction is by masking; these helpers
//! relate the masks to plain `%` and `-` so the rest of the crate can reason
//! arithmetically.

use vstd::arithmetic::power2::lemma2_to64;
use vstd::arithmetic::power2::lemma2_to64_rest;
use vstd::arithmetic::power2::lemma_pow2_pos;
use vstd::arithmetic::power2::lemma_pow2_strictly_increases;
use vstd::arithmetic::power2::lemma_pow2_unfold;
use vstd::arithmetic::power2::pow2;
use vstd::bits::lemma_usize_low_bits_mask_is_mod;
use vstd::bits::low_bits_mask;
use vstd::prelude::*;

verus! {

/// `n` is a power of two that fits in a machine word.
pub open spec fn is_pow2(n: usize) -> bool {
    exists|k: nat| n == pow2(k) && k < usize::BITS
}

/// The index field of a packed cursor: the bits below `one_lap`.
pub fn cursor_index(cursor: usize, one_lap: usize) -> (idx: usize)
    requires
        is_pow2(one_lap),
    ensures
        idx == cursor as int % one_lap as int,
        idx < one_lap,
{
    proof {
        lemma_mask_low_is_mod(cursor, one_lap);
    }
    cursor & (one_lap - 1)
}

/// The version field of a packed cursor: the bits at and above `one_lap`.
pub fn cursor_version(cursor: usize, one_lap: usize) -> (vsn: usize)
    requires
        is_pow2(one_lap),
    ensures
        vsn == cursor as int - cursor as int % one_lap as int,
{
    proof {
        lemma_mask_high_is_round_down(cursor, one_lap);
    }
    cursor & !(one_lap - 1)
}

/// A power of two is positive.
pub proof fn lemma_pow2_positive(n: usize)
    requires
        is_pow2(n),
    ensures
        n >= 1,
{
    let k = choose|k: nat| n == pow2(k) && k < usize::BITS;
    lemma_pow2_pos(k);
}

/// An exponent whose power of two fits in a word is below the word size.
proof fn lemma_exponent_in_word(k: nat)
    requires
        pow2(k) <= usize::MAX,
    ensures
        k < usize::BITS,
{
    let bits = usize::BITS as nat;
    lemma2_to64();
    lemma2_to64_rest();
    if (k >= bits) {
        if (k > bits) {
            lemma_pow2_strictly_increases(bits, k);
        }
        assert(pow2(bits) > usize::MAX);
    }
}

/// Masking with `one_lap - 1` is reduction modulo `one_lap`.
pub proof fn lemma_mask_low_is_mod(cursor: usize, one_lap: usize)
    requires
        is_pow2(one_lap),
    ensures
        one_lap >= 1,
        cursor & ((one_lap - 1) as usize) == cursor as int % one_lap as int,
        (cursor as int % one_lap as int) < one_lap,
{
    let k = choose|k: nat| one_lap == pow2(k) && k < usize::BITS;
    lemma_pow2_positive(one_lap);
    assert(low_bits_mask(k) == (one_lap - 1) as nat);
    lemma_usize_low_bits_mask_is_mod(cursor, k);
}

/// Masking out the low bits rounds the cursor down to a lap boundary.
pub proof fn lemma_mask_high_is_round_down(cursor: usize, one_lap: usize)
    requires
        is_pow2(one_lap),
    ensures
        one_lap >= 1,
        cursor & !((one_lap - 1) as usize) == cursor as int - cursor as int % one_lap as int,
{
    lemma_pow2_positive(one_lap);
    let mask = (one_lap - 1) as usize;
    // the two complementary masks split the word
    assert(cursor == (cursor & mask) + (cursor & !mask)) by (bit_vector);
    lemma_mask_low_is_mod(cursor, one_lap);
}

/// Doubling keeps a power of two a power of two.
pub proof fn lemma_pow2_double(n: usize)
    requires
        is_pow2(n),
        2 * n <= usize::MAX,
    ensures
        is_pow2((2 * n) as usize),
{
    let k = choose|k: nat| n == pow2(k) && k < usize::BITS;
    lemma_pow2_unfold(k + 1);
    assert(pow2(k + 1) == 2 * n);
    lemma_exponent_in_word(k + 1);
}

} // verus!
