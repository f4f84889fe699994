//! Gathering the bits of a word under a mask into the low bits, and
//! scattering them back.

use vstd::prelude::*;

verus! {

/// Clearing the lowest set bit of a nonzero word makes it smaller.
pub proof fn lemma_clear_lowest_smaller(m: u64)
    by (bit_vector)
    requires
        m != 0,
    ensures
        (m & ((m - 1) as u64)) < m,
{
}

/// The lowest set bit of `m`.
pub open spec fn lowest_bit(m: u64) -> u64 {
    m & ((!m + 1) as u64)
}

/// The bits of `src` at the set bits of `mask`, lowest first, packed into
/// the low bits of the result (the `pext` instruction).
pub open spec fn pext(src: u64, mask: u64) -> u64
    decreases mask,
{
    if mask == 0 {
        0
    } else {
        proof {
            lemma_clear_lowest_smaller(mask);
        }
        let b: u64 = if src & lowest_bit(mask) != 0 { 1 } else { 0 };
        b | (pext(src, mask & ((mask - 1) as u64)) << 1u64)
    }
}

/// The low bits of `src`, lowest first, scattered to the set bits of `mask`
/// (the `pdep` instruction).
pub open spec fn pdep(src: u64, mask: u64) -> u64
    decreases mask,
{
    if mask == 0 {
        0
    } else {
        proof {
            lemma_clear_lowest_smaller(mask);
        }
        let placed: u64 = if src & 1 != 0 { lowest_bit(mask) } else { 0 };
        placed | pdep(src >> 1u64, mask & ((mask - 1) as u64))
    }
}

/// Scattered bits land only on bits of the mask.
pub proof fn lemma_pdep_within(src: u64, mask: u64)
    ensures
        pdep(src, mask) & !mask == 0,
    decreases mask,
{
    if mask != 0 {
        lemma_clear_lowest_smaller(mask);
        let rest_mask = mask & ((mask - 1) as u64);
        lemma_pdep_within(src >> 1u64, rest_mask);
        let rest = pdep(src >> 1u64, rest_mask);
        let placed: u64 = if src & 1 != 0 { lowest_bit(mask) } else { 0 };
        assert(placed & !mask == 0) by {
            let l = lowest_bit(mask);
            assert(((mask & ((!mask + 1) as u64)) & !mask) == 0) by (bit_vector);
            assert(0u64 & !mask == 0) by (bit_vector);
        }
        assert((rest & !rest_mask == 0 && placed & !mask == 0 && rest_mask == mask & ((mask - 1) as u64))
            ==> (placed | rest) & !mask == 0) by (bit_vector);
        assert(pdep(src, mask) == placed | rest);
    } else {
        assert(0u64 & !0u64 == 0) by (bit_vector);
    }
}

proof fn lemma_lowest_bit(m: u64)
    by (bit_vector)
    requires
        m != 0,
    ensures
        m & !((m - 1) as u64) == m & ((!m + 1) as u64),
{
}

/// Pack the bits of `source` under `mask` into the low bits.
/// Example: `pack_bits(0b10100, 0b11100) == 0b101`.
pub fn pack_bits(source: u64, mask: u64) -> (r: u64)
    ensures
        r == pext(source, mask),
    decreases mask,
{
    if mask == 0 {
        return 0;
    }
    proof {
        lemma_clear_lowest_smaller(mask);
        lemma_lowest_bit(mask);
    }
    let lowest = mask & !(mask - 1);
    let b: u64 = if source & lowest != 0 { 1 } else { 0 };
    b | (pack_bits(source, mask & (mask - 1)) << 1u64)
}

/// Scatter the low bits of `source` to the set bits of `mask`.
/// Example: `unpack_bits(0b101, 0b11100) == 0b10100`.
pub fn unpack_bits(source: u64, mask: u64) -> (r: u64)
    ensures
        r == pdep(source, mask),
    decreases mask,
{
    if mask == 0 {
        return 0;
    }
    proof {
        lemma_clear_lowest_smaller(mask);
        lemma_lowest_bit(mask);
    }
    let lowest = mask & !(mask - 1);
    let placed: u64 = if source & 1 != 0 { lowest } else { 0 };
    placed | unpack_bits(source >> 1u64, mask & (mask - 1))
}

} // verus!
