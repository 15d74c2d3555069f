//! Bit-level view of the 9-bit availability masks.
//!
//! A mask is a `u16` whose bits 0..9 record which of the digits 1..=9 are
//! still available in one row, column or box; bit `d` stands for digit
//! `d + 1`.

use vstd::prelude::*;

verus! {

/// True iff bit `d` of `m` is set.
pub open spec fn bit16(m: u16, d: u16) -> bool {
    m & (1u16 << d) != 0u16
}

/// The positions below `d` whose bits are set in `m`, in ascending order.
pub open spec fn bits_upto(m: u16, d: int) -> Seq<usize>
    decreases d,
{
    if d <= 0 {
        Seq::empty()
    } else if bit16(m, (d - 1) as u16) {
        bits_upto(m, d - 1) + seq![(d - 1) as usize]
    } else {
        bits_upto(m, d - 1)
    }
}

/// Clearing bit `d` clears exactly that bit.
pub proof fn lemma_bit_clear(m: u16, d: u16, e: u16)
    requires
        d < 9,
        e < 9,
    ensures
        bit16(m & !(1u16 << d), e) == (e != d && bit16(m, e)),
{
    assert(bit16(m & !(1u16 << d), e) == (e != d && bit16(m, e))) by (bit_vector)
        requires
            d < 9,
            e < 9,
    ;
}

/// Setting bit `d` sets exactly that bit.
pub proof fn lemma_bit_set(m: u16, d: u16, e: u16)
    requires
        d < 9,
        e < 9,
    ensures
        bit16(m | (1u16 << d), e) == (e == d || bit16(m, e)),
{
    assert(bit16(m | (1u16 << d), e) == (e == d || bit16(m, e))) by (bit_vector)
        requires
            d < 9,
            e < 9,
    ;
}

/// Setting a bit right after clearing it restores the original mask exactly,
/// provided the bit was set to begin with.
pub proof fn lemma_bit_restore(m: u16, d: u16)
    requires
        d < 9,
        bit16(m, d),
    ensures
        (m & !(1u16 << d)) | (1u16 << d) == m,
{
    assert((m & !(1u16 << d)) | (1u16 << d) == m) by (bit_vector)
        requires
            d < 9,
            m & (1u16 << d) != 0u16,
    ;
}

/// Clearing a bit right after setting it restores the original mask
/// exactly, provided the bit was clear to begin with.
pub proof fn lemma_bit_restore_clear(m: u16, d: u16)
    requires
        d < 9,
        !bit16(m, d),
    ensures
        (m | (1u16 << d)) & !(1u16 << d) == m,
{
    assert((m | (1u16 << d)) & !(1u16 << d) == m) by (bit_vector)
        requires
            d < 9,
            m & (1u16 << d) == 0u16,
    ;
}

/// Every low bit of the all-ones mask is set.
pub proof fn lemma_bit_all_ones(e: u16)
    requires
        e < 9,
    ensures
        bit16(0xffffu16, e),
{
    assert(bit16(0xffffu16, e)) by (bit_vector)
        requires
            e < 9,
    ;
}

/// A bit of an intersection of three masks is the conjunction of the bits.
pub proof fn lemma_bit_and3(m1: u16, m2: u16, m3: u16, e: u16)
    requires
        e < 9,
    ensures
        bit16(m1 & m2 & m3, e) == (bit16(m1, e) && bit16(m2, e) && bit16(m3, e)),
{
    assert(bit16(m1 & m2 & m3, e) == (bit16(m1, e) && bit16(m2, e) && bit16(m3, e)))
        by (bit_vector)
        requires
            e < 9,
    ;
}

/// Every element of `bits_upto(m, d)` is a set bit position below `d`, and
/// the list is strictly ascending.
pub proof fn lemma_bits_upto_elems(m: u16, d: int)
    requires
        0 <= d <= 9,
    ensures
        forall|t: int|
            0 <= t < bits_upto(m, d).len() ==> #[trigger] bits_upto(m, d)[t] < d
                && bit16(m, bits_upto(m, d)[t] as u16),
        forall|a: int, b: int|
            0 <= a < b < bits_upto(m, d).len() ==> bits_upto(m, d)[a] < bits_upto(m, d)[b],
    decreases d,
{
    if d > 0 {
        lemma_bits_upto_elems(m, d - 1);
        let s = bits_upto(m, d);
        let s0 = bits_upto(m, d - 1);
        assert forall|t: int| 0 <= t < s.len() implies #[trigger] s[t] < d
            && bit16(m, s[t] as u16) by {
            if t < s0.len() {
                assert(s[t] == s0[t]);
            } else {
                assert(s[t] == d - 1);
            }
        }
        assert forall|a: int, b: int| 0 <= a < b < s.len() implies s[a] < s[b] by {
            if b < s0.len() {
                assert(s[a] == s0[a] && s[b] == s0[b]);
            } else {
                assert(s[b] == d - 1);
                assert(s[a] == s0[a] && s0[a] < d - 1);
            }
        }
    }
}

/// Decodes the low nine bits of a mask into the ascending list of set bit
/// positions, each standing for a zero-based digit.
pub fn decode_bits(m: u16) -> (r: Vec<usize>)
    ensures
        r@ == bits_upto(m, 9),
{
    let mut r: Vec<usize> = Vec::new();
    let mut k: usize = 0;
    while k < 9
        invariant
            k <= 9,
            r@ == bits_upto(m, k as int),
        decreases 9 - k,
    {
        let b: u16 = 1u16 << (k as u16);
        if m & b != 0u16 {
            r.push(k);
            assert(r@ =~= bits_upto(m, k as int) + seq![k]);
        }
        k = k + 1;
    }
    r
}

/// Counts the set bits among the low nine bits of a mask.
pub fn count_bits(m: u16) -> (n: usize)
    ensures
        n == bits_upto(m, 9).len(),
{
    let mut n: usize = 0;
    let mut k: usize = 0;
    while k < 9
        invariant
            k <= 9,
            n <= k,
            n == bits_upto(m, k as int).len(),
        decreases 9 - k,
    {
        let b: u16 = 1u16 << (k as u16);
        if m & b != 0u16 {
            n = n + 1;
        }
        k = k + 1;
    }
    n
}

} // verus!
