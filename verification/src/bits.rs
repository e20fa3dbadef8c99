//! Single-bit and bit-range access to a 16-bit word, through the `bit_field`
//! crate, with the facts about those operations that the allocators need.
use bit_field::BitField;
use vstd::prelude::*;

verus! {

/// Whether bit `i` of `x` is set (bits outside `0..16` are never set).
pub open spec fn bit16(x: u16, i: int) -> bool {
    0 <= i < 16 && (x >> (i as u16)) & 1u16 == 1u16
}

/// The set of the positions of the set bits of `x`.
pub open spec fn bits_of(x: u16) -> Set<int> {
    Set::new(|i: int| bit16(x, i))
}

/// `BitField::get_bit` on a `u16`: the crate asserts `bit < 16` and returns
/// whether `x & (1 << bit)` is non-zero.
#[verifier::external_body]
pub(crate) fn get_bit16(x: u16, bit: usize) -> (r: bool)
    requires
        bit < 16,
    ensures
        r == (x & (1u16 << (bit as u16)) != 0u16),
{
    x.get_bit(bit)
}

/// `BitField::set_bit` on a `u16`: the crate asserts `bit < 16`, then ors in
/// `1 << bit` when `value` holds and clears that bit otherwise.
#[verifier::external_body]
pub(crate) fn set_bit16(x: &mut u16, bit: usize, value: bool)
    requires
        bit < 16,
    ensures
        *final(x) == (if value {
            *old(x) | (1u16 << (bit as u16))
        } else {
            *old(x) & !(1u16 << (bit as u16))
        }),
{
    x.set_bit(bit, value);
}

/// `BitField::get_bits` on a `u16` for `start..end`: the crate asserts
/// `start < 16`, `end <= 16` and `start <= end`; it returns 0 for an empty range,
/// else the bits of the range shifted down to position 0.
#[verifier::external_body]
pub(crate) fn get_bits16(x: u16, start: usize, end: usize) -> (r: u16)
    requires
        start < 16,
        end <= 16,
        start <= end,
    ensures
        r == (if start == end {
            0u16
        } else {
            ((x << ((16 - end) as u16)) >> ((16 - end) as u16)) >> (start as u16)
        }),
{
    x.get_bits(start..end)
}

/// `BitField::set_bits` on a `u16` for `start..end`: the crate asserts
/// `start < 16`, `end <= 16`, `start <= end`, and that `value` is 0 for an empty
/// range and fits in the range otherwise; it leaves `x` alone for an empty range
/// and else replaces the bits of the range by `value`.
#[verifier::external_body]
pub(crate) fn set_bits16(x: &mut u16, start: usize, end: usize, value: u16)
    requires
        start < 16,
        end <= 16,
        start <= end,
        start == end ==> value == 0,
        start < end ==> (value << ((16 - (end - start)) as u16)) >> ((16 - (end - start)) as u16)
            == value,
    ensures
        *final(x) == (if start == end {
            *old(x)
        } else {
            (*old(x) & !((((!0u16) << ((16 - end) as u16)) >> ((16 - end) as u16)) >> (
            start as u16) << (start as u16))) | (value << (start as u16))
        }),
{
    x.set_bits(start..end, value);
}

/// The test that `get_bit` makes is the bit of `bit16`.
pub proof fn lemma_get_bit(x: u16, i: u16)
    by (bit_vector)
    requires
        i < 16,
    ensures
        (x & (1u16 << i) != 0u16) == ((x >> i) & 1u16 == 1u16),
{
}

/// Setting or clearing bit `i` changes bit `i` alone.
pub proof fn lemma_set_bit(x: u16, i: u16, j: u16)
    by (bit_vector)
    requires
        i < 16,
        j < 16,
    ensures
        ((x | (1u16 << i)) >> j) & 1u16 == 1u16 <==> (j == i || (x >> j) & 1u16 == 1u16),
        ((x & !(1u16 << i)) >> j) & 1u16 == 1u16 <==> (j != i && (x >> j) & 1u16 == 1u16),
{
}

/// The ones of `0xffff` read over `s..e` fit back into a range of that width.
pub proof fn lemma_range_ones_fit(s: u16, e: u16, k: u16, m: u16)
    by (bit_vector)
    requires
        s < e,
        e <= 16,
        k == 16 - e,
        m == 16 - (e - s),
    ensures
        ((((0xffffu16 << k) >> k) >> s) << m) >> m == ((0xffffu16 << k) >> k) >> s,
{
}

/// Writing the ones of `0xffff` over `s..e` sets exactly the bits of the range.
pub proof fn lemma_set_range_ones(x: u16, s: u16, e: u16, k: u16, j: u16)
    by (bit_vector)
    requires
        s < e,
        e <= 16,
        k == 16 - e,
        j < 16,
    ensures
        ((((x & !((((!0u16) << k) >> k) >> s << s)) | ((((0xffffu16 << k) >> k) >> s) << s))
            >> j) & 1u16 == 1u16) <==> ((s <= j && j < e) || (x >> j) & 1u16 == 1u16),
{
}

/// Writing zeros over `s..e` clears exactly the bits of the range.
pub proof fn lemma_set_range_zeros(x: u16, s: u16, e: u16, k: u16, j: u16)
    by (bit_vector)
    requires
        s < e,
        e <= 16,
        k == 16 - e,
        j < 16,
    ensures
        ((((x & !((((!0u16) << k) >> k) >> s << s)) | (0u16 << s)) >> j) & 1u16 == 1u16) <==> (
        !(s <= j && j < e) && (x >> j) & 1u16 == 1u16),
{
}

/// Zero fits in every range.
pub proof fn lemma_zero_fits(m: u16)
    by (bit_vector)
    ensures
        (0u16 << m) >> m == 0u16,
{
}

/// A word with no set bit is zero.
pub proof fn lemma_no_bits_zero(x: u16)
    ensures
        x == 0 <==> bits_of(x) =~= Set::<int>::empty(),
{
    if x == 0 {
        assert forall|i: int| !bit16(x, i) by {
            if 0 <= i < 16 {
                let j = i as u16;
                assert((0u16 >> j) & 1u16 == 0u16) by (bit_vector);
            }
        }
    } else {
        vstd::std_specs::bits::axiom_u16_trailing_zeros(x);
        let t = x.trailing_zeros();
        assert(bits_of(x).contains(t as int));
    }
}

} // verus!
