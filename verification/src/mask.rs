use vstd::arithmetic::logarithm::log;
use vstd::prelude::*;

verus! {

/// The mask in which every value `1..=9` is still a candidate.
pub const ALL_CANDIDATES: u16 = 511;

/// The values a cell can be fixed to.
pub open spec fn is_value(v: u8) -> bool {
    1 <= v <= 9
}

/// The single bit that stands for the value `v`: bit `v - 1`.
pub open spec fn value_bit(v: u8) -> u16 {
    1u16 << ((v - 1) as u16)
}

/// Whether `mask` still holds the value `v` as a candidate.
pub open spec fn allows(mask: u16, v: u8) -> bool {
    mask & value_bit(v) != 0
}

/// A mask is well formed when it holds no bit beyond those of the values `1..=9`.
pub open spec fn is_mask(mask: u16) -> bool {
    mask <= ALL_CANDIDATES
}

/// Every bit of `a` is also a bit of `b`.
pub open spec fn is_submask(a: u16, b: u16) -> bool {
    a & !b == 0
}

/// The number of one bits in the binary representation of `mask`.
pub open spec fn popcount(mask: u16) -> nat {
    (((mask >> 0u16) & 1) + ((mask >> 1u16) & 1) + ((mask >> 2u16) & 1) + ((mask >> 3u16) & 1) + ((
    mask >> 4u16) & 1) + ((mask >> 5u16) & 1) + ((mask >> 6u16) & 1) + ((mask >> 7u16) & 1) + ((mask
        >> 8u16) & 1) + ((mask >> 9u16) & 1) + ((mask >> 10u16) & 1) + ((mask >> 11u16) & 1) + ((
    mask >> 12u16) & 1) + ((mask >> 13u16) & 1) + ((mask >> 14u16) & 1) + ((mask >> 15u16)
        & 1)) as nat
}

/// The value that a mask of exactly one bit stands for: one more than the
/// position of that bit, which is the base 2 logarithm of the mask.
pub open spec fn single_value(mask: u16) -> u8 {
    (log(2, mask as int) + 1) as u8
}

/// `u16::count_ones` returns the number of one bits in the binary
/// representation of its argument.
pub assume_specification[ u16::count_ones ](mask: u16) -> (ones: u32)
    ensures
        ones == popcount(mask),
;

/// `u16::ilog2` returns the base 2 logarithm of its argument, rounded down.
/// It panics on zero, which the precondition leaves out.
pub assume_specification[ u16::ilog2 ](mask: u16) -> (exponent: u32)
    requires
        mask != 0,
    ensures
        exponent == log(2, mask as int),
;

/// Conversion of a cell value into the mask that holds that value alone.
pub trait ToCellMask: Sized {
    /// The values that have a mask.
    spec fn has_cell_mask(self) -> bool;

    /// The mask of the value.
    spec fn cell_mask(self) -> u16;

    fn to_cell_mask(self) -> (mask: u16)
        requires
            self.has_cell_mask(),
        ensures
            mask == self.cell_mask(),
    ;
}

impl ToCellMask for u8 {
    open spec fn has_cell_mask(self) -> bool {
        is_value(self)
    }

    open spec fn cell_mask(self) -> u16 {
        value_bit(self)
    }

    fn to_cell_mask(self) -> (mask: u16) {
        1 << (self - 1)
    }
}

/// Conversion of a mask of exactly one bit back into the value it stands for.
pub trait ToResult: Sized {
    /// The masks that stand for one value.
    spec fn has_result(self) -> bool;

    /// The value the mask stands for.
    spec fn result(self) -> u8;

    fn to_result(self) -> (value: u8)
        requires
            self.has_result(),
        ensures
            value == self.result(),
    ;
}

impl ToResult for u16 {
    open spec fn has_result(self) -> bool {
        popcount(self) == 1
    }

    open spec fn result(self) -> u8 {
        single_value(self)
    }

    fn to_result(self) -> (value: u8) {
        proof {
            lemma_single_bit(self);
        }
        self.ilog2() as u8 + 1
    }
}

/// The masks of exactly one bit are the powers of two.
proof fn lemma_one_bit_masks(mask: u16)
    by (bit_vector)
    requires
        popcount(mask) == 1,
    ensures
        mask == 1 || mask == 2 || mask == 4 || mask == 8 || mask == 16 || mask == 32 || mask == 64
            || mask == 128 || mask == 256 || mask == 512 || mask == 1024 || mask == 2048 || mask
            == 4096 || mask == 8192 || mask == 16384 || mask == 32768,
{
}

/// A mask of exactly one bit is the bit of the value it stands for.
pub proof fn lemma_single_bit(mask: u16)
    requires
        popcount(mask) == 1,
    ensures
        mask != 0,
        0 <= log(2, mask as int) <= 15,
        1 <= single_value(mask) <= 16,
        mask == value_bit(single_value(mask)),
        allows(mask, single_value(mask)),
        is_mask(mask) ==> is_value(single_value(mask)),
{
    assert(mask & mask == mask) by (bit_vector);
    lemma_one_bit_masks(mask);
    reveal_with_fuel(log, 17);
    assert(1u16 << 0u16 == 1 && 1u16 << 1u16 == 2 && 1u16 << 2u16 == 4 && 1u16 << 3u16 == 8 && 1u16
        << 4u16 == 16 && 1u16 << 5u16 == 32 && 1u16 << 6u16 == 64 && 1u16 << 7u16 == 128 && 1u16
        << 8u16 == 256 && 1u16 << 9u16 == 512 && 1u16 << 10u16 == 1024 && 1u16 << 11u16 == 2048
        && 1u16 << 12u16 == 4096 && 1u16 << 13u16 == 8192 && 1u16 << 14u16 == 16384 && 1u16
        << 15u16 == 32768) by (bit_vector);
}

/// The bit of a value is a well-formed mask that holds that value and no other.
pub proof fn lemma_value_bit(v: u8)
    by (bit_vector)
    requires
        is_value(v),
    ensures
        is_mask(value_bit(v)),
        popcount(value_bit(v)) == 1,
        allows(value_bit(v), v),
        forall|w: u8| is_value(w) && w != v ==> !allows(value_bit(v), w),
{
}

/// Taking a value out of a mask removes that value and keeps the others.
pub proof fn lemma_exclude(mask: u16, v: u8)
    by (bit_vector)
    requires
        is_value(v),
    ensures
        is_submask(mask & !value_bit(v), mask),
        is_mask(mask) ==> is_mask(mask & !value_bit(v)),
        !allows(mask & !value_bit(v), v),
        forall|w: u8| is_value(w) && w != v ==> (allows(mask & !value_bit(v), w) <==> allows(mask, w)),
        !allows(mask, v) ==> mask & !value_bit(v) == mask,
{
}

/// What the union of two masks holds, what is left of a mask after the bits
/// of another are taken out, and that the empty mask holds nothing.
pub proof fn lemma_allows(a: u16, b: u16, v: u8)
    by (bit_vector)
    requires
        is_value(v),
    ensures
        allows(a | b, v) <==> allows(a, v) || allows(b, v),
        allows(a & !b, v) <==> allows(a, v) && !allows(b, v),
        !allows(0u16, v),
        !allows(b, v) && is_submask(a, b) ==> !allows(a, v),
{
}

/// A mask with one candidate that holds `v` is the bit of `v`, and stands
/// for the value `v`.
pub proof fn lemma_single_candidate(mask: u16, v: u8)
    requires
        is_value(v),
        popcount(mask) == 1,
        allows(mask, v),
    ensures
        mask == value_bit(v),
        single_value(mask) == v,
{
    lemma_single_bit(mask);
    let w = single_value(mask);
    assert(1 <= w <= 16 && 1 <= v <= 9 && (value_bit(w) & value_bit(v) != 0) ==> w == v)
        by (bit_vector);
}

/// The bit of a value that a mask holds is a submask of that mask.
pub proof fn lemma_allowed_bit(mask: u16, v: u8)
    by (bit_vector)
    requires
        is_value(v),
        allows(mask, v),
    ensures
        is_submask(value_bit(v), mask),
{
}

/// A submask of what is left after some bits were taken out holds none of
/// those bits.
pub proof fn lemma_submask_of_excluded(a: u16, b: u16, bits: u16)
    by (bit_vector)
    requires
        is_submask(a, b & !bits),
    ensures
        a & !bits == a,
{
}

/// A submask of a submask is a submask, and every mask is its own submask.
pub proof fn lemma_submask_chain(a: u16, b: u16, c: u16)
    by (bit_vector)
    ensures
        is_submask(a, a),
        is_submask(a, b) && is_submask(b, c) ==> is_submask(a, c),
{
}

/// A submask holds no more candidates than the mask it is taken from.
pub proof fn lemma_submask(a: u16, b: u16)
    by (bit_vector)
    requires
        is_submask(a, b),
    ensures
        popcount(a) <= popcount(b),
        is_mask(b) ==> is_mask(a),
        forall|v: u8| is_value(v) && allows(a, v) ==> allows(b, v),
        b == 0 ==> a == 0,
        popcount(a) == popcount(b) ==> a == b,
{
}

/// Taking the bits of `first` and then those of `second` out of a mask takes
/// out the bits of both, and leaves a submask.
pub proof fn lemma_exclude_bits(mask: u16, first: u16, second: u16)
    by (bit_vector)
    ensures
        mask & !(first | second) == (mask & !first) & !second,
        (mask & !first) & !first == mask & !first,
        mask & !0u16 == mask,
        is_submask(mask & !first, mask),
        is_mask(mask) ==> is_mask(mask & !first),
{
}

} // verus!
