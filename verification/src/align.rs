//! Rounding of offsets and sizes to alignment masks.

use vstd::prelude::*;

verus! {

/// `value` rounded down: the bits of `align_mask` cleared.
pub open spec fn spec_align_down(value: u64, align_mask: u64) -> u64 {
    value & !align_mask
}

/// `value` rounded up: `align_mask` added, then its bits cleared.
/// `None` where the sum does not fit.
pub open spec fn spec_align_up(value: u64, align_mask: u64) -> Option<u64> {
    if value + align_mask <= u64::MAX {
        Some(((value + align_mask) as u64) & !align_mask)
    } else {
        None
    }
}

/// Whether `mask` is `2^k - 1` for some `k`: an alignment to a power of two.
pub open spec fn is_low_mask(mask: u64) -> bool {
    mask == u64::MAX || mask & ((mask + 1) as u64) == 0
}

/// Aligns `value` down to `align_mask`.
#[verifier::when_used_as_spec(spec_align_down)]
pub fn align_down(value: u64, align_mask: u64) -> (r: u64)
    ensures
        r == spec_align_down(value, align_mask),
        r & align_mask == 0,
        r <= value,
        value - r <= align_mask,
{
    assert((value & !align_mask) & align_mask == 0 && (value & !align_mask) <= value && value - (
    value & !align_mask) <= align_mask) by (bit_vector);
    value & !align_mask
}

/// Aligns `value` up to `align_mask`. Returns `None` on overflow.
#[verifier::when_used_as_spec(spec_align_up)]
pub fn align_up(value: u64, align_mask: u64) -> (r: Option<u64>)
    ensures
        r == spec_align_up(value, align_mask),
        r is Some <==> value + align_mask <= u64::MAX,
        r is Some ==> r->0 & align_mask == 0 && value <= r->0 <= value + align_mask,
{
    match value.checked_add(align_mask) {
        Some(sum) => {
            assert((sum & !align_mask) & align_mask == 0 && (sum & !align_mask) <= sum && sum - (
            sum & !align_mask) <= align_mask) by (bit_vector);
            Some(sum & !align_mask)
        },
        None => None,
    }
}

/// What is aligned stays where it is when rounded, up or down.
pub proof fn lemma_aligned_is_fixed(value: u64, align_mask: u64)
    requires
        value & align_mask == 0,
        is_low_mask(align_mask),
    ensures
        spec_align_down(value, align_mask) == value,
        value + align_mask <= u64::MAX,
        spec_align_up(value, align_mask) == Some(value),
{
    assert(value & align_mask == 0 ==> value & !align_mask == value) by (bit_vector);
    assert(value & align_mask == 0 && (align_mask == 0xffff_ffff_ffff_ffffu64 || align_mask & (
    align_mask + 1) as u64 == 0) ==> value + align_mask <= 0xffff_ffff_ffff_ffffu64 && ((value
        + align_mask) as u64) & !align_mask == value) by (bit_vector);
}

/// Rounding up to a power of two gives the least aligned number that is not smaller.
pub proof fn lemma_align_up_is_least(value: u64, align_mask: u64, other: u64)
    requires
        is_low_mask(align_mask),
        value + align_mask <= u64::MAX,
        other & align_mask == 0,
        value <= other,
    ensures
        spec_align_up(value, align_mask)->0 <= other,
{
    assert((align_mask == 0xffff_ffff_ffff_ffffu64 || align_mask & (align_mask + 1) as u64 == 0)
        && value + align_mask <= 0xffff_ffff_ffff_ffffu64 && other & align_mask == 0 && value
        <= other ==> ((value + align_mask) as u64) & !align_mask <= other) by (bit_vector);
}

/// Rounding down to a power of two gives the greatest aligned number that is not larger.
pub proof fn lemma_align_down_is_greatest(value: u64, align_mask: u64, other: u64)
    requires
        is_low_mask(align_mask),
        other & align_mask == 0,
        other <= value,
    ensures
        other <= spec_align_down(value, align_mask),
{
    assert((align_mask == 0xffff_ffff_ffff_ffffu64 || align_mask & (align_mask + 1) as u64 == 0)
        && other & align_mask == 0 && other <= value ==> other <= value & !align_mask)
        by (bit_vector);
}

/// Zero is aligned to every mask.
pub proof fn lemma_align_up_zero(align_mask: u64)
    ensures
        spec_align_up(0, align_mask) == Some(0u64),
{
    assert(align_mask & !align_mask == 0) by (bit_vector);
}

/// The sum of two numbers that are aligned to a mask of low bits is aligned to it.
pub proof fn lemma_sum_aligned(a: u64, b: u64, mask: u64)
    requires
        is_low_mask(mask),
        a & mask == 0,
        b & mask == 0,
        a + b <= u64::MAX,
    ensures
        ((a + b) as u64) & mask == 0,
{
    assert((mask == 0xffff_ffff_ffff_ffffu64 || mask & ((mask + 1) as u64) == 0) && a & mask == 0
        && b & mask == 0 && a + b <= 0xffff_ffff_ffff_ffffu64 ==> ((a + b) as u64) & mask == 0)
        by (bit_vector);
}

/// What is aligned to a mask, and is not 0, is above every mask of low bits that
/// lies within that mask.
pub proof fn lemma_aligned_exceeds(value: u64, mask: u64, low: u64)
    requires
        value != 0,
        value & (mask | low) == 0,
        is_low_mask(low),
    ensures
        value > low,
{
    assert(value != 0 && value & (mask | low) == 0 && (low == 0xffff_ffff_ffff_ffffu64 || low & ((
    low + 1) as u64) == 0) ==> value > low) by (bit_vector);
}

/// Whether `r` is the greatest power of two that is not larger than `value`; 1 for 0.
pub open spec fn is_floor_power_of_two(r: u64, value: u64) -> bool {
    &&& spec_is_power_of_two(r)
    &&& value >= 1 ==> r <= value && value / 2 < r
    &&& value == 0 ==> r == 1
}

/// The greatest power of two that is not larger than `value`; 1 for 0.
pub open spec fn spec_floor_power_of_two(value: u64) -> u64 {
    choose|r: u64| is_floor_power_of_two(r, value)
}

/// There is one greatest power of two that is not larger than a number.
pub proof fn lemma_floor_power_of_two(r: u64, value: u64)
    requires
        is_floor_power_of_two(r, value),
    ensures
        r == spec_floor_power_of_two(value),
{
    let other = spec_floor_power_of_two(value);
    assert(is_floor_power_of_two(other, value));
    assert(r != 0 && r & ((r - 1) as u64) == 0 && other != 0 && other & ((other - 1) as u64) == 0
        && value >= 1 && r <= value && value / 2 < r && other <= value && value / 2 < other ==> r
        == other) by (bit_vector);
}

/// Whether `value` is a power of two.
pub open spec fn spec_is_power_of_two(value: u64) -> bool {
    value != 0 && value & ((value - 1) as u64) == 0
}

/// Whether `value` is a power of two.
#[verifier::when_used_as_spec(spec_is_power_of_two)]
pub fn is_power_of_two(value: u64) -> (r: bool)
    ensures
        r == spec_is_power_of_two(value),
{
    value != 0 && value & (value - 1) == 0
}

/// The greatest power of two that is not larger than `value`; 1 for 0.
#[verifier::when_used_as_spec(spec_floor_power_of_two)]
pub fn floor_power_of_two(value: u64) -> (r: u64)
    ensures
        r == spec_floor_power_of_two(value),
        is_floor_power_of_two(r, value),
        spec_is_power_of_two(r),
        value >= 1 ==> r <= value && value / 2 < r,
        value == 0 ==> r == 1,
        spec_is_power_of_two(value) ==> r == value,
{
    let mut power: u64 = 1;
    assert(spec_is_power_of_two(1)) by (bit_vector);
    while power <= value / 2
        invariant
            spec_is_power_of_two(power),
            power <= value || power == 1,
            spec_is_power_of_two(value) ==> power <= value,
        decreases value - power,
    {
        let ghost before = power;
        assert(before != 0 && before & ((before - 1) as u64) == 0 && before
            <= 0x7fff_ffff_ffff_ffffu64 ==> (2 * before) as u64 != 0 && ((2 * before) as u64) & ((
        2 * before - 1) as u64) == 0) by (bit_vector);
        power = power * 2;
    }
    proof {
        let a = power;
        let b = value;
        assert(a != 0 && a & ((a - 1) as u64) == 0 && b != 0 && b & ((b - 1) as u64) == 0 && a
            <= b && b / 2 < a ==> a == b) by (bit_vector);
        lemma_floor_power_of_two(power, value);
    }
    power
}

/// One less than a power of two is a mask of low bits.
pub proof fn lemma_power_of_two_mask(value: u64)
    requires
        spec_is_power_of_two(value),
    ensures
        is_low_mask((value - 1) as u64),
{
    assert(value != 0 && value & ((value - 1) as u64) == 0 ==> ((value - 1) as u64)
        == 0xffff_ffff_ffff_ffffu64 || ((value - 1) as u64) & ((((value - 1) as u64) + 1) as u64)
        == 0) by (bit_vector);
}

/// Twice a power of two is a power of two, if it fits.
pub proof fn lemma_double_power_of_two(value: u64)
    requires
        spec_is_power_of_two(value),
        value <= u64::MAX / 2,
    ensures
        spec_is_power_of_two((2 * value) as u64),
{
    assert(value != 0 && value & ((value - 1) as u64) == 0 && value <= 0x7fff_ffff_ffff_ffffu64
        ==> (2 * value) as u64 != 0 && ((2 * value) as u64) & ((2 * value - 1) as u64) == 0)
        by (bit_vector);
}

/// What is aligned to a power of two is aligned to every mask of low bits below that
/// power of two.
pub proof fn lemma_aligned_to_lesser(value: u64, size: u64, mask: u64)
    requires
        spec_is_power_of_two(size),
        value & ((size - 1) as u64) == 0,
        is_low_mask(mask),
        mask < size,
    ensures
        value & mask == 0,
{
    assert(size != 0 && size & ((size - 1) as u64) == 0 && value & ((size - 1) as u64) == 0 && (
    mask == 0xffff_ffff_ffff_ffffu64 || mask & ((mask + 1) as u64) == 0) && mask < size ==> value
        & mask == 0) by (bit_vector);
}

/// What is aligned to twice a power of two is aligned to the power of two, and so is
/// the power of two more.
pub proof fn lemma_aligned_halves(value: u64, half: u64)
    requires
        spec_is_power_of_two(half),
        half <= u64::MAX / 2,
        value & ((2 * half - 1) as u64) == 0,
        value + half <= u64::MAX,
    ensures
        value & ((half - 1) as u64) == 0,
        ((value + half) as u64) & ((half - 1) as u64) == 0,
{
    assert(half != 0 && half & ((half - 1) as u64) == 0 && half <= 0x7fff_ffff_ffff_ffffu64
        && value & ((2 * half - 1) as u64) == 0 && value + half <= 0xffff_ffff_ffff_ffffu64
        ==> value & ((half - 1) as u64) == 0 && ((value + half) as u64) & ((half - 1) as u64)
        == 0) by (bit_vector);
}

/// Something rounded up to a mask of low bits is more than the mask.
pub proof fn lemma_align_up_exceeds_mask(value: u64, mask: u64)
    requires
        value >= 1,
        is_low_mask(mask),
        value + mask <= u64::MAX,
    ensures
        spec_align_up(value, mask)->0 > mask,
{
    assert(value >= 1 && (mask == 0xffff_ffff_ffff_ffffu64 || mask & ((mask + 1) as u64) == 0)
        && value + mask <= 0xffff_ffff_ffff_ffffu64 ==> ((value + mask) as u64) & !mask > mask)
        by (bit_vector);
}

/// Two masks of low bits taken together are a mask of low bits, and what is aligned to
/// both together is aligned to each.
pub proof fn lemma_low_masks_union(a: u64, b: u64, value: u64)
    ensures
        is_low_mask(a) && is_low_mask(b) ==> is_low_mask(a | b),
        value & (a | b) == 0 ==> value & a == 0 && value & b == 0,
        0u64 & a == 0,
        is_low_mask(0),
{
    assert((a == 0xffff_ffff_ffff_ffffu64 || a & ((a + 1) as u64) == 0) && (b
        == 0xffff_ffff_ffff_ffffu64 || b & ((b + 1) as u64) == 0) ==> ((a | b)
        == 0xffff_ffff_ffff_ffffu64 || (a | b) & (((a | b) + 1) as u64) == 0)) by (bit_vector);
    assert(value & (a | b) == 0 ==> value & a == 0 && value & b == 0) by (bit_vector);
    assert(0u64 & a == 0) by (bit_vector);
    assert(0u64 & ((0u64 + 1) as u64) == 0) by (bit_vector);
}

} // verus!
