//! Floating-point numbers as their bits: which bits are numbers, and how numbers
//! are ordered.

use vstd::prelude::*;

verus! {

/// Whether the bits are those of no number.
pub open spec fn is_nan_bits(bits: u32) -> bool {
    bits % 0x8000_0000 > 0x7f80_0000
}

/// A number by which single-precision numbers are ordered; the two zeros are
/// equal.
pub open spec fn value_key(bits: u32) -> int {
    if bits < 0x8000_0000 {
        bits as int
    } else {
        0x8000_0000 - bits
    }
}

/// Whether one number is less than another, both given as bits.
pub open spec fn less_bits(a: u32, b: u32) -> bool {
    !is_nan_bits(a) && !is_nan_bits(b) && value_key(a) < value_key(b)
}

pub fn bits_value_key(bits: u32) -> (r: i64)
    ensures
        r == value_key(bits),
{
    if bits < 0x8000_0000 {
        bits as i64
    } else {
        0x8000_0000 - (bits as i64)
    }
}

pub fn bits_less(a: u32, b: u32) -> (r: bool)
    ensures
        r == less_bits(a, b),
{
    a % 0x8000_0000 <= 0x7f80_0000 && b % 0x8000_0000 <= 0x7f80_0000 && bits_value_key(a)
        < bits_value_key(b)
}

/// Whether the bits are those of no double-precision number.
pub open spec fn is_nan_double(bits: u64) -> bool {
    bits % 0x8000_0000_0000_0000 > 0x7ff0_0000_0000_0000
}

/// A number by which double-precision numbers are ordered; the two zeros are
/// equal.
pub open spec fn double_key(bits: u64) -> int {
    if bits < 0x8000_0000_0000_0000 {
        bits as int
    } else {
        0x8000_0000_0000_0000 - bits
    }
}

/// Whether one double-precision number is less than another.
pub open spec fn less_double(a: u64, b: u64) -> bool {
    !is_nan_double(a) && !is_nan_double(b) && double_key(a) < double_key(b)
}

/// Whether one double-precision number is no less than another.
pub open spec fn at_least_double(a: u64, b: u64) -> bool {
    !is_nan_double(a) && !is_nan_double(b) && double_key(a) >= double_key(b)
}

pub fn bits_double_key(bits: u64) -> (r: i64)
    ensures
        r == double_key(bits),
{
    if bits < 0x8000_0000_0000_0000 {
        bits as i64
    } else {
        -((bits - 0x8000_0000_0000_0000) as i64)
    }
}

pub fn doubles_less(a: u64, b: u64) -> (r: bool)
    ensures
        r == less_double(a, b),
{
    a % 0x8000_0000_0000_0000 <= 0x7ff0_0000_0000_0000 && b % 0x8000_0000_0000_0000
        <= 0x7ff0_0000_0000_0000 && bits_double_key(a) < bits_double_key(b)
}

pub fn doubles_at_least(a: u64, b: u64) -> (r: bool)
    ensures
        r == at_least_double(a, b),
{
    a % 0x8000_0000_0000_0000 <= 0x7ff0_0000_0000_0000 && b % 0x8000_0000_0000_0000
        <= 0x7ff0_0000_0000_0000 && bits_double_key(a) >= bits_double_key(b)
}

/// The bits of twice a double: a subnormal significand is doubled, a normal
/// exponent is one greater, the greatest gives infinity, and infinity and what
/// is no number stay.
pub open spec fn twice_bits(bits: u64) -> int {
    let sign: int = if bits < 0x8000_0000_0000_0000 {
        0
    } else {
        0x8000_0000_0000_0000
    };
    let size = bits - sign;
    if size < 0x10_0000_0000_0000 {
        sign + 2 * size
    } else if size < 0x7fe0_0000_0000_0000 {
        bits + 0x10_0000_0000_0000
    } else if size < 0x7ff0_0000_0000_0000 {
        sign + 0x7ff0_0000_0000_0000
    } else {
        bits as int
    }
}

pub fn double_twice(bits: u64) -> (r: u64)
    ensures
        r == twice_bits(bits),
{
    let sign: u64 = if bits < 0x8000_0000_0000_0000 {
        0
    } else {
        0x8000_0000_0000_0000
    };
    let size: u64 = bits - sign;
    if size < 0x10_0000_0000_0000 {
        sign + 2 * size
    } else if size < 0x7fe0_0000_0000_0000 {
        bits + 0x10_0000_0000_0000
    } else if size < 0x7ff0_0000_0000_0000 {
        sign + 0x7ff0_0000_0000_0000
    } else {
        bits
    }
}

} // verus!
