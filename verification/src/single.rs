//! Single-precision arithmetic on the bits of numbers, in integers.
//!
//! Every bit pattern is covered: normal and subnormal numbers, both zeros, both
//! infinities, and what is no number. Results are rounded to the nearest single,
//! the even one of two that are as near. A result that is no number is always
//! the same pattern.

use vstd::arithmetic::power2::pow2;
use vstd::prelude::*;

use crate::bits::is_nan_bits;
use crate::float::{
    aligned, fits, is_number, lemma_nearest_even_between, lemma_pow2_mono, lemma_pow2_step,
    lemma_pow2_values, lemma_rounded, nearest, nearest_even, negated, plus, power_of_two, root,
    round_integer, round_ratio, rounded, rounded_size, scaled, single_size_bits, square_root, sum,
    Number, Rounded,
};
use crate::rounding::{lemma_fits_integer, lemma_kept_integer, lemma_nearest_none};

verus! {

/// The bits of infinity.
pub const INFINITY: u32 = 0x7f80_0000;

/// Bits that are no number.
pub const NAN: u32 = 0x7fc0_0000;

/// The bits of the negative zero.
pub const NEGATIVE_ZERO: u32 = 0x8000_0000;

/// The bits of a half.
pub const HALF: u32 = 0x3f00_0000;

/// The bits of one.
pub const ONE: u32 = 0x3f80_0000;

/// The bits of two.
pub const TWO: u32 = 0x4000_0000;

/// The bits of minus one.
pub const MINUS_ONE: u32 = 0xbf80_0000;

/// Whether the bits are those of a finite number.
pub open spec fn is_finite(bits: u32) -> bool {
    bits % 0x8000_0000 < 0x7f80_0000
}

/// Whether the bits are those of an infinity.
pub open spec fn is_infinite(bits: u32) -> bool {
    bits % 0x8000_0000 == 0x7f80_0000
}

/// Whether the bits are those of a zero.
pub open spec fn is_zero(bits: u32) -> bool {
    bits % 0x8000_0000 == 0
}

/// Whether the sign is set.
pub open spec fn is_negative(bits: u32) -> bool {
    bits >= 0x8000_0000
}

/// The bits of a size with a sign.
pub open spec fn with_sign(negative: bool, size: int) -> u32 {
    if negative {
        (0x8000_0000 + size) as u32
    } else {
        size as u32
    }
}

/// The number that the bits of a finite number stand for.
pub open spec fn number_of(bits: u32) -> Number {
    let size = bits % 0x8000_0000;
    let field = size / 0x80_0000;
    let n: int = if field == 0 {
        size as int
    } else {
        size % 0x80_0000 + 0x80_0000
    };
    let k: int = if field == 0 {
        -149
    } else {
        field - 150
    };
    scaled(
        rounded(
            24,
            if bits < 0x8000_0000 {
                n
            } else {
                -n
            },
            1,
        ),
        k,
    )
}

/// The bits of a positive number with a significand of 24 bits. Below the normal
/// range they count the least single; above it they are those of infinity.
pub open spec fn size_bits(m: int, e: int) -> int {
    if e > 104 {
        INFINITY as int
    } else if e >= -149 {
        single_size_bits(m, e)
    } else {
        m / pow2((-149 - e) as nat) as int
    }
}

/// The bits of a number that is not zero.
pub open spec fn bits_for(a: Number) -> u32 {
    if a.m > 0 {
        with_sign(false, size_bits(a.m, a.e))
    } else {
        with_sign(true, size_bits(-a.m, a.e))
    }
}

/// The bits of the single nearest to a positive `num / den * 2^e`.
pub open spec fn ratio_bits(num: nat, den: nat, e: int) -> int {
    let r = scaled(rounded_size(24, num, den), e);
    if r.e >= -149 {
        size_bits(r.m, r.e)
    } else if e >= -149 {
        nearest_even(num * pow2((e + 149) as nat), den) as int
    } else {
        nearest_even(num, den * pow2((-149 - e) as nat)) as int
    }
}

/// The bits of the opposite number.
pub open spec fn opposite(bits: u32) -> u32 {
    if bits < 0x8000_0000 {
        (bits + 0x8000_0000) as u32
    } else {
        (bits - 0x8000_0000) as u32
    }
}

/// The bits of a sum. A sum that is zero is the negative zero only where both
/// numbers are; there is no sum of opposite infinities.
pub open spec fn sum_bits(a: u32, b: u32) -> u32 {
    if is_nan_bits(a) || is_nan_bits(b) {
        NAN
    } else if is_infinite(a) {
        if b == opposite(a) {
            NAN
        } else {
            a
        }
    } else if is_infinite(b) {
        b
    } else {
        let s = sum(24, number_of(a), number_of(b));
        if s.m != 0 {
            bits_for(s)
        } else if a == NEGATIVE_ZERO && b == NEGATIVE_ZERO {
            NEGATIVE_ZERO
        } else {
            0
        }
    }
}

/// The bits of a difference.
pub open spec fn difference_bits(a: u32, b: u32) -> u32 {
    sum_bits(a, opposite(b))
}

/// The bits of a product. There is no product of zero and infinity.
pub open spec fn product_bits(a: u32, b: u32) -> u32 {
    let negative = is_negative(a) != is_negative(b);
    if is_nan_bits(a) || is_nan_bits(b) || is_zero(a) && is_infinite(b) || is_infinite(a)
        && is_zero(b) {
        NAN
    } else if is_infinite(a) || is_infinite(b) {
        with_sign(negative, INFINITY as int)
    } else if is_zero(a) || is_zero(b) {
        with_sign(negative, 0)
    } else {
        let x = number_of(a);
        let y = number_of(b);
        with_sign(negative, ratio_bits((size_of(x) * size_of(y)) as nat, 1, x.e + y.e))
    }
}

/// The bits of a quotient. There is no quotient of two zeros or two infinities.
pub open spec fn quotient_bits(a: u32, b: u32) -> u32 {
    let negative = is_negative(a) != is_negative(b);
    if is_nan_bits(a) || is_nan_bits(b) || is_zero(a) && is_zero(b) || is_infinite(a)
        && is_infinite(b) {
        NAN
    } else if is_infinite(a) || is_zero(b) {
        with_sign(negative, INFINITY as int)
    } else if is_zero(a) || is_infinite(b) {
        with_sign(negative, 0)
    } else {
        let x = number_of(a);
        let y = number_of(b);
        with_sign(negative, ratio_bits(size_of(x), size_of(y), x.e - y.e))
    }
}

/// The significand of a number without its sign.
pub open spec fn size_of(a: Number) -> nat {
    if a.m < 0 {
        (-a.m) as nat
    } else {
        a.m as nat
    }
}

/// The bits of the single nearest to an integer.
pub open spec fn integer_bits(n: nat) -> u32 {
    if n == 0 {
        0
    } else {
        bits_for(rounded(24, n as int, 1))
    }
}

/// The bits of a square root. A zero is its own root; below zero there is none.
pub open spec fn root_bits(a: u32) -> u32 {
    if is_nan_bits(a) {
        NAN
    } else if is_zero(a) {
        a
    } else if is_negative(a) {
        NAN
    } else if is_infinite(a) {
        a
    } else {
        bits_for(root(24, number_of(a)))
    }
}

/// The bits of a number without its sign.
pub open spec fn size_without_sign(a: u32) -> u32 {
    a % 0x8000_0000
}

/// The least integer that is no less than a number that is not negative.
pub open spec fn whole_above(a: Number) -> int {
    if a.e >= 0 {
        a.m * pow2(a.e as nat)
    } else {
        (a.m + pow2((-a.e) as nat) - 1) / pow2((-a.e) as nat) as int
    }
}

/// A number rounded up, as a count: zero for what is negative or no number, and
/// the greatest count for what is beyond it.
pub open spec fn count_above(bits: u32) -> usize {
    if is_nan_bits(bits) || is_negative(bits) {
        0
    } else if is_infinite(bits) || whole_above(number_of(bits)) > usize::MAX {
        usize::MAX
    } else {
        whole_above(number_of(bits)) as usize
    }
}

/// The number that bits stand for.
pub fn read_single(bits: u32) -> (r: Rounded)
    requires
        is_finite(bits),
    ensures
        r@ == number_of(bits),
        is_number(24, r@),
        -200 <= r.e <= 120,
        r.m == 0 <==> is_zero(bits),
        r.m == 0 ==> r.e == 0,
        r.m != 0 ==> (r.m < 0) == is_negative(bits),
{
    let size: u32 = bits % 0x8000_0000;
    let field: u32 = size / 0x80_0000;
    proof {
        lemma_pow2_values();
    }
    if size == 0 {
        return Rounded { m: 0, e: 0 };
    }
    let x: Rounded = if field == 0 {
        let y: Rounded = round_integer(24, size as u64);
        assert(0 < size < pow2(24));
        Rounded { m: y.m, e: y.e - 149 }
    } else {
        let n: u32 = size % 0x80_0000 + 0x80_0000;
        proof {
            let _ = lemma_kept_integer(24, n as nat);
            assert(n * 1 == n);
        }
        Rounded { m: n as i64, e: field as i32 - 150 }
    };
    if bits < 0x8000_0000 {
        x
    } else {
        Rounded { m: -x.m, e: x.e }
    }
}

fn write_size(m: u32, e: i32) -> (r: u32)
    requires
        0x80_0000 <= m < 0x100_0000,
    ensures
        r == size_bits(m as int, e as int),
        r <= INFINITY,
{
    proof {
        lemma_pow2_values();
    }
    if e > 104 {
        return INFINITY;
    }
    if e >= -149 {
        return ((e + 150) as u32) * 0x80_0000 + (m - 0x80_0000);
    }
    if e < -174 {
        proof {
            lemma_pow2_mono(24, (-149 - e) as nat);
            let d = pow2((-149 - e) as nat) as int;
            assert(m as int / d == 0) by (nonlinear_arith)
                requires
                    0 <= m < d,
            ;
        }
        return 0;
    }
    let k: u32 = (-149 - e) as u32;
    proof {
        vstd::bits::lemma_u32_shr_is_div(m, k);
        vstd::arithmetic::power2::lemma_pow2_pos(k as nat);
        let d = pow2(k as nat) as int;
        assert(m as int / d <= m) by (nonlinear_arith)
            requires
                m >= 0,
                d >= 1,
        ;
    }
    m >> k
}

/// The bits of a number that is not zero.
pub fn write_single(a: Rounded) -> (r: u32)
    requires
        is_number(24, a@),
        a.m != 0,
    ensures
        r == bits_for(a@),
        !is_nan_bits(r),
{
    proof {
        lemma_pow2_values();
    }
    if a.m > 0 {
        write_size(a.m as u32, a.e)
    } else {
        0x8000_0000 + write_size((-a.m) as u32, a.e)
    }
}

/// The bits of the opposite number.
pub fn negate(bits: u32) -> (r: u32)
    ensures
        r == opposite(bits),
{
    if bits < 0x8000_0000 {
        bits + 0x8000_0000
    } else {
        bits - 0x8000_0000
    }
}

/// The sum of two numbers.
pub fn add_singles(a: u32, b: u32) -> (r: u32)
    ensures
        r == sum_bits(a, b),
{
    if a % 0x8000_0000 > INFINITY || b % 0x8000_0000 > INFINITY {
        return NAN;
    }
    if a % 0x8000_0000 == INFINITY {
        return if b == negate(a) {
            NAN
        } else {
            a
        };
    }
    if b % 0x8000_0000 == INFINITY {
        return b;
    }
    if b % 0x8000_0000 == 0 {
        if a % 0x8000_0000 == 0 {
            return if a == NEGATIVE_ZERO && b == NEGATIVE_ZERO {
                NEGATIVE_ZERO
            } else {
                0
            };
        }
        proof {
            law_bits_are_kept(a);
        }
        return a;
    }
    if a % 0x8000_0000 == 0 {
        proof {
            law_bits_are_kept(b);
        }
        return b;
    }
    let s: Rounded = plus(24, read_single(a), read_single(b));
    if s.m != 0 {
        write_single(s)
    } else {
        0
    }
}

/// The difference of two numbers.
pub fn subtract_singles(a: u32, b: u32) -> (r: u32)
    ensures
        r == difference_bits(a, b),
{
    add_singles(a, negate(b))
}

/// The product of two significands, rounded.
fn round_product(num: u64) -> (r: Rounded)
    requires
        0x4000_0000_0000 <= num < 0x1_0000_0000_0000,
    ensures
        r@ == rounded(24, num as int, 1),
        is_number(24, r@),
        r.m > 0,
        23 <= r.e <= 25,
        num >= 0x8000_0000_0000 ==> r.e >= 24,
{
    proof {
        lemma_pow2_values();
    }
    let (d, e): (u64, i32) = if num < 0x8000_0000_0000 {
        (0x80_0000, 23)
    } else {
        (0x100_0000, 24)
    };
    proof {
        assert(pow2(e as nat) == d);
        assert(0x80_0000 * d <= num < 0x100_0000 * d);
        assert(1 * pow2(e as nat) == d);
        assert(fits(24, num as nat, 1, e as int));
        lemma_rounded(24, num as nat, 1, e as int);
    }
    let q: u64 = num / d;
    let rest: u64 = num % d;
    let m: u64 = if 2 * rest < d || 2 * rest == d && q % 2 == 0 {
        q
    } else {
        q + 1
    };
    if m == 0x100_0000 {
        Rounded { m: 0x80_0000, e: e + 1 }
    } else {
        Rounded { m: m as i64, e }
    }
}

fn product_size(num: u64, e: i32) -> (r: u32)
    requires
        0x4000_0000_0000 <= num < 0x1_0000_0000_0000,
        -500 <= e <= 500,
    ensures
        r == ratio_bits(num as nat, 1, e as int),
        r <= INFINITY,
{
    proof {
        lemma_pow2_values();
        vstd::arithmetic::power2::lemma2_to64_rest();
    }
    let q: Rounded = round_product(num);
    let s: i32 = q.e + e;
    if s >= -149 {
        return write_size(q.m as u32, s);
    }
    let k: u32 = (-149 - e) as u32;
    assert(1 * pow2(k as nat) == pow2(k as nat));
    if k > 60 {
        proof {
            lemma_pow2_mono(61, k as nat);
            lemma_nearest_none(num as nat, pow2(k as nat));
        }
        return 0;
    }
    proof {
        lemma_pow2_mono(k as nat, 60);
        lemma_pow2_step(k as nat);
        vstd::arithmetic::power2::lemma_pow2_adds(23, k as nat);
        if k >= 25 {
            lemma_pow2_mono(48, (k + 23) as nat);
        } else {
            assert(k == 24);
            assert(num < pow2(47));
        }
        lemma_nearest_even_between(num as nat, pow2(k as nat), 0, 0x80_0000);
    }
    nearest(num as u128, power_of_two(k)) as u32
}

fn quotient_size(num: u32, den: u32, e: i32) -> (r: u32)
    requires
        0x80_0000 <= num < 0x100_0000,
        0x80_0000 <= den < 0x100_0000,
        -500 <= e <= 500,
    ensures
        r == ratio_bits(num as nat, den as nat, e as int),
        r <= INFINITY,
{
    proof {
        lemma_pow2_values();
        vstd::arithmetic::power2::lemma2_to64_rest();
    }
    let q: Rounded = round_ratio(24, num as u128, den as u128);
    let s: i32 = q.e + e;
    if s >= -149 {
        return write_size(q.m as u32, s);
    }
    if e >= -149 {
        let k: u32 = (e + 149) as u32;
        let w: u128 = power_of_two(k);
        proof {
            lemma_pow2_mono(k as nat, 23);
            lemma_pow2_step(k as nat);
            assert(num * w <= 0x100_0000 * den && num * w < 0x1_0000_0000_0000)
                by (nonlinear_arith)
                requires
                    0 <= num < 0x100_0000,
                    0x80_0000 <= den,
                    1 <= w <= 0x80_0000,
            ;
            lemma_nearest_even_between((num * w) as nat, den as nat, 0, 0x100_0000);
        }
        return nearest(num as u128 * w, den as u128) as u32;
    }
    let k: u32 = (-149 - e) as u32;
    if k > 60 {
        proof {
            lemma_pow2_mono(61, k as nat);
            assert(2 * num < den * pow2(k as nat)) by (nonlinear_arith)
                requires
                    num < 0x100_0000,
                    den >= 1,
                    pow2(k as nat) >= 0x200_0000,
            ;
            lemma_nearest_none(num as nat, (den * pow2(k as nat)) as nat);
        }
        return 0;
    }
    let w: u128 = power_of_two(k);
    proof {
        lemma_pow2_mono(k as nat, 60);
        lemma_pow2_step(k as nat);
        assert(0 < den * w && den * w < 0x100_0000 * 0x2000_0000_0000_0000 && num <= 2 * (den * w))
            by (nonlinear_arith)
            requires
                num < 0x100_0000,
                0x80_0000 <= den < 0x100_0000,
                1 <= w < 0x2000_0000_0000_0000,
        ;
        lemma_nearest_even_between(num as nat, (den * w) as nat, 0, 2);
    }
    nearest(num as u128, den as u128 * w) as u32
}

fn sign_of(negative: bool, size: u32) -> (r: u32)
    requires
        size <= INFINITY,
    ensures
        r == with_sign(negative, size as int),
{
    if negative {
        0x8000_0000 + size
    } else {
        size
    }
}

fn size_in(a: Rounded) -> (r: u32)
    requires
        is_number(24, a@),
        a.m != 0,
    ensures
        r == size_of(a@),
        0x80_0000 <= r < 0x100_0000,
{
    proof {
        lemma_pow2_values();
    }
    if a.m < 0 {
        (-a.m) as u32
    } else {
        a.m as u32
    }
}

/// The product of two numbers.
pub fn multiply_singles(a: u32, b: u32) -> (r: u32)
    ensures
        r == product_bits(a, b),
{
    let x: u32 = a % 0x8000_0000;
    let y: u32 = b % 0x8000_0000;
    let negative: bool = (a >= 0x8000_0000) != (b >= 0x8000_0000);
    if x > INFINITY || y > INFINITY || x == 0 && y == INFINITY || x == INFINITY && y == 0 {
        return NAN;
    }
    if x == INFINITY || y == INFINITY {
        return sign_of(negative, INFINITY);
    }
    if x == 0 || y == 0 {
        return sign_of(negative, 0);
    }
    let p: Rounded = read_single(a);
    let q: Rounded = read_single(b);
    let m: u32 = size_in(p);
    let n: u32 = size_in(q);
    assert(0x4000_0000_0000 <= m * n && m * n < 0x1_0000_0000_0000) by (nonlinear_arith)
        requires
            0x80_0000 <= m < 0x100_0000,
            0x80_0000 <= n < 0x100_0000,
    ;
    sign_of(negative, product_size(m as u64 * n as u64, p.e + q.e))
}

/// The quotient of two numbers.
pub fn divide_singles(a: u32, b: u32) -> (r: u32)
    ensures
        r == quotient_bits(a, b),
{
    let x: u32 = a % 0x8000_0000;
    let y: u32 = b % 0x8000_0000;
    let negative: bool = (a >= 0x8000_0000) != (b >= 0x8000_0000);
    if x > INFINITY || y > INFINITY || x == 0 && y == 0 || x == INFINITY && y == INFINITY {
        return NAN;
    }
    if x == INFINITY || y == 0 {
        return sign_of(negative, INFINITY);
    }
    if x == 0 || y == INFINITY {
        return sign_of(negative, 0);
    }
    let p: Rounded = read_single(a);
    let q: Rounded = read_single(b);
    sign_of(negative, quotient_size(size_in(p), size_in(q), p.e - q.e))
}

/// An integer as a number.
pub fn single_of(n: u64) -> (r: u32)
    ensures
        r == integer_bits(n as nat),
{
    if n == 0 {
        0
    } else {
        write_single(round_integer(24, n))
    }
}

/// The square root of a number.
pub fn root_single(a: u32) -> (r: u32)
    ensures
        r == root_bits(a),
{
    let size: u32 = a % 0x8000_0000;
    if size > INFINITY {
        return NAN;
    }
    if size == 0 {
        return a;
    }
    if a >= 0x8000_0000 {
        return NAN;
    }
    if a == INFINITY {
        return a;
    }
    write_single(square_root(24, read_single(a)))
}

/// A number rounded up, as a count.
pub fn round_up(bits: u32) -> (r: usize)
    ensures
        r == count_above(bits),
{
    if bits >= 0x8000_0000 || bits > INFINITY {
        return 0;
    }
    if bits == INFINITY {
        return usize::MAX;
    }
    let a: Rounded = read_single(bits);
    proof {
        lemma_pow2_values();
        vstd::arithmetic::power2::lemma2_to64_rest();
    }
    if a.m == 0 {
        assert(0 * pow2(0) == 0);
        return 0;
    }
    let above: u128 = if a.e > 41 {
        proof {
            lemma_pow2_mono(42, a.e as nat);
            assert(a.m * pow2(a.e as nat) > u64::MAX) by (nonlinear_arith)
                requires
                    a.m >= 0x80_0000,
                    pow2(a.e as nat) >= 0x400_0000_0000,
            ;
        }
        return usize::MAX;
    } else if a.e >= 0 {
        let w: u128 = power_of_two(a.e as u32);
        proof {
            lemma_pow2_mono(a.e as nat, 41);
            assert(a.m * w < 0x100_0000 * 0x400_0000_0000) by (nonlinear_arith)
                requires
                    0 <= a.m < 0x100_0000,
                    0 <= w < 0x400_0000_0000,
            ;
        }
        a.m as u128 * w
    } else if a.e < -60 {
        proof {
            let d = pow2((-a.e) as nat) as int;
            lemma_pow2_mono(61, (-a.e) as nat);
            assert((a.m + d - 1) / d == 1) by (nonlinear_arith)
                requires
                    1 <= a.m <= d,
            ;
        }
        1
    } else {
        let w: u128 = power_of_two((-a.e) as u32);
        proof {
            lemma_pow2_mono((-a.e) as nat, 60);
            lemma_pow2_step((-a.e) as nat);
        }
        (a.m as u128 + w - 1) / w
    };
    if above > usize::MAX as u128 {
        usize::MAX
    } else {
        above as usize
    }
}

/// The bits of the number that bits stand for are those bits, but for the zeros.
pub proof fn law_bits_are_kept(bits: u32)
    requires
        is_finite(bits),
        !is_zero(bits),
    ensures
        number_of(bits).m != 0,
        bits_for(number_of(bits)) == bits,
{
    lemma_pow2_values();
    let size = bits % 0x8000_0000;
    let field = size / 0x80_0000;
    let n: nat = if field == 0 {
        size as nat
    } else {
        (size % 0x80_0000 + 0x80_0000) as nat
    };
    let k = lemma_kept_integer(24, n);
    vstd::arithmetic::power2::lemma_pow2_pos(k);
    vstd::arithmetic::div_mod::lemma_div_multiples_vanish(n as int, pow2(k) as int);
    assert(n * pow2(k) == pow2(k) * n) by (nonlinear_arith);
    assert(n * 1 == n);
    if field == 0 {
        assert(k > 0);
        assert(size_bits((n * pow2(k)) as int, -149 - k) == n);
    }
}

/// The opposite bits stand for the opposite number.
pub proof fn law_opposite_is_negated(bits: u32)
    requires
        is_finite(bits),
    ensures
        is_finite(opposite(bits)),
        number_of(opposite(bits)) == negated(number_of(bits)),
        opposite(opposite(bits)) == bits,
{
}

/// A number less itself is zero, and the positive one.
pub proof fn law_nothing_is_left(bits: u32)
    requires
        is_finite(bits),
    ensures
        difference_bits(bits, bits) == 0,
{
    law_opposite_is_negated(bits);
    let a = number_of(bits);
    if a.m != 0 {
        assert(a.m * 1 + (-a.m) * 1 == 0);
        lemma_pow2_values();
    }
}

/// Sums and products do not depend on the order of the two numbers.
pub proof fn law_order_does_not_matter(a: u32, b: u32)
    ensures
        sum_bits(a, b) == sum_bits(b, a),
        product_bits(a, b) == product_bits(b, a),
{
    if is_finite(a) && is_finite(b) {
        let x = number_of(a);
        let y = number_of(b);
        assert(size_of(x) * size_of(y) == size_of(y) * size_of(x)) by (nonlinear_arith);
    }
}

pub proof fn lemma_is_number(bits: u32)
    requires
        is_finite(bits),
    ensures
        is_number(24, number_of(bits)),
{
    lemma_pow2_values();
    let size = bits % 0x8000_0000;
    let field = size / 0x80_0000;
    let n: nat = if field == 0 {
        size as nat
    } else {
        (size % 0x80_0000 + 0x80_0000) as nat
    };
    if n > 0 {
        let k = lemma_kept_integer(24, n);
    }
}

proof fn lemma_size(m: int, e: int)
    requires
        pow2(23) <= m < pow2(24),
    ensures
        0 <= size_bits(m, e) <= INFINITY,
{
    lemma_pow2_values();
    if e < -149 {
        let d = pow2((-149 - e) as nat) as int;
        lemma_pow2_step((-149 - e) as nat);
        assert(0 <= m / d <= m) by (nonlinear_arith)
            requires
                m > 0,
                d >= 1,
        ;
    }
}

/// Numbers have a sum, but for two infinities.
pub proof fn law_numbers_have_a_sum(a: u32, b: u32)
    requires
        !is_nan_bits(a),
        !is_nan_bits(b),
        !is_infinite(a) || !is_infinite(b),
    ensures
        !is_nan_bits(sum_bits(a, b)),
{
    if is_finite(a) && is_finite(b) {
        lemma_is_number(a);
        lemma_is_number(b);
        let x = number_of(a);
        let y = number_of(b);
        let s = sum(24, x, y);
        if x.m != 0 && y.m != 0 {
            let e = if x.e <= y.e {
                x.e
            } else {
                y.e
            };
            let t = aligned(x, e) + aligned(y, e);
            if t != 0 {
                let n = (if t > 0 {
                    t
                } else {
                    -t
                }) as nat;
                let (f, _) = lemma_fits_integer(24, n);
                lemma_rounded(24, n, 1, f);
            }
        }
        if s.m > 0 {
            lemma_size(s.m, s.e);
        } else if s.m < 0 {
            lemma_size(-s.m, s.e);
        }
    }
}

/// The bits of a positive number in the normal range stand for that number.
pub proof fn lemma_number_is_kept(a: Number)
    requires
        is_number(24, a),
        a.m > 0,
        -149 <= a.e <= 104,
    ensures
        0 < bits_for(a) < INFINITY,
        number_of(bits_for(a)) == a,
{
    lemma_pow2_values();
    let _ = lemma_kept_integer(24, a.m as nat);
    assert(a.m * 1 == a.m);
}

} // verus!
