//! Double-precision arithmetic on the bits of numbers, in integers.
//!
//! Every bit pattern is covered: normal and subnormal numbers, both zeros, both
//! infinities, and what is no number. Results are rounded to the nearest double,
//! the even one of two that are as near. A result that is no number is always
//! the same pattern.

use vstd::arithmetic::power2::pow2;
use vstd::prelude::*;

use crate::bits::{double_key, is_nan_double};
use crate::float::{
    double_bits, is_number, lemma_nearest_even_between, lemma_pow2_mono, lemma_pow2_step,
    lemma_pow2_values, lemma_rounded, lemma_sum_absorbs, nearest, nearest_even, plus, power_of_two,
    quotient, round_integer, round_ratio, rounded, rounded_size, scaled, sum, two_to, Number,
    Rounded,
};
use crate::rounding::{
    lemma_adding_more, lemma_adding_no_less, lemma_aligned_order, lemma_fits_integer,
    lemma_integer_range, lemma_kept_integer, lemma_nearest_none, lemma_nearest_ratio,
    lemma_quotient_falls, lemma_rounding_is_monotone, lemma_rounding_scales, lemma_sum_grows,
    no_greater,
};

verus! {

/// The bits of infinity.
pub const INFINITY: u64 = 0x7ff0_0000_0000_0000;

/// Bits that are no number.
pub const NAN: u64 = 0x7ff8_0000_0000_0000;

/// The bits of one.
pub const ONE: u64 = 0x3ff0_0000_0000_0000;

/// The bits of the negative zero.
pub const NEGATIVE_ZERO: u64 = 0x8000_0000_0000_0000;

/// Whether the bits are those of a finite number.
pub open spec fn is_finite(bits: u64) -> bool {
    bits % NEGATIVE_ZERO < INFINITY
}

/// Whether the bits are those of an infinity.
pub open spec fn is_infinite(bits: u64) -> bool {
    bits % NEGATIVE_ZERO == INFINITY
}

/// Whether the bits are those of a zero.
pub open spec fn is_zero(bits: u64) -> bool {
    bits % NEGATIVE_ZERO == 0
}

/// Whether the sign is set.
pub open spec fn is_negative(bits: u64) -> bool {
    bits >= NEGATIVE_ZERO
}

/// The bits of a size with a sign.
pub open spec fn with_sign(negative: bool, size: int) -> u64 {
    if negative {
        (NEGATIVE_ZERO + size) as u64
    } else {
        size as u64
    }
}

/// The number that the bits of a finite number stand for.
pub open spec fn number_of(bits: u64) -> Number {
    let size = bits % NEGATIVE_ZERO;
    let field = size / 0x10_0000_0000_0000;
    let n: int = if field == 0 {
        size as int
    } else {
        size % 0x10_0000_0000_0000 + 0x10_0000_0000_0000
    };
    let k: int = if field == 0 {
        -1074
    } else {
        field - 1075
    };
    scaled(
        rounded(
            53,
            if bits < NEGATIVE_ZERO {
                n
            } else {
                -n
            },
            1,
        ),
        k,
    )
}

/// The bits of a positive number with a significand of 53 bits. Below the normal
/// range they count the least double; above it they are those of infinity.
pub open spec fn size_bits(m: int, e: int) -> int {
    if e > 971 {
        INFINITY as int
    } else if e >= -1074 {
        double_bits(Number { m, e })
    } else {
        m / pow2((-1074 - e) as nat) as int
    }
}

/// The bits of a number that is not zero.
pub open spec fn bits_for(a: Number) -> u64 {
    if a.m > 0 {
        with_sign(false, size_bits(a.m, a.e))
    } else {
        with_sign(true, size_bits(-a.m, a.e))
    }
}

/// The bits of the double nearest to a positive `num / den * 2^e`.
pub open spec fn ratio_bits(num: nat, den: nat, e: int) -> int {
    let r = scaled(rounded_size(53, num, den), e);
    if r.e >= -1074 {
        size_bits(r.m, r.e)
    } else if e >= -1074 {
        nearest_even(num * pow2((e + 1074) as nat), den) as int
    } else {
        nearest_even(num, den * pow2((-1074 - e) as nat)) as int
    }
}

/// The significand of a number without its sign.
pub open spec fn size_of(a: Number) -> nat {
    if a.m < 0 {
        (-a.m) as nat
    } else {
        a.m as nat
    }
}

/// The bits of a sum. A sum that is zero is the negative zero only where both
/// numbers are; there is no sum of opposite infinities.
pub open spec fn sum_bits(a: u64, b: u64) -> u64 {
    if is_nan_double(a) || is_nan_double(b) {
        NAN
    } else if is_infinite(a) {
        if is_infinite(b) && a != b {
            NAN
        } else {
            a
        }
    } else if is_infinite(b) {
        b
    } else {
        let s = sum(53, number_of(a), number_of(b));
        if s.m != 0 {
            bits_for(s)
        } else if a == NEGATIVE_ZERO && b == NEGATIVE_ZERO {
            NEGATIVE_ZERO
        } else {
            0
        }
    }
}

/// The bits of a product. There is no product of zero and infinity.
pub open spec fn product_bits(a: u64, b: u64) -> u64 {
    let negative = is_negative(a) != is_negative(b);
    if is_nan_double(a) || is_nan_double(b) || is_zero(a) && is_infinite(b) || is_infinite(a)
        && is_zero(b) {
        NAN
    } else if is_infinite(a) || is_infinite(b) {
        with_sign(negative, INFINITY as int)
    } else if is_zero(a) || is_zero(b) {
        with_sign(negative, 0)
    } else {
        let x = number_of(a);
        let y = number_of(b);
        with_sign(negative, ratio_bits(size_of(x) * size_of(y), 1, x.e + y.e))
    }
}

/// The bits of a quotient. There is no quotient of two zeros or two infinities.
pub open spec fn quotient_bits(a: u64, b: u64) -> u64 {
    let negative = is_negative(a) != is_negative(b);
    if is_nan_double(a) || is_nan_double(b) || is_zero(a) && is_zero(b) || is_infinite(a)
        && is_infinite(b) {
        NAN
    } else if is_infinite(a) || is_zero(b) {
        with_sign(negative, INFINITY as int)
    } else if is_zero(a) || is_infinite(b) {
        with_sign(negative, 0)
    } else {
        let x = number_of(a);
        let y = number_of(b);
        with_sign(negative, ratio_bits(size_of(x), size_of(y), x.e - y.e))
    }
}

/// The bits of the double nearest to an integer.
pub open spec fn integer_bits(n: nat) -> u64 {
    if n == 0 {
        0
    } else {
        bits_for(rounded(53, n as int, 1))
    }
}

fn read_double(bits: u64) -> (r: Rounded)
    requires
        is_finite(bits),
    ensures
        r@ == number_of(bits),
        is_number(53, r@),
        -1200 <= r.e <= 1000,
        r.m == 0 <==> is_zero(bits),
        r.m == 0 ==> r.e == 0,
        r.m != 0 ==> (r.m < 0) == is_negative(bits),
{
    let size: u64 = bits % NEGATIVE_ZERO;
    let field: u64 = size / 0x10_0000_0000_0000;
    proof {
        lemma_pow2_values();
    }
    if size == 0 {
        return Rounded { m: 0, e: 0 };
    }
    let x: Rounded = if field == 0 {
        let y: Rounded = round_integer(53, size);
        Rounded { m: y.m, e: y.e - 1074 }
    } else {
        let n: u64 = size % 0x10_0000_0000_0000 + 0x10_0000_0000_0000;
        proof {
            let _ = lemma_kept_integer(53, n as nat);
            assert(n * 1 == n);
        }
        Rounded { m: n as i64, e: field as i32 - 1075 }
    };
    if bits < NEGATIVE_ZERO {
        x
    } else {
        Rounded { m: -x.m, e: x.e }
    }
}

fn write_size(m: u64, e: i32) -> (r: u64)
    requires
        0x10_0000_0000_0000 <= m < 0x20_0000_0000_0000,
    ensures
        r == size_bits(m as int, e as int),
        r <= INFINITY,
{
    proof {
        lemma_pow2_values();
    }
    if e > 971 {
        return INFINITY;
    }
    if e >= -1074 {
        return ((e + 1075) as u64) * 0x10_0000_0000_0000 + (m - 0x10_0000_0000_0000);
    }
    if e < -1134 {
        proof {
            lemma_pow2_mono(53, (-1074 - e) as nat);
            let d = pow2((-1074 - e) as nat) as int;
            assert(m as int / d == 0) by (nonlinear_arith)
                requires
                    0 <= m < d,
            ;
        }
        return 0;
    }
    let k: u64 = (-1074 - e) as u64;
    proof {
        vstd::bits::lemma_u64_shr_is_div(m, k);
        vstd::arithmetic::power2::lemma_pow2_pos(k as nat);
        let d = pow2(k as nat) as int;
        assert(m as int / d <= m) by (nonlinear_arith)
            requires
                m >= 0,
                d >= 1,
        ;
    }
    m >> k
}

fn write_double(a: Rounded) -> (r: u64)
    requires
        is_number(53, a@),
        a.m != 0,
    ensures
        r == bits_for(a@),
{
    proof {
        lemma_pow2_values();
    }
    if a.m > 0 {
        write_size(a.m as u64, a.e)
    } else {
        NEGATIVE_ZERO + write_size((-a.m) as u64, a.e)
    }
}

/// The sum of two numbers.
pub fn add_doubles(a: u64, b: u64) -> (r: u64)
    ensures
        r == sum_bits(a, b),
{
    let x: u64 = a % NEGATIVE_ZERO;
    let y: u64 = b % NEGATIVE_ZERO;
    if x > INFINITY || y > INFINITY {
        return NAN;
    }
    if x == INFINITY {
        return if y == INFINITY && a != b {
            NAN
        } else {
            a
        };
    }
    if y == INFINITY {
        return b;
    }
    let s: Rounded = plus(53, read_double(a), read_double(b));
    if s.m != 0 {
        write_double(s)
    } else if a == NEGATIVE_ZERO && b == NEGATIVE_ZERO {
        NEGATIVE_ZERO
    } else {
        0
    }
}

fn quotient_size(num: u64, den: u64, e: i32) -> (r: u64)
    requires
        0x10_0000_0000_0000 <= num < 0x20_0000_0000_0000,
        0x10_0000_0000_0000 <= den < 0x20_0000_0000_0000,
        -3000 <= e <= 3000,
    ensures
        r == ratio_bits(num as nat, den as nat, e as int),
        r <= INFINITY,
{
    proof {
        lemma_pow2_values();
        vstd::arithmetic::power2::lemma2_to64_rest();
    }
    let q: Rounded = round_ratio(53, num as u128, den as u128);
    let s: i32 = q.e + e;
    if s >= -1074 {
        return write_size(q.m as u64, s);
    }
    if e >= -1074 {
        let k: u32 = (e + 1074) as u32;
        let w: u128 = power_of_two(k);
        proof {
            lemma_pow2_mono(k as nat, 52);
            lemma_pow2_step(k as nat);
            assert(num * w <= 0x20_0000_0000_0000 * den && num * w < 0x20_0000_0000_0000
                * 0x20_0000_0000_0000) by (nonlinear_arith)
                requires
                    0 <= num < 0x20_0000_0000_0000,
                    0x10_0000_0000_0000 <= den,
                    1 <= w <= 0x10_0000_0000_0000,
            ;
            lemma_nearest_even_between((num * w) as nat, den as nat, 0, 0x20_0000_0000_0000);
        }
        return nearest(num as u128 * w, den as u128) as u64;
    }
    let k: u32 = (-1074 - e) as u32;
    if k > 60 {
        proof {
            lemma_pow2_mono(61, k as nat);
            assert(2 * num < den * pow2(k as nat)) by (nonlinear_arith)
                requires
                    num < 0x20_0000_0000_0000,
                    den >= 1,
                    pow2(k as nat) >= 0x2000_0000_0000_0000,
            ;
            lemma_nearest_none(num as nat, (den * pow2(k as nat)) as nat);
        }
        return 0;
    }
    let w: u128 = power_of_two(k);
    proof {
        lemma_pow2_mono(k as nat, 60);
        lemma_pow2_step(k as nat);
        assert(0 < den * w && den * w < 0x20_0000_0000_0000 * 0x2000_0000_0000_0000 && num <= 2 * (
        den * w)) by (nonlinear_arith)
            requires
                num < 0x20_0000_0000_0000,
                0x10_0000_0000_0000 <= den < 0x20_0000_0000_0000,
                1 <= w < 0x2000_0000_0000_0000,
        ;
        lemma_nearest_even_between(num as nat, (den * w) as nat, 0, 2);
    }
    nearest(num as u128, den as u128 * w) as u64
}

fn sign_of(negative: bool, size: u64) -> (r: u64)
    requires
        size <= INFINITY,
    ensures
        r == with_sign(negative, size as int),
{
    if negative {
        NEGATIVE_ZERO + size
    } else {
        size
    }
}

fn size_in(a: Rounded) -> (r: u64)
    requires
        is_number(53, a@),
        a.m != 0,
    ensures
        r == size_of(a@),
        0x10_0000_0000_0000 <= r < 0x20_0000_0000_0000,
{
    proof {
        lemma_pow2_values();
    }
    if a.m < 0 {
        (-a.m) as u64
    } else {
        a.m as u64
    }
}

/// The quotient of two numbers.
pub fn divide_doubles(a: u64, b: u64) -> (r: u64)
    ensures
        r == quotient_bits(a, b),
{
    let x: u64 = a % NEGATIVE_ZERO;
    let y: u64 = b % NEGATIVE_ZERO;
    let negative: bool = (a >= NEGATIVE_ZERO) != (b >= NEGATIVE_ZERO);
    if x > INFINITY || y > INFINITY || x == 0 && y == 0 || x == INFINITY && y == INFINITY {
        return NAN;
    }
    if x == INFINITY || y == 0 {
        return sign_of(negative, INFINITY);
    }
    if x == 0 || y == INFINITY {
        return sign_of(negative, 0);
    }
    let p: Rounded = read_double(a);
    let q: Rounded = read_double(b);
    sign_of(negative, quotient_size(size_in(p), size_in(q), p.e - q.e))
}

fn product_size(num: u128, e: i32) -> (r: u64)
    requires
        0x100_0000_0000_0000_0000_0000_0000 <= num < 0x400_0000_0000_0000_0000_0000_0000,
        -3000 <= e <= 3000,
    ensures
        r == ratio_bits(num as nat, 1, e as int),
        r <= INFINITY,
{
    proof {
        lemma_pow2_values();
        vstd::arithmetic::power2::lemma_pow2_adds(52, 52);
        vstd::arithmetic::power2::lemma_pow2_adds(53, 53);
    }
    assert(pow2(104) == 0x100_0000_0000_0000_0000_0000_0000);
    assert(pow2(106) == 0x400_0000_0000_0000_0000_0000_0000);
    let q: Rounded = round_ratio(53, num, 1);
    let s: i32 = q.e + e;
    if s >= -1074 {
        return write_size(q.m as u64, s);
    }
    let k: u32 = (-1074 - e) as u32;
    assert(1 * pow2(k as nat) == pow2(k as nat));
    if k > 107 {
        proof {
            lemma_pow2_step(106);
            lemma_pow2_step(107);
            lemma_pow2_mono(108, k as nat);
            lemma_nearest_none(num as nat, pow2(k as nat));
        }
        return 0;
    }
    let w: u128 = power_of_two(k);
    proof {
        lemma_pow2_step(106);
        lemma_pow2_mono(53, k as nat);
        lemma_pow2_mono(k as nat, 107);
        assert(num <= 0x20_0000_0000_0000 * w) by (nonlinear_arith)
            requires
                num < 0x400_0000_0000_0000_0000_0000_0000,
                w >= 0x20_0000_0000_0000,
        ;
        lemma_nearest_even_between(num as nat, w as nat, 0, 0x20_0000_0000_0000);
    }
    nearest(num, w) as u64
}

/// The product of two numbers.
pub fn multiply_doubles(a: u64, b: u64) -> (r: u64)
    ensures
        r == product_bits(a, b),
{
    let x: u64 = a % NEGATIVE_ZERO;
    let y: u64 = b % NEGATIVE_ZERO;
    let negative: bool = (a >= NEGATIVE_ZERO) != (b >= NEGATIVE_ZERO);
    if x > INFINITY || y > INFINITY || x == 0 && y == INFINITY || x == INFINITY && y == 0 {
        return NAN;
    }
    if x == INFINITY || y == INFINITY {
        return sign_of(negative, INFINITY);
    }
    if x == 0 || y == 0 {
        return sign_of(negative, 0);
    }
    let p: Rounded = read_double(a);
    let q: Rounded = read_double(b);
    let m: u64 = size_in(p);
    let n: u64 = size_in(q);
    proof {
        assert(0x100_0000_0000_0000_0000_0000_0000 <= m * n && m * n
            < 0x400_0000_0000_0000_0000_0000_0000) by (nonlinear_arith)
            requires
                0x10_0000_0000_0000 <= m < 0x20_0000_0000_0000,
                0x10_0000_0000_0000 <= n < 0x20_0000_0000_0000,
        ;
    }
    sign_of(negative, product_size(m as u128 * n as u128, p.e + q.e))
}

/// An integer as a number.
pub fn double_of(n: u64) -> (r: u64)
    ensures
        r == integer_bits(n as nat),
{
    if n == 0 {
        0
    } else {
        write_double(round_integer(53, n))
    }
}

/// The bits of a number in the normal range stand for that number.
proof fn lemma_number_is_kept(a: Number)
    requires
        is_number(53, a),
        a.m > 0,
        -1074 <= a.e <= 971,
    ensures
        0 < bits_for(a) < INFINITY,
        number_of(bits_for(a)) == a,
{
    lemma_pow2_values();
    let _ = lemma_kept_integer(53, a.m as nat);
    assert(a.m * 1 == a.m);
}

/// What the bits of a finite number stand for.
proof fn lemma_number(bits: u64)
    requires
        is_finite(bits),
    ensures
        is_number(53, number_of(bits)),
        number_of(bits).m == 0 <==> is_zero(bits),
        number_of(bits).m > 0 <==> !is_zero(bits) && !is_negative(bits),
        number_of(bits).e <= 971,
        bits % NEGATIVE_ZERO >= 0x10_0000_0000_0000 ==> number_of(bits).e >= -1074,
{
    lemma_pow2_values();
    let size = bits % NEGATIVE_ZERO;
    let field = size / 0x10_0000_0000_0000;
    let n: nat = if field == 0 {
        size as nat
    } else {
        (size % 0x10_0000_0000_0000 + 0x10_0000_0000_0000) as nat
    };
    if n > 0 {
        let k = lemma_kept_integer(53, n);
        assert(n * 1 == n);
    }
}

/// The bits of the number that positive bits stand for are those bits.
pub proof fn law_bits_are_kept(bits: u64)
    requires
        0 < bits < INFINITY,
    ensures
        number_of(bits).m > 0,
        bits_for(number_of(bits)) == bits,
{
    lemma_pow2_values();
    let field = bits / 0x10_0000_0000_0000;
    let n: nat = if field == 0 {
        bits as nat
    } else {
        (bits % 0x10_0000_0000_0000 + 0x10_0000_0000_0000) as nat
    };
    let k = lemma_kept_integer(53, n);
    vstd::arithmetic::power2::lemma_pow2_pos(k);
    vstd::arithmetic::div_mod::lemma_div_multiples_vanish(n as int, pow2(k) as int);
    assert(n * pow2(k) == pow2(k) * n) by (nonlinear_arith);
    assert(n * 1 == n);
    if field == 0 {
        assert(k > 0);
        assert(size_bits((n * pow2(k)) as int, -1074 - k) == n);
    }
}

/// The order of positive numbers is kept by their bits.
proof fn lemma_sizes_in_order(a: Number, b: Number)
    requires
        is_number(53, a),
        is_number(53, b),
        a.m > 0,
        b.m > 0,
        no_greater(a, b),
    ensures
        0 <= size_bits(a.m, a.e) <= size_bits(b.m, b.e) <= INFINITY,
{
    lemma_pow2_values();
    if a.e < -1074 {
        let i = (-1074 - a.e) as nat;
        let d = pow2(i) as int;
        lemma_pow2_step(i);
        let x = a.m / d;
        lemma_pow2_mono(1, i);
        assert(0 <= x && x * d <= a.m && x < 0x10_0000_0000_0000) by {
            vstd::arithmetic::div_mod::lemma_fundamental_div_mod(a.m, d);
            assert(0 <= x && x * d <= a.m && x < 0x10_0000_0000_0000) by (nonlinear_arith)
                requires
                    a.m == d * x + a.m % d,
                    0 <= a.m % d < d,
                    0 < a.m < 0x20_0000_0000_0000,
                    d >= 2,
            ;
        }
        if b.e < -1074 {
            let j = (-1074 - b.e) as nat;
            let c = pow2(j) as int;
            lemma_pow2_mono(0, j);
            lemma_aligned_order(53, a, b, a.e);
            let g = pow2((b.e - a.e) as nat) as int;
            lemma_pow2_step((b.e - a.e) as nat);
            vstd::arithmetic::power2::lemma_pow2_adds((b.e - a.e) as nat, j);
            assert(d == g * c);
            assert(a.m * 1 == a.m);
            assert(a.m <= b.m * g);
            let y = b.m / c;
            vstd::arithmetic::div_mod::lemma_fundamental_div_mod(b.m, c);
            assert(x <= y) by (nonlinear_arith)
                requires
                    x * (g * c) <= a.m,
                    a.m <= b.m * g,
                    b.m == c * y + b.m % c,
                    0 <= b.m % c < c,
                    g > 0,
                    c > 0,
            ;
            assert(y <= b.m) by (nonlinear_arith)
                requires
                    b.m == c * y + b.m % c,
                    0 <= b.m % c < c,
                    c >= 1,
                    b.m > 0,
            ;
        }
    }
}

/// A sum with what is not less than zero is no less.
pub proof fn law_sum_is_no_less(a: u64, b: u64)
    requires
        a <= INFINITY,
        b <= INFINITY || b == NEGATIVE_ZERO,
    ensures
        a <= sum_bits(a, b) <= INFINITY,
{
    if a < INFINITY && b != INFINITY {
        lemma_number(a);
        lemma_number(b);
        let x = number_of(a);
        let y = number_of(b);
        lemma_adding_no_less(53, x, y);
        let s = sum(53, x, y);
        if a > 0 {
            law_bits_are_kept(a);
            lemma_sizes_in_order(x, s);
        } else if s.m > 0 {
            lemma_sizes_in_order(s, s);
        }
    }
}

/// A ratio below the normal range, counted in the least double.
spec fn counted(num: nat, den: nat, e: int) -> nat {
    if e >= -1074 {
        nearest_even(num * pow2((e + 1074) as nat), den)
    } else {
        nearest_even(num, den * pow2((-1074 - e) as nat))
    }
}

proof fn lemma_counted_falls(n: nat, d: nat, c: nat, i: int, j: int)
    requires
        d > 0,
        c > 0,
        i >= j,
        d <= c * pow2((i - j) as nat),
    ensures
        counted(n, c, j) <= counted(n, d, i),
{
    let g = pow2((i - j) as nat);
    assert(n * d <= n * (c * g)) by (nonlinear_arith)
        requires
            d <= c * g,
    ;
    if j >= -1074 {
        let w = pow2((j + 1074) as nat);
        let v = pow2((i + 1074) as nat);
        vstd::arithmetic::power2::lemma_pow2_adds((j + 1074) as nat, (i - j) as nat);
        assert((n * w) * d <= (n * v) * c) by (nonlinear_arith)
            requires
                v == w * g,
                n * d <= n * (c * g),
        ;
        lemma_nearest_ratio(n * w, c, n * v, d);
    } else if i >= -1074 {
        let w = pow2((-1074 - j) as nat);
        let v = pow2((i + 1074) as nat);
        lemma_pow2_step((-1074 - j) as nat);
        vstd::arithmetic::power2::lemma_pow2_adds((-1074 - j) as nat, (i + 1074) as nat);
        assert(n * d <= (n * v) * (c * w) && c * w > 0) by (nonlinear_arith)
            requires
                g == w * v,
                n * d <= n * (c * g),
                c > 0,
                w > 0,
        ;
        lemma_nearest_ratio(n, c * w, n * v, d);
    } else {
        let w = pow2((-1074 - j) as nat);
        let v = pow2((-1074 - i) as nat);
        lemma_pow2_step((-1074 - j) as nat);
        lemma_pow2_step((-1074 - i) as nat);
        vstd::arithmetic::power2::lemma_pow2_adds((-1074 - i) as nat, (i - j) as nat);
        assert(n * (d * v) <= n * (c * w) && c * w > 0 && d * v > 0) by (nonlinear_arith)
            requires
                w == v * g,
                n * d <= n * (c * g),
                c > 0,
                d > 0,
                w > 0,
                v > 0,
        ;
        lemma_nearest_ratio(n, c * w, n, d * v);
    }
}

proof fn lemma_counted_is_small(n: nat, d: nat, e: int)
    requires
        0x10_0000_0000_0000 <= n < 0x20_0000_0000_0000,
        0x10_0000_0000_0000 <= d < 0x20_0000_0000_0000,
        scaled(rounded_size(53, n, d), e).e < -1074,
    ensures
        counted(n, d, e) <= 0x10_0000_0000_0000,
{
    lemma_pow2_values();
    let top: nat = 0x10_0000_0000_0000;
    assert(pow2(52) == top && pow2(53) == 2 * top);
    if n < d {
        assert(pow2(52) * d <= n * pow2(53) && n * pow2(53) < pow2(53) * d) by (nonlinear_arith)
            requires
                pow2(53) == 2 * pow2(52),
                pow2(52) > 0,
                d <= 2 * n,
                n < d,
        ;
        lemma_rounded(53, n, d, -53);
    } else {
        assert(pow2(52) * d <= n * pow2(52) && n * pow2(52) < pow2(53) * d) by (nonlinear_arith)
            requires
                pow2(53) == 2 * pow2(52),
                pow2(52) > 0,
                d <= n,
                n < 2 * d,
        ;
        lemma_rounded(53, n, d, -52);
    }
    if e >= -1074 {
        let i = (e + 1074) as nat;
        let w = pow2(i);
        if n < d {
            lemma_pow2_mono(i, 52);
            assert(n * w <= top * d) by (nonlinear_arith)
                requires
                    n <= d,
                    w <= top,
            ;
        } else {
            lemma_pow2_step(51);
            lemma_pow2_mono(i, 51);
            assert(n * w <= top * d) by (nonlinear_arith)
                requires
                    n <= 2 * d,
                    2 * w <= top,
            ;
        }
        lemma_nearest_even_between(n * w, d, 0, top);
    } else {
        let w = pow2((-1074 - e) as nat);
        lemma_pow2_step((-1074 - e) as nat);
        assert(0 < d * w && n <= top * (d * w)) by (nonlinear_arith)
            requires
                n <= 2 * d,
                w >= 1,
                d > 0,
                top >= 2,
        ;
        lemma_nearest_even_between(n, d * w, 0, top);
    }
}

/// A ratio is no greater where what it is divided by is no less.
proof fn lemma_ratio_falls(a: Number, b: Number, c: Number)
    requires
        is_number(53, a),
        is_number(53, b),
        is_number(53, c),
        a.m > 0,
        b.m > 0,
        c.m > 0,
        no_greater(b, c),
    ensures
        0 <= ratio_bits(a.m as nat, c.m as nat, a.e - c.e) <= ratio_bits(
            a.m as nat,
            b.m as nat,
            a.e - b.e,
        ) <= INFINITY,
{
    lemma_pow2_values();
    let n = a.m as nat;
    let i = a.e - b.e;
    let j = a.e - c.e;
    lemma_quotient_falls(53, a, b, c);
    lemma_quotient_falls(53, a, c, c);
    let r = quotient(53, a, b);
    let s = quotient(53, a, c);
    assert(r == scaled(rounded_size(53, n, b.m as nat), i));
    assert(s == scaled(rounded_size(53, n, c.m as nat), j));
    if s.e >= -1074 {
        lemma_sizes_in_order(s, r);
    } else {
        lemma_counted_is_small(n, c.m as nat, j);
        if r.e >= -1074 {
            lemma_sizes_in_order(r, r);
        } else {
            lemma_counted_is_small(n, b.m as nat, i);
            lemma_aligned_order(53, b, c, b.e);
            assert(b.m * 1 == b.m);
            lemma_counted_falls(n, b.m as nat, c.m as nat, i, j);
        }
    }
}

/// Adding an integer leaves a number in the normal range.
proof fn lemma_divisor(k: Number, n: u64)
    requires
        is_number(53, k),
        k.m >= 0,
        k.e <= 971,
        n > 0,
    ensures
        ({
            let s = sum(53, k, rounded(53, n as int, 1));
            is_number(53, s) && s.m > 0 && -1074 <= s.e <= 971
        }),
{
    let x = rounded(53, n as int, 1);
    lemma_integer_range(53, n as nat);
    assert(sum(53, k, x) == sum(53, x, k));
    lemma_sum_grows(53, x, k);
    if k.m > 0 && k.e > 100 {
        lemma_sum_absorbs(53, k, x);
    }
}

/// The bits of a number and an integer.
proof fn lemma_divisor_bits(b: u64, n: u64)
    requires
        b < INFINITY || b == NEGATIVE_ZERO,
        n > 0,
    ensures
        ({
            let s = sum(53, number_of(b), rounded(53, n as int, 1));
            &&& sum_bits(b, integer_bits(n as nat)) == bits_for(s)
            &&& 0 < bits_for(s) < INFINITY
            &&& number_of(bits_for(s)) == s
        }),
{
    let x = rounded(53, n as int, 1);
    lemma_integer_range(53, n as nat);
    lemma_number_is_kept(x);
    lemma_number(b);
    lemma_divisor(number_of(b), n);
    lemma_number_is_kept(sum(53, number_of(b), x));
}

/// What a positive number divides another into.
proof fn lemma_divided(a: u64, b: u64)
    requires
        a <= INFINITY || a == NEGATIVE_ZERO,
        0 < b < INFINITY,
    ensures
        a == 0 || a == INFINITY || a == NEGATIVE_ZERO ==> quotient_bits(a, b) == a,
        0 < a < INFINITY ==> quotient_bits(a, b) == ratio_bits(
            number_of(a).m as nat,
            number_of(b).m as nat,
            number_of(a).e - number_of(b).e,
        ) as u64,
{
    lemma_number(b);
    if a < INFINITY {
        lemma_number(a);
    }
}

proof fn lemma_quotient_falls_with(a: u64, b: Number, c: Number)
    requires
        a <= INFINITY || a == NEGATIVE_ZERO,
        is_number(53, b),
        is_number(53, c),
        b.m > 0,
        c.m > 0,
        -1074 <= b.e <= 971,
        -1074 <= c.e <= 971,
        no_greater(b, c),
    ensures
        double_key(quotient_bits(a, bits_for(c))) <= double_key(quotient_bits(a, bits_for(b))),
        quotient_bits(a, bits_for(b)) <= NEGATIVE_ZERO,
{
    lemma_number_is_kept(b);
    lemma_number_is_kept(c);
    lemma_divided(a, bits_for(b));
    lemma_divided(a, bits_for(c));
    let x = quotient_bits(a, bits_for(b));
    let y = quotient_bits(a, bits_for(c));
    if 0 < a < INFINITY {
        lemma_number(a);
        lemma_ratio_falls(number_of(a), b, c);
        assert(y <= x <= INFINITY);
    } else {
        assert(x == y);
    }
}

proof fn lemma_infinite_divisor(a: u64, n: u64)
    requires
        a <= INFINITY || a == NEGATIVE_ZERO,
        n > 0,
    ensures
        sum_bits(INFINITY, integer_bits(n as nat)) == INFINITY,
        quotient_bits(a, INFINITY) <= NEGATIVE_ZERO,
{
    lemma_integer_range(53, n as nat);
    lemma_number_is_kept(rounded(53, n as int, 1));
}

/// A number divided by another and an integer is no greater where the integer
/// is no less, as long as neither number is less than zero.
pub proof fn law_greater_divisor_gives_no_more(a: u64, b: u64, less: u64, more: u64)
    requires
        a <= INFINITY || a == NEGATIVE_ZERO,
        b <= INFINITY || b == NEGATIVE_ZERO,
        0 < less <= more,
    ensures
        double_key(quotient_bits(a, sum_bits(b, integer_bits(more as nat)))) <= double_key(
            quotient_bits(a, sum_bits(b, integer_bits(less as nat))),
        ),
        quotient_bits(a, sum_bits(b, integer_bits(less as nat))) <= NEGATIVE_ZERO,
{
    if b == INFINITY {
        lemma_infinite_divisor(a, less);
        lemma_infinite_divisor(a, more);
    } else {
        let k = number_of(b);
        lemma_number(b);
        lemma_divisor_bits(b, less);
        lemma_divisor_bits(b, more);
        lemma_divisor(k, less);
        lemma_divisor(k, more);
        lemma_adding_more(53, k, less as nat, more as nat);
        lemma_quotient_falls_with(
            a,
            sum(53, k, rounded(53, less as int, 1)),
            sum(53, k, rounded(53, more as int, 1)),
        );
    }
}

/// A product with what is at most one, rounded to 53 bits.
proof fn lemma_shrunk(x: Number, y: Number)
    requires
        is_number(53, x),
        is_number(53, y),
        x.m > 0,
        y.m > 0,
        no_greater(y, two_to(53, 0)),
    ensures
        y.e <= -52,
        0 < x.m * y.m <= x.m * pow2((-y.e) as nat),
        ({
            let r = scaled(rounded_size(53, (x.m * y.m) as nat, 1), x.e + y.e);
            is_number(53, r) && r.m > 0 && no_greater(r, x)
        }),
{
    lemma_pow2_values();
    let k = (-y.e) as nat;
    let w = pow2(k);
    lemma_pow2_mono(52, k);
    if y.e < -52 {
        lemma_pow2_mono(53, k);
    }
    assert(y.m <= w);
    let num = (x.m * y.m) as nat;
    let all = (x.m * w) as nat;
    assert(0 < x.m * y.m <= x.m * w) by (nonlinear_arith)
        requires
            x.m > 0,
            0 < y.m <= w,
    ;
    let (f, _) = lemma_fits_integer(53, num);
    lemma_rounded(53, num, 1, f);
    lemma_rounding_is_monotone(53, num, all);
    lemma_rounding_scales(53, x.m as nat, k);
    let _ = lemma_kept_integer(53, x.m as nat);
    assert(x.m * 1 == x.m);
}

/// An integer that rounds to less than the normal range has few units.
proof fn lemma_few_units(n: nat, e: int)
    requires
        n > 0,
        scaled(rounded_size(53, n, 1), e).e < -1074,
    ensures
        counted(n, 1, e) <= 0x10_0000_0000_0000,
{
    lemma_pow2_values();
    let top: nat = 0x10_0000_0000_0000;
    let (f, l) = lemma_fits_integer(53, n);
    lemma_rounded(53, n, 1, f);
    assert(top * 1 == top);
    if e >= -1074 {
        let i = (e + 1074) as nat;
        let w = pow2(i);
        vstd::arithmetic::power2::lemma_pow2_adds(l + 1, i);
        lemma_pow2_mono(l + 1 + i, 52);
        lemma_pow2_step(i);
        assert(n * w <= pow2(l + 1) * w) by (nonlinear_arith)
            requires
                n < pow2(l + 1),
        ;
        lemma_nearest_even_between(n * w, 1, 0, top);
    } else {
        let i = (-1074 - e) as nat;
        let w = pow2(i);
        vstd::arithmetic::power2::lemma_pow2_adds(52, i);
        lemma_pow2_mono(l + 1, 52 + i);
        lemma_pow2_step(i);
        assert(1 * w == w);
        lemma_nearest_even_between(n, w, 0, top);
    }
}

proof fn lemma_part(a: u64, part: u64)
    requires
        0 < a < INFINITY,
        0 < part <= ONE,
    ensures
        product_bits(a, part) <= a,
{
    lemma_pow2_values();
    let x = number_of(a);
    let y = number_of(part);
    lemma_number(a);
    lemma_number(part);
    law_bits_are_kept(a);
    lemma_at_most_one(part);
    lemma_shrunk(x, y);
    let num = (x.m * y.m) as nat;
    let e = x.e + y.e;
    let r = scaled(rounded_size(53, num, 1), e);
    if r.e >= -1074 {
        lemma_sizes_in_order(r, x);
    } else {
        lemma_few_units(num, e);
        if x.e < -1074 {
            let n = a as nat;
            let k = lemma_kept_integer(53, n);
            let l = (-y.e) as nat;
            let d = pow2(k);
            let w = pow2(l);
            assert(a < 0x10_0000_0000_0000);
            assert(n * 1 == n);
            assert(x.m == n * d && x.e == -1074 - k);
            vstd::arithmetic::power2::lemma_pow2_adds(k, l);
            lemma_pow2_step(k + l);
            assert(1 * pow2(k + l) == pow2(k + l));
            assert(num <= n * (d * w)) by (nonlinear_arith)
                requires
                    num <= x.m * w,
                    x.m == n * d,
            ;
            lemma_nearest_even_between(num, d * w, 0, n);
        }
    }
}

proof fn lemma_at_most_one(part: u64)
    requires
        0 < part <= ONE,
    ensures
        no_greater(number_of(part), two_to(53, 0)),
{
    lemma_pow2_values();
    let field = part / 0x10_0000_0000_0000;
    let n: nat = if field == 0 {
        part as nat
    } else {
        (part % 0x10_0000_0000_0000 + 0x10_0000_0000_0000) as nat
    };
    let k = lemma_kept_integer(53, n);
    assert(n * 1 == n);
}

/// A product of a number that is not negative with a number from zero to one
/// is no greater than the number.
pub proof fn law_part_is_no_more(a: u64, part: u64)
    requires
        a < INFINITY,
        part <= ONE,
    ensures
        product_bits(a, part) <= a,
{
    if a > 0 && part > 0 {
        lemma_part(a, part);
    }
}

} // verus!
