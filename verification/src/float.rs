//! Correctly rounded arithmetic on binary floating-point numbers, in integers.
//!
//! A number is `m * 2^e`. Rounding to a precision of `p` bits is to the nearest
//! number with a `p`-bit significand, the even one of two that are as near.
//! Precision 24 is IEEE single and precision 53 IEEE double; all numbers here
//! stay in the normal range, where the two agree with IEEE arithmetic.

use vstd::arithmetic::power2::pow2;
use vstd::prelude::*;

verus! {

/// The number `m * 2^e`.
pub struct Number {
    pub m: int,
    pub e: int,
}

/// The integer nearest to `num / den`, the even one of two that are as near.
pub open spec fn nearest_even(num: nat, den: nat) -> nat {
    let q = num / den;
    let r = num % den;
    if 2 * r < den {
        q
    } else if 2 * r > den {
        q + 1
    } else if q % 2 == 0 {
        q
    } else {
        q + 1
    }
}

/// Whether `num / den` has `p` bits before the point once divided by `2^e`.
pub open spec fn fits(p: nat, num: nat, den: nat, e: int) -> bool {
    if e >= 0 {
        pow2((p - 1) as nat) * (den * pow2(e as nat)) <= num < pow2(p) * (den * pow2(e as nat))
    } else {
        pow2((p - 1) as nat) * den <= num * pow2((-e) as nat) < pow2(p) * den
    }
}

/// The exponent that leaves `p` bits of `num / den`.
pub open spec fn exponent(p: nat, num: nat, den: nat) -> int {
    choose|e: int| fits(p, num, den, e)
}

/// `num / den` divided by `2^e`, as the nearest integer.
pub open spec fn significand(num: nat, den: nat, e: int) -> nat {
    if e >= 0 {
        nearest_even(num, den * pow2(e as nat))
    } else {
        nearest_even(num * pow2((-e) as nat), den)
    }
}

/// A positive `num / den` rounded to `p` bits. A significand that rounds up to
/// the next power of two is halved.
pub open spec fn rounded_size(p: nat, num: nat, den: nat) -> Number {
    let e = exponent(p, num, den);
    let m = significand(num, den, e);
    if m == pow2(p) {
        Number { m: pow2((p - 1) as nat) as int, e: e + 1 }
    } else {
        Number { m: m as int, e }
    }
}

/// `num / den` rounded to `p` bits.
pub open spec fn rounded(p: nat, num: int, den: nat) -> Number {
    if num == 0 {
        Number { m: 0, e: 0 }
    } else if num > 0 {
        rounded_size(p, num as nat, den)
    } else {
        negated(rounded_size(p, (-num) as nat, den))
    }
}

pub open spec fn negated(a: Number) -> Number {
    Number { m: -a.m, e: a.e }
}

/// A number times `2^k`.
pub open spec fn scaled(a: Number, k: int) -> Number {
    if a.m == 0 {
        a
    } else {
        Number { m: a.m, e: a.e + k }
    }
}

/// The number `2^k` with a significand of `p` bits.
pub open spec fn two_to(p: nat, k: int) -> Number {
    Number { m: pow2((p - 1) as nat) as int, e: k + 1 - p }
}

/// The significand of a number written with a lower exponent.
pub open spec fn aligned(a: Number, e: int) -> int {
    a.m * pow2((a.e - e) as nat)
}

/// The rounded sum.
pub open spec fn sum(p: nat, a: Number, b: Number) -> Number {
    if a.m == 0 {
        b
    } else if b.m == 0 {
        a
    } else {
        let e = if a.e <= b.e {
            a.e
        } else {
            b.e
        };
        scaled(rounded(p, aligned(a, e) + aligned(b, e), 1), e)
    }
}

/// The rounded quotient by a positive number.
pub open spec fn quotient(p: nat, a: Number, b: Number) -> Number {
    scaled(rounded(p, a.m, b.m as nat), a.e - b.e)
}

/// The rounded product.
pub open spec fn product(p: nat, a: Number, b: Number) -> Number {
    scaled(rounded(p, a.m * b.m, 1), a.e + b.e)
}

/// The bits of a positive single: the biased exponent and the significand
/// without its leading bit.
pub open spec fn single_size_bits(m: int, e: int) -> int {
    (e + 150) * pow2(23) + (m - pow2(23))
}

/// The bits of a single.
pub open spec fn single_bits(a: Number) -> int {
    if a.m == 0 {
        0
    } else if a.m > 0 {
        single_size_bits(a.m, a.e)
    } else {
        0x8000_0000 + single_size_bits(-a.m, a.e)
    }
}

/// The bits of a positive double.
pub open spec fn double_bits(a: Number) -> int {
    (a.e + 1075) * pow2(52) + (a.m - pow2(52))
}

/// A number that executable code computes with.
#[derive(Clone, Copy, Debug, PartialEq, Eq, Structural)]
pub struct Rounded {
    pub m: i64,
    pub e: i32,
}

impl View for Rounded {
    type V = Number;

    open spec fn view(&self) -> Number {
        Number { m: self.m as int, e: self.e as int }
    }
}

/// Whether the significand is zero or has exactly `p` bits.
pub open spec fn is_number(p: nat, a: Number) -> bool {
    ||| a.m == 0 && a.e == 0
    ||| pow2((p - 1) as nat) <= a.m < pow2(p)
    ||| pow2((p - 1) as nat) <= -a.m < pow2(p)
}

/// Whether nothing of an integer is lost where its bits fit.
pub open spec fn keeps(n: nat, a: Number) -> bool {
    if a.e <= 0 {
        a.m == n * pow2((-a.e) as nat)
    } else {
        n % pow2(a.e as nat) == 0 ==> a.m * pow2(a.e as nat) == n
    }
}

/// Whether a number is a multiple of `2^l`.
pub open spec fn is_multiple(a: Number, l: int) -> bool {
    a.e >= l || exists|q: int| a.m == #[trigger] (q * pow2((l - a.e) as nat))
}

pub proof fn lemma_pow2_step(s: nat)
    ensures
        pow2(s + 1) == 2 * pow2(s),
        pow2(s) >= 1,
{
    vstd::arithmetic::power2::lemma_pow2_unfold(s + 1);
    vstd::arithmetic::power2::lemma_pow2_pos(s);
}

pub proof fn lemma_pow2_mono(a: nat, b: nat)
    requires
        a <= b,
    ensures
        pow2(a) <= pow2(b),
        a < b ==> 2 * pow2(a) <= pow2(b),
    decreases b - a,
{
    if a < b {
        lemma_pow2_mono(a, (b - 1) as nat);
        lemma_pow2_step((b - 1) as nat);
    }
}

pub proof fn lemma_pow2_values()
    ensures
        pow2(0) == 1,
        pow2(1) == 2,
        pow2(22) == 0x40_0000,
        pow2(23) == 0x80_0000,
        pow2(24) == 0x100_0000,
        pow2(52) == 0x10_0000_0000_0000,
        pow2(53) == 0x20_0000_0000_0000,
        pow2(64) == 0x1_0000_0000_0000_0000,
{
    vstd::arithmetic::power2::lemma2_to64();
    vstd::arithmetic::power2::lemma2_to64_rest();
}

/// There is at most one exponent: a greater one leaves fewer bits.
proof fn lemma_fits_order(p: nat, num: nat, den: nat, d: int, e: int)
    requires
        p > 0,
        fits(p, num, den, d),
        fits(p, num, den, e),
    ensures
        d >= e,
{
    let low = pow2((p - 1) as nat);
    lemma_pow2_step((p - 1) as nat);
    assert(pow2(p) == 2 * low);
    if d >= e {
    } else if d >= 0 {
        lemma_pow2_mono(d as nat, e as nat);
        assert(2 * low * (den * pow2(d as nat)) <= low * (den * pow2(e as nat)))
            by (nonlinear_arith)
            requires
                2 * pow2(d as nat) <= pow2(e as nat),
                low >= 0,
                den >= 0,
        ;
    } else if e >= 0 {
        lemma_pow2_step(0);
        lemma_pow2_mono(0, (-d) as nat);
        lemma_pow2_mono(0, e as nat);
        lemma_pow2_values();
        assert(2 * num <= num * pow2((-d) as nat)) by (nonlinear_arith)
            requires
                2 <= pow2((-d) as nat),
                num >= 0,
        ;
        assert(low * den <= low * (den * pow2(e as nat))) by (nonlinear_arith)
            requires
                1 <= pow2(e as nat),
                low >= 0,
                den >= 0,
        ;
        assert(2 * low * den == 2 * (low * den)) by (nonlinear_arith);
    } else {
        lemma_pow2_mono((-e) as nat, (-d) as nat);
        assert(2 * (num * pow2((-e) as nat)) <= num * pow2((-d) as nat)) by (nonlinear_arith)
            requires
                2 * pow2((-e) as nat) <= pow2((-d) as nat),
                num >= 0,
        ;
        assert(2 * low * den == 2 * (low * den)) by (nonlinear_arith);
    }
}

pub proof fn lemma_exponent_is(p: nat, num: nat, den: nat, e: int)
    requires
        p > 0,
        fits(p, num, den, e),
    ensures
        exponent(p, num, den) == e,
{
    let d = exponent(p, num, den);
    assert(fits(p, num, den, d));
    lemma_fits_order(p, num, den, d, e);
    lemma_fits_order(p, num, den, e, d);
}

/// Rounding stays between two integers that a number is between.
pub proof fn lemma_nearest_even_between(x: nat, d: nat, low: nat, high: nat)
    requires
        d > 0,
        low * d <= x <= high * d,
    ensures
        low <= nearest_even(x, d) <= high,
{
    let q = x / d;
    let r = x % d;
    vstd::arithmetic::div_mod::lemma_fundamental_div_mod(x as int, d as int);
    assert(low <= q && q <= high && (q == high ==> r == 0)) by (nonlinear_arith)
        requires
            x == d * q + r,
            0 <= r < d,
            low * d <= x <= high * d,
            d > 0,
    ;
}

/// What rounding gives, once the exponent is known.
pub proof fn lemma_rounded(p: nat, num: nat, den: nat, e: int)
    requires
        p > 0,
        num > 0,
        den > 0,
        fits(p, num, den, e),
    ensures
        exponent(p, num, den) == e,
        pow2((p - 1) as nat) <= significand(num, den, e) <= pow2(p),
        is_number(p, rounded_size(p, num, den)),
        rounded_size(p, num, den).m > 0,
        e <= rounded_size(p, num, den).e <= e + 1,
{
    lemma_exponent_is(p, num, den, e);
    lemma_pow2_step((p - 1) as nat);
    if e >= 0 {
        lemma_pow2_mono(0, e as nat);
        lemma_pow2_values();
        let d = den * pow2(e as nat);
        assert(d > 0) by (nonlinear_arith)
            requires
                d == den * pow2(e as nat),
                den > 0,
                pow2(e as nat) >= 1,
        ;
        lemma_nearest_even_between(num, d, pow2((p - 1) as nat), pow2(p));
    } else {
        lemma_nearest_even_between(
            num * pow2((-e) as nat),
            den,
            pow2((p - 1) as nat),
            pow2(p),
        );
    }
}

/// `2^k`.
pub fn power_of_two(k: u32) -> (r: u128)
    requires
        k <= 127,
    ensures
        r == pow2(k as nat),
{
    let mut r: u128 = 1;
    let mut i: u32 = 0;
    proof {
        lemma_pow2_values();
        lemma_pow2_127();
    }
    while i < k
        invariant
            i <= k <= 127,
            r == pow2(i as nat),
            pow2(127) == 0x8000_0000_0000_0000_0000_0000_0000_0000,
        decreases k - i,
    {
        proof {
            lemma_pow2_step(i as nat);
            lemma_pow2_mono((i + 1) as nat, 127);
        }
        r = r * 2;
        i = i + 1;
    }
    r
}

proof fn lemma_pow2_127()
    ensures
        pow2(127) == 0x8000_0000_0000_0000_0000_0000_0000_0000,
        pow2(126) == 0x4000_0000_0000_0000_0000_0000_0000_0000,
{
    vstd::arithmetic::power2::lemma2_to64();
    vstd::arithmetic::power2::lemma2_to64_rest();
    vstd::arithmetic::power2::lemma_pow2_adds(63, 64);
    vstd::arithmetic::power2::lemma_pow2_adds(63, 63);
}

pub fn nearest(num: u128, den: u128) -> (r: u128)
    requires
        den > 0,
        num < 0x8000_0000_0000_0000_0000_0000_0000_0000,
        den < 0x8000_0000_0000_0000_0000_0000_0000_0000,
    ensures
        r == nearest_even(num as nat, den as nat),
{
    let q: u128 = num / den;
    let rest: u128 = num % den;
    proof {
        assert(q <= num) by (nonlinear_arith)
            requires
                q == num / den,
                den > 0,
        ;
    }
    if 2 * rest < den {
        q
    } else if 2 * rest > den {
        q + 1
    } else if q % 2 == 0 {
        q
    } else {
        q + 1
    }
}

/// The two precisions.
pub open spec fn is_precision(p: nat) -> bool {
    p == 24 || p == 53
}

proof fn lemma_precision(p: nat)
    requires
        is_precision(p),
    ensures
        pow2((p - 1) as nat) == if p == 24 {
            0x80_0000
        } else {
            0x10_0000_0000_0000nat
        },
        pow2(p) == 2 * pow2((p - 1) as nat),
{
    lemma_pow2_values();
}

/// Doubles the numerator until `p` bits are before the point.
fn scale_up(p: u32, num: u128, den: u128, low: u128) -> (r: (u128, u32))
    requires
        is_precision(p as nat),
        low == pow2((p - 1) as nat),
        0 < num < low * den,
        den <= 0x200_0000_0000_0000_0000,
    ensures
        1 <= r.1 <= 125,
        r.0 == num * pow2(r.1 as nat),
        low * den <= r.0 < 2 * (low * den),
{
    proof {
        lemma_precision(p as nat);
        lemma_pow2_values();
        assert(low * den <= 0x10_0000_0000_0000 * 0x200_0000_0000_0000_0000) by (nonlinear_arith)
            requires
                0 <= low <= 0x10_0000_0000_0000,
                0 <= den <= 0x200_0000_0000_0000_0000,
        ;
    }
    let goal: u128 = low * den;
    let mut x: u128 = num;
    let mut s: u32 = 0;
    proof {
        assert(num * 1 == num);
    }
    while x < goal
        invariant
            0 < num < goal,
            goal == low * den,
            goal <= 0x10_0000_0000_0000 * 0x200_0000_0000_0000_0000,
            x == num * pow2(s as nat),
            x < 2 * goal,
            x >= pow2(s as nat),
            s <= 125,
            s == 0 ==> x == num,
        decreases 125 - s,
    {
        proof {
            lemma_pow2_step(s as nat);
            assert(num * pow2((s + 1) as nat) == 2 * (num * pow2(s as nat))) by (nonlinear_arith)
                requires
                    pow2((s + 1) as nat) == 2 * pow2(s as nat),
            ;
            if s >= 125 {
                lemma_pow2_127();
                lemma_pow2_step(125);
                assert(false);
            }
        }
        x = x * 2;
        s = s + 1;
    }
    (x, s)
}

/// Doubles the denominator until no more than `p` bits are before the point.
fn scale_down(p: u32, num: u128, den: u128, low: u128) -> (r: (u128, u32))
    requires
        is_precision(p as nat),
        low == pow2((p - 1) as nat),
        low * den <= num < 0x4000_0000_0000_0000_0000_0000_0000_0000,
        den > 0,
    ensures
        r.1 <= 126,
        r.0 == den * pow2(r.1 as nat),
        low * r.0 <= num < 2 * (low * r.0),
        0 < r.0 <= num,
{
    let mut d: u128 = den;
    let mut s: u32 = 0;
    proof {
        lemma_precision(p as nat);
        lemma_pow2_values();
        lemma_pow2_127();
        assert(den * 1 == den);
        assert(den <= low * den) by (nonlinear_arith)
            requires
                low >= 1,
                den >= 0,
        ;
    }
    while low * d <= num / 2
        invariant
            low >= 1,
            den > 0,
            d == den * pow2(s as nat),
            0 < d <= num,
            low * d <= num < 0x4000_0000_0000_0000_0000_0000_0000_0000,
            d >= pow2(s as nat),
            s <= 126,
            pow2(126) == 0x4000_0000_0000_0000_0000_0000_0000_0000,
        decreases num - d,
    {
        proof {
            lemma_pow2_step(s as nat);
            assert(den * pow2((s + 1) as nat) == 2 * (den * pow2(s as nat))) by (nonlinear_arith)
                requires
                    pow2((s + 1) as nat) == 2 * pow2(s as nat),
            ;
            assert(low * (2 * d) == 2 * (low * d)) by (nonlinear_arith);
            assert(2 * d <= low * (2 * d)) by (nonlinear_arith)
                requires
                    low >= 1,
                    d >= 0,
            ;
            if s >= 126 {
                assert(false);
            }
        }
        d = d * 2;
        s = s + 1;
    }
    proof {
        assert(num < 2 * (low * d)) by (nonlinear_arith)
            requires
                low * d > (num as int) / 2,
        ;
    }
    (d, s)
}

/// A number of a bit length between two has an exponent between two.
proof fn lemma_exponent_range(p: nat, n: nat, a: nat, b: nat, e: int)
    requires
        p > 0,
        pow2(a) <= n < pow2(b),
        fits(p, n, 1, e),
    ensures
        a - p + 1 <= e <= b - p,
{
    if e >= 0 {
        vstd::arithmetic::power2::lemma_pow2_adds(p, e as nat);
        vstd::arithmetic::power2::lemma_pow2_adds((p - 1) as nat, e as nat);
        assert(1 * pow2(e as nat) == pow2(e as nat));
        if a >= p + e {
            lemma_pow2_mono((p + e) as nat, a);
        }
        if p - 1 + e >= b {
            lemma_pow2_mono(b, (p - 1 + e) as nat);
        }
    } else {
        let s = (-e) as nat;
        assert(pow2(p) * 1 == pow2(p));
        assert(pow2((p - 1) as nat) * 1 == pow2((p - 1) as nat));
        vstd::arithmetic::power2::lemma_pow2_adds(a, s);
        vstd::arithmetic::power2::lemma_pow2_adds(b, s);
        assert(pow2(a) * pow2(s) <= n * pow2(s) && n * pow2(s) <= pow2(b) * pow2(s))
            by (nonlinear_arith)
            requires
                pow2(a) <= n <= pow2(b),
        ;
        if a + s >= p {
            lemma_pow2_mono(p, a + s);
        }
        if n * pow2(s) == pow2(b) * pow2(s) {
            lemma_pow2_step(s);
            assert(n * pow2(s) < pow2(b) * pow2(s)) by (nonlinear_arith)
                requires
                    n < pow2(b),
                    pow2(s) >= 1,
            ;
        }
        if p - 1 >= b + s {
            lemma_pow2_mono(b + s, (p - 1) as nat);
        }
    }
}

/// A ratio between a half and two has one of two exponents.
proof fn lemma_ratio_range(p: nat, num: nat, den: nat, e: int)
    requires
        p > 1,
        0 < num < 2 * den,
        den < 2 * num,
        fits(p, num, den, e),
    ensures
        -p <= e <= 1 - p,
{
    let low = pow2((p - 1) as nat);
    lemma_pow2_step((p - 1) as nat);
    lemma_pow2_step((p - 2) as nat);
    if e >= 0 {
        lemma_pow2_mono(0, e as nat);
        lemma_pow2_values();
        assert(low * (den * pow2(e as nat)) >= 2 * den) by (nonlinear_arith)
            requires
                low >= 2,
                pow2(e as nat) >= 1,
                den >= 0,
        ;
    } else {
        let s = (-e) as nat;
        if s < p - 1 {
            lemma_pow2_mono(s, (p - 1) as nat);
            lemma_pow2_step(s);
            assert(num * pow2(s) < low * den) by (nonlinear_arith)
                requires
                    num < 2 * den,
                    2 * pow2(s) <= low,
                    pow2(s) >= 1,
            ;
        }
        if s > p {
            lemma_pow2_mono(p, s);
            assert(num * pow2(s) >= pow2(p) * den) by (nonlinear_arith)
                requires
                    den < 2 * num,
                    2 * pow2(p) <= pow2(s),
                    pow2(p) >= 0,
            ;
        }
    }
}

proof fn lemma_bounds(p: nat, num: nat, den: nat, e: int)
    requires
        p > 1,
        0 < num,
        fits(p, num, den, e),
    ensures
        num < 2 * den && den < 2 * num ==> -p <= e <= 1 - p,
        forall|a: nat, b: nat|
            den == 1 && #[trigger] pow2(a) <= num < #[trigger] pow2(b) ==> a - p + 1 <= e <= b - p,
{
    if num < 2 * den && den < 2 * num {
        lemma_ratio_range(p, num, den, e);
    }
    assert forall|a: nat, b: nat| den == 1 && #[trigger] pow2(a) <= num < #[trigger] pow2(b) implies a
        - p + 1 <= e <= b - p by {
        lemma_exponent_range(p, num, a, b, e);
    }
}

/// A multiple of a power of two, or of the next, is not changed by rounding.
proof fn lemma_whole(n: nat, s: nat)
    ensures
        n % pow2(s) == 0 ==> nearest_even(n, pow2(s)) * pow2(s) == n,
        n % pow2(s + 1) == 0 ==> n % pow2(s) == 0,
        s == 0 ==> nearest_even(n, pow2(s)) == n,
{
    lemma_pow2_step(s);
    let d = pow2(s);
    vstd::arithmetic::div_mod::lemma_fundamental_div_mod(n as int, d as int);
    assert(d * (n / d) == (n / d) * d) by (nonlinear_arith);
    if n % pow2(s + 1) == 0 {
        let c = pow2(s + 1);
        vstd::arithmetic::div_mod::lemma_fundamental_div_mod(n as int, c as int);
        assert(n == (2 * (n / c)) * d) by (nonlinear_arith)
            requires
                n == c * (n / c),
                c == 2 * d,
        ;
        vstd::arithmetic::div_mod::lemma_fundamental_div_mod_converse(
            n as int,
            d as int,
            2 * (n as int / c as int),
            0,
        );
    }
    if s == 0 {
        lemma_pow2_values();
    }
}

/// `num / den` rounded to `p` bits.
pub fn round_ratio(p: u32, num: u128, den: u128) -> (r: Rounded)
    requires
        is_precision(p as nat),
        0 < num < 0x4000_0000_0000_0000_0000_0000_0000_0000,
        0 < den <= 0x200_0000_0000_0000_0000,
    ensures
        r@ == rounded(p as nat, num as int, den as nat),
        is_number(p as nat, r@),
        r.m > 0,
        -125 <= r.e <= 127,
        num < 2 * den && den < 2 * num ==> -p <= r.e <= 2 - p,
        forall|a: nat, b: nat|
            den == 1 && #[trigger] pow2(a) <= num < #[trigger] pow2(b) ==> a - p + 1 <= r.e <= b
                - p + 1,
        den == 1 ==> keeps(num as nat, r@),
{
    let low: u128 = power_of_two(p - 1);
    proof {
        lemma_precision(p as nat);
        lemma_pow2_values();
        assert(low * den <= 0x10_0000_0000_0000 * 0x200_0000_0000_0000_0000) by (nonlinear_arith)
            requires
                0 <= low <= 0x10_0000_0000_0000,
                0 <= den <= 0x200_0000_0000_0000_0000,
        ;
    }
    let ghost half = pow2((p - 1) as nat);
    let (m, e): (u128, i32) = if num < low * den {
        let (x, s) = scale_up(p, num, den, low);
        proof {
            assert(2 * half * den == 2 * (half * den)) by (nonlinear_arith);
            assert(fits(p as nat, num as nat, den as nat, -(s as int)));
            lemma_rounded(p as nat, num as nat, den as nat, -(s as int));
            lemma_bounds(p as nat, num as nat, den as nat, -(s as int));
            if den == 1 {
                lemma_whole(x as nat, 0);
                assert(low * 1 == low);
            }
        }
        (nearest(x, den), -(s as i32))
    } else {
        let (d, s) = scale_down(p, num, den, low);
        proof {
            let dd = den * pow2(s as nat);
            assert(2 * half * dd == 2 * (half * dd)) by (nonlinear_arith);
            assert(fits(p as nat, num as nat, den as nat, s as int));
            lemma_rounded(p as nat, num as nat, den as nat, s as int);
            lemma_bounds(p as nat, num as nat, den as nat, s as int);
            if den == 1 {
                assert(1 * pow2(s as nat) == pow2(s as nat));
                lemma_whole(num as nat, s as nat);
                lemma_pow2_step(s as nat);
                assert(num * 1 == num);
                assert(half * (2 * pow2(s as nat)) == (2 * half) * pow2(s as nat))
                    by (nonlinear_arith);
            }
        }
        (nearest(num, d), s as i32)
    };
    if m == low * 2 {
        Rounded { m: low as i64, e: e + 1 }
    } else {
        Rounded { m: m as i64, e }
    }
}

/// An integer rounded to `p` bits.
pub fn round_integer(p: u32, n: u64) -> (r: Rounded)
    requires
        is_precision(p as nat),
    ensures
        r@ == rounded(p as nat, n as int, 1),
        is_number(p as nat, r@),
        r.m >= 0,
        n > 0 ==> r.m > 0,
        1 - p <= r.e <= 65 - p,
        forall|b: nat| 0 < n < #[trigger] pow2(b) ==> r.e <= b - p + 1,
        n == 0 ==> r.e == 0,
{
    if n == 0 {
        Rounded { m: 0, e: 0 }
    } else {
        proof {
            lemma_pow2_values();
        }
        round_ratio(p, n as u128, 1)
    }
}

/// The number `2^k`.
pub fn number_two_to(p: u32, k: i32) -> (r: Rounded)
    requires
        is_precision(p as nat),
        -100 <= k <= 100,
    ensures
        r@ == two_to(p as nat, k as int),
        is_number(p as nat, r@),
        r.m > 0,
        r.e == k + 1 - p,
{
    proof {
        lemma_precision(p as nat);
        lemma_pow2_mono((p - 1) as nat, 62);
        vstd::arithmetic::power2::lemma2_to64_rest();
    }
    Rounded { m: power_of_two(p - 1) as i64, e: k + 1 - p as i32 }
}

/// The rounded quotient of a non-negative number by a positive one.
pub fn divide(p: u32, a: Rounded, b: Rounded) -> (r: Rounded)
    requires
        is_precision(p as nat),
        is_number(p as nat, a@),
        is_number(p as nat, b@),
        a.m >= 0,
        b.m > 0,
        -1000 <= a.e <= 1000,
        -1000 <= b.e <= 1000,
    ensures
        r@ == quotient(p as nat, a@, b@),
        is_number(p as nat, r@),
        r.m >= 0,
        a.m > 0 ==> r.m > 0 && a.e - b.e - p <= r.e <= a.e - b.e + 2 - p,
        a.m == 0 ==> r == (Rounded { m: 0, e: 0 }),
{
    if a.m == 0 {
        return Rounded { m: 0, e: 0 };
    }
    proof {
        lemma_precision(p as nat);
    }
    let q: Rounded = round_ratio(p, a.m as u128, b.m as u128);
    Rounded { m: q.m, e: q.e + (a.e - b.e) }
}

/// The rounded product of two positive numbers.
pub fn times(p: u32, a: Rounded, b: Rounded) -> (r: Rounded)
    requires
        is_precision(p as nat),
        is_number(p as nat, a@),
        is_number(p as nat, b@),
        a.m > 0,
        b.m > 0,
        -500 <= a.e <= 500,
        -500 <= b.e <= 500,
    ensures
        r@ == product(p as nat, a@, b@),
        is_number(p as nat, r@),
        r.m > 0,
        a.e + b.e + p - 1 <= r.e <= a.e + b.e + p + 1,
{
    proof {
        lemma_precision(p as nat);
        let low = pow2((p - 1) as nat);
        vstd::arithmetic::power2::lemma_pow2_adds((p - 1) as nat, (p - 1) as nat);
        vstd::arithmetic::power2::lemma_pow2_adds(p as nat, p as nat);
        assert(low * low <= a.m * b.m && a.m * b.m < (2 * low) * (2 * low)) by (nonlinear_arith)
            requires
                low <= a.m < 2 * low,
                low <= b.m < 2 * low,
        ;
        assert(pow2((2 * p - 2) as nat) <= a.m * b.m < pow2((2 * p) as nat));
        assert(0 < a.m * b.m <= 0x20_0000_0000_0000 * 0x20_0000_0000_0000) by (nonlinear_arith)
            requires
                0 < a.m <= 0x20_0000_0000_0000,
                0 < b.m <= 0x20_0000_0000_0000,
        ;
    }
    let q: Rounded = round_ratio(p, (a.m as u128) * (b.m as u128), 1);
    Rounded { m: q.m, e: q.e + (a.e + b.e) }
}

/// The bits of the exponent of a rounded sum: no more than one above the
/// greater number, no more than `p` below it.
proof fn lemma_sum_range(p: nat, x: int, y: int, k: nat)
    requires
        is_precision(p),
        pow2((p - 1) as nat) <= x < pow2(p) || pow2((p - 1) as nat) <= -x < pow2(p),
        pow2((p - 1) as nat) <= y < pow2(p) || pow2((p - 1) as nat) <= -y < pow2(p),
        x * pow2(k) + y != 0,
    ensures
        ({
            let t = x * pow2(k) + y;
            let n = if t < 0 {
                -t
            } else {
                t
            };
            &&& n < pow2(p + k + 1)
            &&& k >= 2 ==> n >= pow2((p + k - 2) as nat)
            &&& x > 0 && y > 0 ==> n >= pow2((p + k - 1) as nat)
            &&& n >= pow2(0)
        }),
{
    lemma_precision(p);
    lemma_pow2_values();
    let h = pow2(k);
    lemma_pow2_mono(0, k);
    lemma_pow2_step(p);
    vstd::arithmetic::power2::lemma_pow2_adds(p + 1, k);
    let size = if x < 0 {
        -x
    } else {
        x
    };
    let big = size * h;
    assert(x * h == big || x * h == -big) by (nonlinear_arith)
        requires
            size == x || size == -x,
            big == size * h,
    ;
    vstd::arithmetic::power2::lemma_pow2_adds((p - 1) as nat, k);
    assert(big >= pow2((p - 1) as nat) * h) by (nonlinear_arith)
        requires
            size >= pow2((p - 1) as nat),
            h >= 1,
            big == size * h,
    ;
    assert(big + pow2(p) <= pow2(p + 1) * h) by (nonlinear_arith)
        requires
            size < pow2(p),
            pow2(p + 1) == 2 * pow2(p),
            h >= 1,
            big == size * h,
    ;
    if k >= 2 {
        lemma_pow2_mono(2, k);
        lemma_pow2_step(1);
        vstd::arithmetic::power2::lemma_pow2_adds((p - 1) as nat, (k - 1) as nat);
        lemma_pow2_step((k - 1) as nat);
        let half = pow2((p + k - 2) as nat);
        assert(big >= 2 * half) by (nonlinear_arith)
            requires
                big == size * h,
                size >= pow2((p - 1) as nat),
                h == 2 * pow2((k - 1) as nat),
                half == pow2((p - 1) as nat) * pow2((k - 1) as nat),
                h >= 1,
        ;
        lemma_pow2_mono(p, (p + k - 2) as nat);
    }
}

/// A number that is smaller by far does not change a sum.
pub proof fn lemma_sum_absorbs(p: nat, a: Number, b: Number)
    requires
        is_precision(p),
        is_number(p, a),
        is_number(p, b),
        a.m > 0,
        b.m != 0,
        a.e - b.e >= p + 2,
    ensures
        sum(p, a, b) == a,
{
    let k = (a.e - b.e) as nat;
    let h = pow2(k);
    let half = pow2((k - 1) as nat);
    let low = pow2((p - 1) as nat);
    lemma_precision(p);
    lemma_pow2_values();
    lemma_pow2_step((k - 1) as nat);
    lemma_pow2_step((k - 2) as nat);
    lemma_pow2_mono(p, (k - 2) as nat);
    assert(b.m * 1 == b.m);
    assert(aligned(b, b.e) == b.m);
    let t = a.m * h + b.m;
    assert(aligned(a, b.e) + aligned(b, b.e) == t);
    assert(a.m * h >= low * h && a.m * h <= (pow2(p) - 1) * h) by (nonlinear_arith)
        requires
            low <= a.m <= pow2(p) - 1,
            h >= 1,
    ;
    assert(low * h >= h) by (nonlinear_arith)
        requires
            low >= 1,
            h >= 1,
    ;
    assert((pow2(p) - 1) * h == pow2(p) * h - h) by (nonlinear_arith);
    let n = t as nat;
    assert(1 * h == h);
    assert(1 * half == half);
    if b.m > 0 || a.m > low {
        assert(a.m > low ==> a.m * h >= low * h + h) by (nonlinear_arith)
            requires
                h >= 1,
        ;
        assert(fits(p, n, 1, k as int));
        lemma_rounded(p, n, 1, k as int);
        assert(a.m * h == h * a.m) by (nonlinear_arith);
        assert((a.m - 1) * h == a.m * h - h) by (nonlinear_arith);
        if b.m > 0 {
            vstd::arithmetic::div_mod::lemma_fundamental_div_mod_converse(
                n as int,
                h as int,
                a.m,
                b.m,
            );
        } else {
            assert(n == h * (a.m - 1) + (h + b.m)) by (nonlinear_arith)
                requires
                    n == a.m * h + b.m,
            ;
            vstd::arithmetic::div_mod::lemma_fundamental_div_mod_converse(
                n as int,
                h as int,
                a.m - 1,
                h + b.m,
            );
        }
        assert(significand(n, 1, k as int) == a.m);
    } else {
        assert(n == pow2(p) * half + b.m) by (nonlinear_arith)
            requires
                n == a.m * h + b.m,
                a.m == low,
                h == 2 * half,
                pow2(p) == 2 * low,
        ;
        assert(low * half + half <= pow2(p) * half) by (nonlinear_arith)
            requires
                pow2(p) == 2 * low,
                low >= 1,
                half >= 0,
        ;
        assert(fits(p, n, 1, k - 1));
        lemma_rounded(p, n, 1, k - 1);
        assert(n == half * (pow2(p) - 1) + (half + b.m)) by (nonlinear_arith)
            requires
                n == pow2(p) * half + b.m,
        ;
        vstd::arithmetic::div_mod::lemma_fundamental_div_mod_converse(
            n as int,
            half as int,
            pow2(p) - 1,
            half + b.m,
        );
        assert(significand(n, 1, k - 1) == pow2(p));
    }
}

proof fn lemma_sum_negates(p: nat, a: Number, b: Number)
    ensures
        sum(p, negated(a), negated(b)) == negated(sum(p, a, b)),
        negated(negated(a)) == a,
{
    let e = if a.e <= b.e {
        a.e
    } else {
        b.e
    };
    assert(aligned(negated(a), e) == -aligned(a, e)) by (nonlinear_arith)
        requires
            aligned(a, e) == a.m * pow2((a.e - e) as nat),
            aligned(negated(a), e) == (-a.m) * pow2((a.e - e) as nat),
    ;
    assert(aligned(negated(b), e) == -aligned(b, e)) by (nonlinear_arith)
        requires
            aligned(b, e) == b.m * pow2((b.e - e) as nat),
            aligned(negated(b), e) == (-b.m) * pow2((b.e - e) as nat),
    ;
}

proof fn lemma_sum_commutes(p: nat, a: Number, b: Number)
    requires
        is_number(p, a),
        is_number(p, b),
    ensures
        sum(p, a, b) == sum(p, b, a),
{
    lemma_pow2_step((p - 1) as nat);
}

/// A multiple of `2^l`, written with an exponent below `l`.
proof fn lemma_aligned_multiple(a: Number, e: int, l: int) -> (q: int)
    requires
        is_multiple(a, l),
        e <= a.e,
        e < l,
    ensures
        aligned(a, e) == q * pow2((l - e) as nat),
{
    if a.e >= l {
        vstd::arithmetic::power2::lemma_pow2_adds((a.e - l) as nat, (l - e) as nat);
        let q = a.m * pow2((a.e - l) as nat);
        assert(a.m * (pow2((a.e - l) as nat) * pow2((l - e) as nat)) == q * pow2((l - e) as nat))
            by (nonlinear_arith)
            requires
                q == a.m * pow2((a.e - l) as nat),
        ;
        q
    } else {
        let q = choose|q: int| a.m == #[trigger] (q * pow2((l - a.e) as nat));
        vstd::arithmetic::power2::lemma_pow2_adds((l - a.e) as nat, (a.e - e) as nat);
        assert(q * pow2((l - a.e) as nat) * pow2((a.e - e) as nat) == q * (pow2((l - a.e) as nat)
            * pow2((a.e - e) as nat))) by (nonlinear_arith);
        q
    }
}

/// A rounded integer is a multiple of what the integer is a multiple of.
proof fn lemma_kept_multiple(n: nat, x: Number, e: int, l: int, q: int)
    requires
        keeps(n, x),
        e < l ==> n == q * pow2((l - e) as nat),
    ensures
        is_multiple(Number { m: x.m, e: x.e + e }, l),
{
    let r = Number { m: x.m, e: x.e + e };
    if r.e < l {
        let w = pow2((l - r.e) as nat);
        if e >= l {
            let d = (e - l) as nat;
            vstd::arithmetic::power2::lemma_pow2_adds((l - r.e) as nat, d);
            let k = n * pow2(d);
            assert(n * (w * pow2(d)) == k * w) by (nonlinear_arith)
                requires
                    k == n * pow2(d),
            ;
            assert(r.m == k * w);
        } else if x.e <= 0 {
            vstd::arithmetic::power2::lemma_pow2_adds((l - e) as nat, (-x.e) as nat);
            assert(q * pow2((l - e) as nat) * pow2((-x.e) as nat) == q * (pow2((l - e) as nat)
                * pow2((-x.e) as nat))) by (nonlinear_arith);
            assert(r.m == q * w);
        } else {
            let c = pow2(x.e as nat);
            vstd::arithmetic::power2::lemma_pow2_adds((l - r.e) as nat, x.e as nat);
            lemma_pow2_step(x.e as nat);
            assert(q * (w * c) == (q * w) * c) by (nonlinear_arith);
            vstd::arithmetic::div_mod::lemma_fundamental_div_mod_converse(
                n as int,
                c as int,
                q * w,
                0,
            );
            assert(r.m == q * w) by (nonlinear_arith)
                requires
                    r.m * c == (q * w) * c,
                    c >= 1,
            ;
        }
    }
}

proof fn lemma_negated_multiple(a: Number, l: int)
    requires
        is_multiple(a, l),
    ensures
        is_multiple(negated(a), l),
{
    if a.e < l {
        let q = choose|q: int| a.m == #[trigger] (q * pow2((l - a.e) as nat));
        assert(-(q * pow2((l - a.e) as nat)) == (-q) * pow2((l - a.e) as nat)) by (nonlinear_arith);
    }
}

/// A multiple of `2^l` that is not zero is not much smaller than it.
pub proof fn lemma_multiple_is_large(p: nat, a: Number, l: int)
    requires
        p > 0,
        is_number(p, a),
        a.m != 0,
        is_multiple(a, l),
    ensures
        a.e >= l - p + 1,
{
    if a.e < l {
        let q = choose|q: int| a.m == #[trigger] (q * pow2((l - a.e) as nat));
        let w = pow2((l - a.e) as nat);
        assert(w <= a.m || w <= -a.m) by (nonlinear_arith)
            requires
                a.m == q * w,
                a.m != 0,
                w >= 0,
        ;
        if l - a.e >= p {
            lemma_pow2_mono(p, (l - a.e) as nat);
        }
    }
}

/// The rounded sum.
pub fn plus(p: u32, a: Rounded, b: Rounded) -> (r: Rounded)
    requires
        is_precision(p as nat),
        is_number(p as nat, a@),
        is_number(p as nat, b@),
        -2000 <= a.e <= 2000,
        -2000 <= b.e <= 2000,
    ensures
        r@ == sum(p as nat, a@, b@),
        is_number(p as nat, r@),
        a.m != 0 && b.m != 0 && r.m != 0 ==> ({
            let top = if a.e <= b.e {
                b.e
            } else {
                a.e
            };
            top - p <= r.e <= top + 2 && (a.m > 0 && b.m > 0 ==> top <= r.e)
        }),
        a.m > 0 && b.m >= 0 || a.m >= 0 && b.m > 0 ==> r.m > 0,
        a.m != 0 && b.m != 0 && a.e - b.e >= p + 2 ==> r == a,
        forall|l: int|
            is_multiple(a@, l) && is_multiple(b@, l) ==> #[trigger] is_multiple(r@, l),
{
    if a.m == 0 {
        return b;
    }
    if b.m == 0 {
        return a;
    }
    proof {
        if a.e - b.e >= p + 2 {
            if a.m > 0 {
                lemma_sum_absorbs(p as nat, a@, b@);
            } else {
                lemma_sum_absorbs(p as nat, negated(a@), negated(b@));
                lemma_sum_negates(p as nat, a@, b@);
                assert(negated(sum(p as nat, a@, b@)) == negated(a@));
            }
        }
        if b.e - a.e >= p + 2 {
            lemma_sum_commutes(p as nat, a@, b@);
            if b.m > 0 {
                lemma_sum_absorbs(p as nat, b@, a@);
            } else {
                lemma_sum_absorbs(p as nat, negated(b@), negated(a@));
                lemma_sum_negates(p as nat, b@, a@);
                assert(negated(sum(p as nat, b@, a@)) == negated(b@));
            }
        }
    }
    if a.e < b.e {
        if b.e - a.e > 71 {
            return b;
        }
        plus_aligned(p, b, a)
    } else {
        if a.e - b.e > 71 {
            return a;
        }
        plus_aligned(p, a, b)
    }
}

fn plus_aligned(p: u32, a: Rounded, b: Rounded) -> (r: Rounded)
    requires
        is_precision(p as nat),
        is_number(p as nat, a@),
        is_number(p as nat, b@),
        -2000 <= a.e <= 2000,
        -2000 <= b.e <= 2000,
        a.m != 0,
        b.m != 0,
        0 <= a.e - b.e <= 71,
    ensures
        r@ == sum(p as nat, a@, b@),
        r@ == sum(p as nat, b@, a@),
        is_number(p as nat, r@),
        r.m != 0 ==> a.e - p <= r.e <= a.e + 2,
        a.m > 0 && b.m > 0 ==> r.m > 0 && a.e <= r.e,
        forall|l: int|
            is_multiple(a@, l) && is_multiple(b@, l) ==> #[trigger] is_multiple(r@, l),
{
    let k: u32 = (a.e - b.e) as u32;
    let h: u128 = power_of_two(k);
    let ghost x = a.m as int;
    let ghost y = b.m as int;
    proof {
        lemma_precision(p as nat);
        lemma_pow2_values();
        lemma_pow2_mono(k as nat, 71);
        lemma_pow2_mono(0, k as nat);
        vstd::arithmetic::power2::lemma2_to64();
        vstd::arithmetic::power2::lemma_pow2_adds(64, 7);
        assert(-(0x20_0000_0000_0000 * 0x80_0000_0000_0000_0000) <= x * h <= 0x20_0000_0000_0000
            * 0x80_0000_0000_0000_0000) by (nonlinear_arith)
            requires
                -0x20_0000_0000_0000 <= x <= 0x20_0000_0000_0000,
                1 <= h <= 0x80_0000_0000_0000_0000,
        ;
        assert(y * 1 == y);
        assert(aligned(b@, b.e as int) == y);
        assert(aligned(a@, b.e as int) == x * pow2(k as nat));
        if a.e == b.e {
            assert(x * 1 == x);
        }
    }
    let total: i128 = (a.m as i128) * (h as i128) + (b.m as i128);
    if total == 0 {
        proof {
            assert forall|l: int| #[trigger] is_multiple(Number { m: 0, e: 0 }, l) by {
                assert(0 == 0int * pow2((l - 0) as nat));
            }
        }
        return Rounded { m: 0, e: 0 };
    }
    proof {
        lemma_sum_range(p as nat, x, y, k as nat);
        if k < 2 {
            lemma_pow2_mono(0, k as nat);
        }
    }
    let ghost low = b.e as int;
    if total > 0 {
        let q: Rounded = round_ratio(p, total as u128, 1);
        let r: Rounded = Rounded { m: q.m, e: q.e + b.e };
        proof {
            assert forall|l: int| is_multiple(a@, l) && is_multiple(b@, l) implies #[trigger]
                is_multiple(r@, l) by {
                if low < l {
                    let u = lemma_aligned_multiple(a@, low, l);
                    let v = lemma_aligned_multiple(b@, low, l);
                    assert((u + v) * pow2((l - low) as nat) == u * pow2((l - low) as nat) + v
                        * pow2((l - low) as nat)) by (nonlinear_arith);
                    lemma_kept_multiple(total as nat, q@, low, l, u + v);
                } else {
                    lemma_kept_multiple(total as nat, q@, low, l, 0);
                }
            }
        }
        r
    } else {
        let q: Rounded = round_ratio(p, (-total) as u128, 1);
        let r: Rounded = Rounded { m: -q.m, e: q.e + b.e };
        proof {
            assert forall|l: int| is_multiple(a@, l) && is_multiple(b@, l) implies #[trigger]
                is_multiple(r@, l) by {
                if low < l {
                    let u = lemma_aligned_multiple(a@, low, l);
                    let v = lemma_aligned_multiple(b@, low, l);
                    assert((-(u + v)) * pow2((l - low) as nat) == -(u * pow2((l - low) as nat) + v
                        * pow2((l - low) as nat))) by (nonlinear_arith);
                    lemma_kept_multiple((-total) as nat, q@, low, l, -(u + v));
                } else {
                    lemma_kept_multiple((-total) as nat, q@, low, l, 0);
                }
                lemma_negated_multiple(Number { m: q.m as int, e: q.e + low }, l);
            }
        }
        r
    }
}

/// The bits of a single in the normal range.
pub fn to_single_bits(a: Rounded) -> (r: u32)
    requires
        is_number(24, a@),
        a.m != 0 ==> -149 <= a.e <= 103,
    ensures
        r == single_bits(a@),
{
    proof {
        lemma_pow2_values();
    }
    if a.m == 0 {
        0
    } else if a.m > 0 {
        ((a.e + 150) as u32) * 0x80_0000 + (a.m - 0x80_0000) as u32
    } else {
        0x8000_0000 + (((a.e + 150) as u32) * 0x80_0000 + (-a.m - 0x80_0000) as u32)
    }
}

/// The bits of a positive double in the normal range.
pub fn to_double_bits(a: Rounded) -> (r: u64)
    requires
        is_number(53, a@),
        a.m > 0,
        -1074 <= a.e <= 970,
    ensures
        r == double_bits(a@),
{
    proof {
        lemma_pow2_values();
    }
    ((a.e + 1075) as u64) * 0x10_0000_0000_0000 + (a.m - 0x10_0000_0000_0000) as u64
}

/// The bits of zero or of a positive double in the normal range.
pub fn to_positive_double_bits(a: Rounded) -> (r: u64)
    requires
        is_number(53, a@),
        a.m >= 0,
        a.m > 0 ==> -1074 <= a.e <= 970,
    ensures
        r == positive_double_bits(a@),
{
    if a.m == 0 {
        0
    } else {
        to_double_bits(a)
    }
}

/// The bits of zero or of a positive double.
pub open spec fn positive_double_bits(a: Number) -> int {
    if a.m == 0 {
        0
    } else {
        double_bits(a)
    }
}

/// The bits of the double that equals a single. What is no number becomes the
/// double that stands for no number.
pub open spec fn widened(bits: u32) -> int {
    let sign: int = if bits < 0x8000_0000 {
        0
    } else {
        0x8000_0000_0000_0000
    };
    let size = bits % 0x8000_0000;
    if size < 0x80_0000 {
        sign + positive_double_bits(scaled(rounded(53, size as int, 1), -149))
    } else if size < 0x7f80_0000 {
        sign + (size / 0x80_0000 + 896) * 0x10_0000_0000_0000 + (size % 0x80_0000) * 0x2000_0000
    } else if size == 0x7f80_0000 {
        sign + 0x7ff0_0000_0000_0000
    } else {
        0x7ff8_0000_0000_0000
    }
}

pub fn widen(bits: u32) -> (r: u64)
    ensures
        r == widened(bits),
{
    let sign: u64 = if bits < 0x8000_0000 {
        0
    } else {
        0x8000_0000_0000_0000
    };
    let size: u64 = (bits % 0x8000_0000) as u64;
    if size < 0x80_0000 {
        let n: Rounded = round_integer(53, size);
        if n.m == 0 {
            return sign;
        }
        let scaled: Rounded = Rounded { m: n.m, e: n.e - 149 };
        proof {
            lemma_pow2_values();
        }
        sign + to_double_bits(scaled)
    } else if size < 0x7f80_0000 {
        sign + (size / 0x80_0000 + 896) * 0x10_0000_0000_0000 + (size % 0x80_0000) * 0x2000_0000
    } else if size == 0x7f80_0000 {
        sign + 0x7ff0_0000_0000_0000
    } else {
        0x7ff8_0000_0000_0000
    }
}

/// Whether `q` is the whole part of the square root of `n`.
pub open spec fn is_root(n: nat, q: nat) -> bool {
    q * q <= n < (q + 1) * (q + 1)
}

/// The whole part of the square root of `n`.
pub open spec fn whole_root(n: nat) -> nat {
    choose|q: nat| is_root(n, q)
}

/// The integer nearest to the square root of `n`. No square root of an integer
/// is half way between two.
pub open spec fn nearest_root(n: nat) -> nat {
    let q = whole_root(n);
    if n - q * q <= q {
        q
    } else {
        q + 1
    }
}

/// How far the significand of a number is moved, so that its square root has
/// `p` bits and its exponent is even.
pub open spec fn root_shift(p: nat, e: int) -> nat {
    if (e - p + 1) % 2 == 0 {
        (p - 1) as nat
    } else {
        p
    }
}

/// The rounded square root of a positive number.
pub open spec fn root(p: nat, a: Number) -> Number {
    let s = root_shift(p, a.e);
    let n = nearest_root((a.m * pow2(s)) as nat);
    if n == pow2(p) {
        Number { m: pow2((p - 1) as nat) as int, e: (a.e - s) / 2 + 1 }
    } else {
        Number { m: n as int, e: (a.e - s) / 2 }
    }
}

proof fn lemma_root_unique(n: nat, q: nat)
    requires
        is_root(n, q),
    ensures
        whole_root(n) == q,
{
    let c = whole_root(n);
    assert(is_root(n, c));
    assert(c <= q && q <= c) by (nonlinear_arith)
        requires
            q * q <= n < (q + 1) * (q + 1),
            c * c <= n < (c + 1) * (c + 1),
    ;
}

fn find_root(n: u128, limit: u128) -> (r: u128)
    requires
        limit <= 0x20_0000_0000_0000,
        n < limit * limit,
    ensures
        is_root(n as nat, r as nat),
        r < limit,
{
    let mut low: u128 = 0;
    let mut high: u128 = limit;
    proof {
        assert(limit > 0) by (nonlinear_arith)
            requires
                n < limit * limit,
                n >= 0,
        ;
    }
    while high - low > 1
        invariant
            limit <= 0x20_0000_0000_0000,
            low < high <= limit,
            low * low <= n < high * high,
        decreases high - low,
    {
        let middle: u128 = low + (high - low) / 2;
        assert(middle * middle <= 0x20_0000_0000_0000 * 0x20_0000_0000_0000) by (nonlinear_arith)
            requires
                0 <= middle <= 0x20_0000_0000_0000,
        ;
        if middle * middle <= n {
            low = middle;
        } else {
            high = middle;
        }
    }
    low
}

/// The rounded square root of a positive number.
pub fn square_root(p: u32, a: Rounded) -> (r: Rounded)
    requires
        is_precision(p as nat),
        is_number(p as nat, a@),
        a.m > 0,
        -1000 <= a.e <= 1000,
    ensures
        r@ == root(p as nat, a@),
        is_number(p as nat, r@),
        r.m > 0,
        a.e - p - 1 <= 2 * r.e <= a.e - p + 4,
{
    let low: u128 = power_of_two(p - 1);
    let top: u128 = power_of_two(p);
    proof {
        lemma_precision(p as nat);
        lemma_pow2_values();
    }
    let odd: bool = (a.e - p as i32 + 1001) % 2 != 0;
    let s: u32 = if odd {
        p
    } else {
        p - 1
    };
    let unit: u128 = if odd {
        top
    } else {
        low
    };
    proof {
        assert(low * low <= a.m * unit && a.m * unit < top * top) by (nonlinear_arith)
            requires
                low <= a.m < top,
                low <= unit <= top,
                low > 0,
        ;
        assert(top * top <= 0x20_0000_0000_0000 * 0x20_0000_0000_0000) by (nonlinear_arith)
            requires
                0 <= top <= 0x20_0000_0000_0000,
        ;
    }
    let big: u128 = (a.m as u128) * unit;
    let q: u128 = find_root(big, top);
    proof {
        lemma_root_unique(big as nat, q as nat);
        assert(q >= low) by (nonlinear_arith)
            requires
                big >= low * low,
                big < (q + 1) * (q + 1),
        ;
    }
    let n: u128 = if big - q * q <= q {
        q
    } else {
        q + 1
    };
    let e: i32 = (a.e - s as i32 + 3000) / 2 - 1500;
    proof {
        assert(root_shift(p as nat, a.e as int) == s);
        assert(unit == pow2(s as nat));
        assert(whole_root(big as nat) == q);
        assert(nearest_root(big as nat) == n);
        assert(e == (a.e - s) / 2);
    }
    if n == top {
        Rounded { m: low as i64, e: e + 1 }
    } else {
        Rounded { m: n as i64, e }
    }
}

/// The bits of the single nearest to a double of size one or less. Below the
/// normal range they count the least single.
pub open spec fn narrowed_size(m: nat, e: int) -> int {
    let r = scaled(rounded(24, m as int, 1), e);
    if r.e >= -149 {
        single_size_bits(r.m, r.e)
    } else {
        nearest_even(m, pow2((-149 - e) as nat)) as int
    }
}

/// The bits of the single nearest to a double of size one or less.
pub open spec fn narrowed(a: Number) -> int {
    if a.m == 0 {
        0
    } else if a.m > 0 {
        narrowed_size(a.m as nat, a.e)
    } else {
        0x8000_0000 + narrowed_size((-a.m) as nat, a.e)
    }
}

fn narrow_size(m: u64, e: i32) -> (r: u32)
    requires
        0x10_0000_0000_0000 <= m < 0x20_0000_0000_0000,
        -1000 <= e <= -52,
    ensures
        r == narrowed_size(m as nat, e as int),
        r < 0x7f80_0000,
{
    proof {
        lemma_pow2_values();
    }
    let q: Rounded = round_ratio(24, m as u128, 1);
    assert(29 <= q.e <= 30);
    if q.e + e >= -149 {
        return to_single_bits(Rounded { m: q.m, e: q.e + e });
    }
    let k: u32 = (-149 - e) as u32;
    if k > 60 {
        proof {
            lemma_pow2_mono(54, k as nat);
            lemma_pow2_step(53);
            let d = pow2(k as nat);
            vstd::arithmetic::div_mod::lemma_small_mod(m as nat, d);
            vstd::arithmetic::div_mod::lemma_div_basics(m as int);
            assert(m as int / d as int == 0) by (nonlinear_arith)
                requires
                    0 <= m < d,
            ;
        }
        return 0;
    }
    let d: u128 = power_of_two(k);
    proof {
        lemma_pow2_mono(30, k as nat);
        lemma_pow2_mono(k as nat, 60);
        vstd::arithmetic::power2::lemma2_to64_rest();
        vstd::arithmetic::power2::lemma2_to64();
        assert(m <= 0x80_0000 * d) by (nonlinear_arith)
            requires
                m <= 0x20_0000_0000_0000,
                d >= 0x4000_0000,
        ;
        lemma_nearest_even_between(m as nat, d as nat, 0, 0x80_0000);
    }
    nearest(m as u128, d) as u32
}

/// The bits of the single nearest to a double of size one or less.
pub fn narrow(a: Rounded) -> (r: u32)
    requires
        is_number(53, a@),
        a.m != 0 ==> -1000 <= a.e <= -52,
    ensures
        r == narrowed(a@),
        r % 0x8000_0000 < 0x7f80_0000,
{
    proof {
        lemma_pow2_values();
    }
    if a.m == 0 {
        0
    } else if a.m > 0 {
        narrow_size(a.m as u64, a.e)
    } else {
        0x8000_0000 + narrow_size((-a.m) as u64, a.e)
    }
}

/// The double that equals a finite single.
pub open spec fn single_as_double(bits: u32) -> Number {
    let size = bits % 0x8000_0000;
    let field = size / 0x80_0000;
    let n: int = if field == 0 {
        size as int
    } else {
        size % 0x80_0000 + 0x80_0000
    };
    let k: int = if field == 0 {
        -149
    } else {
        field - 150
    };
    scaled(
        rounded(
            53,
            if bits < 0x8000_0000 {
                n
            } else {
                -n
            },
            1,
        ),
        k,
    )
}

/// The double that equals a finite single.
pub fn as_double(bits: u32) -> (r: Rounded)
    requires
        bits % 0x8000_0000 < 0x7f80_0000,
    ensures
        r@ == single_as_double(bits),
        is_number(53, r@),
        r.m != 0 ==> -201 <= r.e <= 76,
        r.m == 0 ==> r.e == 0,
{
    let size: u32 = bits % 0x8000_0000;
    let field: u32 = size / 0x80_0000;
    let n: u32 = if field == 0 {
        size
    } else {
        size % 0x80_0000 + 0x80_0000
    };
    let k: i32 = if field == 0 {
        -149
    } else {
        field as i32 - 150
    };
    proof {
        lemma_pow2_values();
    }
    let x: Rounded = round_integer(53, n as u64);
    if x.m == 0 {
        return x;
    }
    if bits < 0x8000_0000 {
        Rounded { m: x.m, e: x.e + k }
    } else {
        Rounded { m: -x.m, e: x.e + k }
    }
}

/// The rounded product of two numbers.
pub fn multiply(p: u32, a: Rounded, b: Rounded) -> (r: Rounded)
    requires
        is_precision(p as nat),
        is_number(p as nat, a@),
        is_number(p as nat, b@),
        -500 <= a.e <= 500,
        -500 <= b.e <= 500,
    ensures
        r@ == product(p as nat, a@, b@),
        is_number(p as nat, r@),
        r.m == 0 <==> a.m == 0 || b.m == 0,
        r.m != 0 ==> a.e + b.e + p - 1 <= r.e <= a.e + b.e + p + 1,
        r.m == 0 ==> r.e == 0,
        a.m > 0 && b.m > 0 ==> r.m > 0,
{
    if a.m == 0 || b.m == 0 {
        proof {
            assert(a.m * b.m == 0) by (nonlinear_arith)
                requires
                    a.m == 0 || b.m == 0,
            ;
        }
        return Rounded { m: 0, e: 0 };
    }
    proof {
        lemma_pow2_step((p - 1) as nat);
        lemma_precision(p as nat);
        assert((-a.m) * b.m == -(a.m * b.m) && a.m * (-b.m) == -(a.m * b.m) && (-a.m) * (-b.m)
            == a.m * b.m) by (nonlinear_arith);
        assert(a.m * b.m != 0) by (nonlinear_arith)
            requires
                a.m != 0,
                b.m != 0,
        ;
        assert(a.m > 0 && b.m > 0 || a.m < 0 && b.m < 0 ==> a.m * b.m > 0) by (nonlinear_arith);
        assert(a.m > 0 && b.m < 0 || a.m < 0 && b.m > 0 ==> a.m * b.m < 0) by (nonlinear_arith);
    }
    let x: Rounded = Rounded {
        m: if a.m < 0 {
            -a.m
        } else {
            a.m
        },
        e: a.e,
    };
    let y: Rounded = Rounded {
        m: if b.m < 0 {
            -b.m
        } else {
            b.m
        },
        e: b.e,
    };
    let z: Rounded = times(p, x, y);
    if (a.m < 0) == (b.m < 0) {
        z
    } else {
        Rounded { m: -z.m, e: z.e }
    }
}

/// The rounded quotient of a number by a positive one.
pub fn divide_by(p: u32, a: Rounded, b: Rounded) -> (r: Rounded)
    requires
        is_precision(p as nat),
        is_number(p as nat, a@),
        is_number(p as nat, b@),
        b.m > 0,
        -1000 <= a.e <= 1000,
        -1000 <= b.e <= 1000,
    ensures
        r@ == quotient(p as nat, a@, b@),
        is_number(p as nat, r@),
        r.m == 0 <==> a.m == 0,
        r.m != 0 ==> a.e - b.e - p <= r.e <= a.e - b.e + 2 - p,
        r.m == 0 ==> r.e == 0,
{
    if a.m >= 0 {
        divide(p, a, b)
    } else {
        proof {
            lemma_precision(p as nat);
        }
        let q: Rounded = divide(p, Rounded { m: -a.m, e: a.e }, b);
        Rounded { m: -q.m, e: q.e }
    }
}

} // verus!
