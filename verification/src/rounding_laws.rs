//! How far rounding takes a number away: no further than to the nearest one of so
//! many bits.

use vstd::arithmetic::power2::pow2;
use vstd::prelude::*;

use crate::float::{
    aligned, fits, is_number, lemma_pow2_mono, lemma_pow2_step, lemma_pow2_values, lemma_rounded,
    nearest_even, negated, product, quotient, rounded, rounded_size, significand, sum, Number,
};

verus! {

/// The nearest integer is at most a half away, and even where two are.
pub proof fn law_nearest_integer(num: nat, den: nat)
    requires
        den > 0,
    ensures
        ({
            let q = nearest_even(num, den);
            let away = 2 * num - 2 * (q * den);
            &&& -den <= away <= den
            &&& away == den || away == -den ==> q % 2 == 0
        }),
{
    let q = num / den;
    let r = num % den;
    vstd::arithmetic::div_mod::lemma_fundamental_div_mod(num as int, den as int);
    assert(q * den + r == num) by (nonlinear_arith)
        requires
            num == den * q + r,
    ;
    assert((q + 1) * den == q * den + den) by (nonlinear_arith);
}

/// Whether a quotient has that many bits before the point, or more, once divided by
/// `2^e`.
spec fn is_long(p: nat, num: nat, den: nat, e: int) -> bool {
    if e >= 0 {
        pow2((p - 1) as nat) * (den * pow2(e as nat)) <= num
    } else {
        pow2((p - 1) as nat) * den <= num * pow2((-e) as nat)
    }
}

proof fn lemma_long_enough(p: nat, num: nat, den: nat, e: int)
    requires
        p > 0,
        is_long(p, num, den, e),
        !is_long(p, num, den, e + 1),
    ensures
        fits(p, num, den, e),
{
    let low = pow2((p - 1) as nat);
    lemma_pow2_step((p - 1) as nat);
    lemma_pow2_values();
    if e >= 0 {
        lemma_pow2_step(e as nat);
        let x = pow2(e as nat);
        assert(low * (den * (2 * x)) == 2 * low * (den * x)) by (nonlinear_arith);
    } else if e == -1 {
        assert(low * (den * 1) == low * den);
        assert(2 * low * den == 2 * (low * den)) by (nonlinear_arith);
        assert(num * 2 == 2 * num);
    } else {
        lemma_pow2_step((-e - 1) as nat);
        let x = pow2((-e - 1) as nat);
        assert(2 * low * den == 2 * (low * den)) by (nonlinear_arith);
        assert(num * (2 * x) == 2 * (num * x)) by (nonlinear_arith);
    }
}

proof fn lemma_fits_between(p: nat, num: nat, den: nat, lo: int, hi: int) -> (e: int)
    requires
        p > 0,
        lo < hi,
        is_long(p, num, den, lo),
        !is_long(p, num, den, hi),
    ensures
        fits(p, num, den, e),
    decreases hi - lo,
{
    if is_long(p, num, den, hi - 1) {
        lemma_long_enough(p, num, den, hi - 1);
        hi - 1
    } else {
        lemma_fits_between(p, num, den, lo, hi - 1)
    }
}

proof fn lemma_pow2_is_more(n: nat)
    ensures
        n < pow2(n),
    decreases n,
{
    lemma_pow2_values();
    if n > 0 {
        lemma_pow2_is_more((n - 1) as nat);
        lemma_pow2_step((n - 1) as nat);
    }
}

/// Every positive quotient has an exponent that leaves so many bits of it.
pub proof fn lemma_some_exponent_fits(p: nat, num: nat, den: nat) -> (e: int)
    requires
        p > 0,
        num > 0,
        den > 0,
    ensures
        fits(p, num, den, e),
{
    let low = pow2((p - 1) as nat);
    lemma_pow2_mono(0, (p - 1) as nat);
    lemma_pow2_values();
    let k = low * den;
    assert(k > 0) by (nonlinear_arith)
        requires
            k == low * den,
            low >= 1,
            den > 0,
    ;
    lemma_pow2_is_more(k);
    assert(k <= num * pow2(k)) by (nonlinear_arith)
        requires
            k < pow2(k),
            num >= 1,
    ;
    lemma_pow2_is_more(num);
    assert(low * (den * pow2(num)) > num) by (nonlinear_arith)
        requires
            num < pow2(num),
            low >= 1,
            den >= 1,
    ;
    lemma_fits_between(p, num, den, -k, num as int)
}

/// Twice what a number and a quotient differ by, if both are multiplied by the
/// divisor and by `2^l`.
pub open spec fn twice_away(a: Number, num: int, den: nat, l: nat) -> int {
    2 * (a.m * (den * pow2((a.e + l) as nat)) - num * pow2(l))
}

proof fn lemma_scaled_away(m: int, d: int, n: int, x: int)
    requires
        -d <= 2 * (m * d - n) <= d,
        x > 0,
    ensures
        -(d * x) <= 2 * (m * (d * x) - n * x) <= d * x,
{
    assert(m * (d * x) - n * x == (m * d - n) * x) by (nonlinear_arith);
    let y = m * d - n;
    assert(-(d * x) <= 2 * (y * x) <= d * x) by (nonlinear_arith)
        requires
            -d <= 2 * y <= d,
            x > 0,
    ;
}

proof fn lemma_significand_away(p: nat, num: nat, den: nat, e: int, l: nat)
    requires
        p > 0,
        num > 0,
        den > 0,
        e + l >= 0,
    ensures
        ({
            let one = den * pow2((e + l) as nat);
            let away = 2 * (significand(num, den, e) * one - num * pow2(l));
            -one <= away <= one
        }),
{
    let m = significand(num, den, e) as int;
    let one = den * pow2((e + l) as nat);
    if e >= 0 {
        let d = (den * pow2(e as nat)) as nat;
        lemma_pow2_mono(0, e as nat);
        lemma_pow2_values();
        assert(d > 0) by (nonlinear_arith)
            requires
                d == den * pow2(e as nat),
                den > 0,
                pow2(e as nat) >= 1,
        ;
        law_nearest_integer(num, d);
        lemma_pow2_mono(0, l);
        lemma_scaled_away(m, d as int, num as int, pow2(l) as int);
        vstd::arithmetic::power2::lemma_pow2_adds(e as nat, l);
        assert(d * pow2(l) == one) by (nonlinear_arith)
            requires
                d == den * pow2(e as nat),
                one == den * pow2((e + l) as nat),
                pow2(e as nat) * pow2(l) == pow2((e + l) as nat),
        ;
    } else {
        let k = (-e) as nat;
        let x = pow2((e + l) as nat) as int;
        law_nearest_integer(num * pow2(k), den);
        lemma_pow2_mono(0, (e + l) as nat);
        lemma_pow2_values();
        lemma_scaled_away(m, den as int, (num * pow2(k)) as int, x);
        vstd::arithmetic::power2::lemma_pow2_adds(k, (e + l) as nat);
        assert((num * pow2(k)) * x == num * pow2(l)) by (nonlinear_arith)
            requires
                pow2(k) * x == pow2(l),
        ;
    }
}

/// A rounded number has that many bits, and no other is nearer: twice what it is
/// away from what was rounded is at most its last place.
pub proof fn law_rounding_goes_to_the_nearest(p: nat, num: int, den: nat, l: nat)
    requires
        p > 0,
        num > 0,
        den > 0,
        rounded(p, num, den).e + l > 0,
    ensures
        ({
            let a = rounded(p, num, den);
            let one = den * pow2((a.e + l) as nat);
            &&& pow2((p - 1) as nat) <= a.m < pow2(p)
            &&& -one <= twice_away(a, num, den, l) <= one
        }),
{
    let n = num as nat;
    let e = lemma_some_exponent_fits(p, n, den);
    lemma_rounded(p, n, den, e);
    let a = rounded_size(p, n, den);
    assert(is_number(p, a));
    let m = significand(n, den, e);
    lemma_significand_away(p, n, den, e, l);
    if m == pow2(p) {
        lemma_pow2_step((p - 1) as nat);
        lemma_pow2_step((e + l) as nat);
        let low = pow2((p - 1) as nat) as int;
        let x = pow2((e + l) as nat) as int;
        assert(low * (den * (2 * x)) == (2 * low) * (den * x)) by (nonlinear_arith);
        assert(den * x <= den * (2 * x)) by (nonlinear_arith)
            requires
                x >= 0,
                den > 0,
        ;
        assert(pow2((a.e + l) as nat) == 2 * x);
    }
}

/// Rounding does not depend on the sign.
pub proof fn law_rounding_is_symmetric(p: nat, num: int, den: nat)
    ensures
        rounded(p, -num, den) == negated(rounded(p, num, den)),
        rounded(p, 0, den) == (Number { m: 0, e: 0 }),
{
}

/// The product of two positive numbers is the nearest to the exact one.
pub proof fn law_product_is_the_nearest(p: nat, a: Number, b: Number, l: nat)
    requires
        p > 0,
        a.m > 0,
        b.m > 0,
        product(p, a, b).e - a.e - b.e + l > 0,
    ensures
        ({
            let c = product(p, a, b);
            let one = pow2((c.e - a.e - b.e + l) as nat);
            &&& pow2((p - 1) as nat) <= c.m < pow2(p)
            &&& -one <= 2 * (c.m * one - (a.m * b.m) * pow2(l)) <= one
        }),
{
    let n = a.m * b.m;
    assert(n > 0) by (nonlinear_arith)
        requires
            n == a.m * b.m,
            a.m > 0,
            b.m > 0,
    ;
    let r = rounded(p, n, 1);
    let e = lemma_some_exponent_fits(p, n as nat, 1);
    lemma_rounded(p, n as nat, 1, e);
    assert(product(p, a, b) == (Number { m: r.m, e: r.e + (a.e + b.e) }));
    law_rounding_goes_to_the_nearest(p, n, 1, l);
    assert(1 * pow2((r.e + l) as nat) == pow2((r.e + l) as nat));
}

/// The quotient of two positive numbers is the nearest to the exact one.
pub proof fn law_quotient_is_the_nearest(p: nat, a: Number, b: Number, l: nat)
    requires
        p > 0,
        a.m > 0,
        b.m > 0,
        quotient(p, a, b).e - a.e + b.e + l > 0,
    ensures
        ({
            let c = quotient(p, a, b);
            let one = b.m * pow2((c.e - a.e + b.e + l) as nat);
            &&& pow2((p - 1) as nat) <= c.m < pow2(p)
            &&& -one <= 2 * (c.m * one - a.m * pow2(l)) <= one
        }),
{
    let r = rounded(p, a.m, b.m as nat);
    let e = lemma_some_exponent_fits(p, a.m as nat, b.m as nat);
    lemma_rounded(p, a.m as nat, b.m as nat, e);
    assert(quotient(p, a, b) == (Number { m: r.m, e: r.e + (a.e - b.e) }));
    law_rounding_goes_to_the_nearest(p, a.m, b.m as nat, l);
}

/// The sum of two numbers whose exact sum is positive is the nearest to it.
pub proof fn law_sum_is_the_nearest(p: nat, a: Number, b: Number, low: int, l: nat)
    requires
        p > 0,
        a.m != 0,
        b.m != 0,
        low == if a.e <= b.e {
            a.e
        } else {
            b.e
        },
        a.m * pow2((a.e - low) as nat) + b.m * pow2((b.e - low) as nat) > 0,
        sum(p, a, b).e - low + l > 0,
    ensures
        ({
            let c = sum(p, a, b);
            let exact = a.m * pow2((a.e - low) as nat) + b.m * pow2((b.e - low) as nat);
            let one = pow2((c.e - low + l) as nat);
            &&& pow2((p - 1) as nat) <= c.m < pow2(p)
            &&& -one <= 2 * (c.m * one - exact * pow2(l)) <= one
        }),
{
    let n = aligned(a, low) + aligned(b, low);
    let r = rounded(p, n, 1);
    let e = lemma_some_exponent_fits(p, n as nat, 1);
    lemma_rounded(p, n as nat, 1, e);
    assert(sum(p, a, b) == (Number { m: r.m, e: r.e + low }));
    law_rounding_goes_to_the_nearest(p, n, 1, l);
    assert(1 * pow2((r.e + l) as nat) == pow2((r.e + l) as nat));
}

} // verus!
