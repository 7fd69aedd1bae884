//! How rounding respects the order of numbers.

use vstd::arithmetic::power2::{lemma_pow2_adds, pow2};
use vstd::prelude::*;

use crate::float::{
    aligned, fits, is_number, lemma_nearest_even_between, lemma_pow2_mono, lemma_pow2_step,
    lemma_pow2_values, lemma_rounded, nearest_even, negated, quotient, rounded, rounded_size,
    scaled, sum, two_to, Number,
};

verus! {

/// The power of two below a number.
proof fn lemma_log(n: nat) -> (k: nat)
    requires
        n > 0,
    ensures
        pow2(k) <= n < pow2(k + 1),
    decreases n,
{
    lemma_pow2_values();
    if n == 1 {
        0
    } else {
        let k = lemma_log(n / 2);
        lemma_pow2_step(k);
        lemma_pow2_step(k + 1);
        k + 1
    }
}

/// The exponent of an integer.
pub proof fn lemma_fits_integer(p: nat, n: nat) -> (r: (int, nat))
    requires
        p > 0,
        n > 0,
    ensures
        fits(p, n, 1, r.0),
        pow2(r.1) <= n < pow2(r.1 + 1),
        r.0 == r.1 - p + 1,
{
    let k = lemma_log(n);
    let e = k - p + 1;
    if e >= 0 {
        assert(1 * pow2(e as nat) == pow2(e as nat));
        lemma_pow2_adds((p - 1) as nat, e as nat);
        lemma_pow2_adds(p, e as nat);
    } else {
        let s = (-e) as nat;
        lemma_pow2_adds(k, s);
        lemma_pow2_adds(k + 1, s);
        lemma_pow2_step(s);
        assert(pow2(k) * pow2(s) <= n * pow2(s) && n * pow2(s) < pow2(k + 1) * pow2(s))
            by (nonlinear_arith)
            requires
                pow2(k) <= n < pow2(k + 1),
                pow2(s) >= 1,
        ;
    }
    (e, k)
}

/// An integer that is not below a power of two is not rounded below it.
pub proof fn lemma_at_least(p: nat, n: nat, k: nat)
    requires
        p > 0,
        pow2(k) <= n,
    ensures
        is_number(p, rounded_size(p, n, 1)),
        rounded_size(p, n, 1).m > 0,
        rounded_size(p, n, 1).e >= k - p + 1,
{
    lemma_pow2_step(k);
    let (e, l) = lemma_fits_integer(p, n);
    lemma_rounded(p, n, 1, e);
    if l < k {
        lemma_pow2_mono(l + 1, k);
    }
}

/// An integer that is not above a power of two is not rounded above it.
pub proof fn lemma_at_most(p: nat, n: nat, k: nat)
    requires
        p > 0,
        0 < n <= pow2(k),
    ensures
        is_number(p, rounded_size(p, n, 1)),
        rounded_size(p, n, 1).m > 0,
        rounded_size(p, n, 1).e <= k - p || rounded_size(p, n, 1).e == k - p + 1 && rounded_size(
            p,
            n,
            1,
        ).m == pow2((p - 1) as nat),
{
    let (e, l) = lemma_fits_integer(p, n);
    lemma_rounded(p, n, 1, e);
    lemma_pow2_step((p - 1) as nat);
    if l > k {
        lemma_pow2_mono(k, l);
    } else if l == k {
        let low = pow2((p - 1) as nat);
        if e >= 0 {
            assert(1 * pow2(e as nat) == pow2(e as nat));
            lemma_pow2_adds((p - 1) as nat, e as nat);
            lemma_pow2_step(e as nat);
            lemma_nearest_even_between(n, pow2(e as nat), low, low);
        } else {
            lemma_pow2_adds(k, (-e) as nat);
            assert(low * 1 == low);
            lemma_nearest_even_between(n * pow2((-e) as nat), 1, low, low);
        }
    }
}

/// What is less than a half is nearest to zero.
pub proof fn lemma_nearest_none(x: nat, d: nat)
    requires
        2 * x < d,
    ensures
        nearest_even(x, d) == 0,
{
    vstd::arithmetic::div_mod::lemma_small_mod(x, d);
    assert(x as int / d as int == 0) by (nonlinear_arith)
        requires
            0 <= x < d,
    ;
}

proof fn lemma_nearest_mono(x: nat, y: nat, d: nat)
    requires
        d > 0,
        x <= y,
    ensures
        nearest_even(x, d) <= nearest_even(y, d),
{
    vstd::arithmetic::div_mod::lemma_fundamental_div_mod(x as int, d as int);
    vstd::arithmetic::div_mod::lemma_fundamental_div_mod(y as int, d as int);
    vstd::arithmetic::div_mod::lemma_div_is_ordered(x as int, y as int, d as int);
}

/// Whether a positive number is no greater than another.
pub open spec fn no_greater(a: Number, b: Number) -> bool {
    a.e < b.e || a.e == b.e && a.m <= b.m
}

/// Whether a number that is not negative is no greater than another.
pub open spec fn no_more(a: Number, b: Number) -> bool {
    a.m == 0 || b.m > 0 && no_greater(a, b)
}

/// Rounding integers keeps their order.
pub proof fn lemma_rounding_is_monotone(p: nat, a: nat, b: nat)
    requires
        p > 0,
        0 < a <= b,
    ensures
        no_greater(rounded_size(p, a, 1), rounded_size(p, b, 1)),
{
    let (d, k) = lemma_fits_integer(p, a);
    let (e, l) = lemma_fits_integer(p, b);
    lemma_rounded(p, a, 1, d);
    lemma_rounded(p, b, 1, e);
    lemma_pow2_step((p - 1) as nat);
    if k > l {
        lemma_pow2_mono(l + 1, k);
    }
    if d == e {
        if e >= 0 {
            assert(1 * pow2(e as nat) == pow2(e as nat));
            lemma_pow2_step(e as nat);
            lemma_nearest_mono(a, b, pow2(e as nat));
        } else {
            let w = pow2((-e) as nat);
            assert(a * w <= b * w) by (nonlinear_arith)
                requires
                    a <= b,
            ;
            lemma_nearest_mono(a * w, b * w, 1);
        }
    }
}

/// Whether a number is at most one.
pub open spec fn at_most_one(p: nat, a: Number) -> bool {
    a.m <= 0 || no_greater(a, two_to(p, 0))
}

/// The quotient by a number that is no smaller is at most one.
pub proof fn lemma_quotient_at_most_one(p: nat, a: Number, b: Number)
    requires
        p > 1,
        is_number(p, a),
        is_number(p, b),
        a.m > 0,
        b.m > 0,
    ensures
        is_number(p, quotient(p, a, b)),
        quotient(p, a, b).m > 0,
        a.e - b.e - p <= quotient(p, a, b).e <= a.e - b.e + 2 - p,
        no_greater(a, b) ==> at_most_one(p, quotient(p, a, b)),
{
    let low = pow2((p - 1) as nat);
    lemma_pow2_step((p - 1) as nat);
    let num = a.m as nat;
    let den = b.m as nat;
    if num < den {
        assert(low * den <= num * pow2(p) && num * pow2(p) < pow2(p) * den) by (nonlinear_arith)
            requires
                num < den < 2 * low,
                low <= num,
                pow2(p) == 2 * low,
        ;
        assert(fits(p, num, den, -p));
        lemma_rounded(p, num, den, -p);
    } else {
        let e = 1 - p;
        assert(low * den <= num * low && num * low < pow2(p) * den) by (nonlinear_arith)
            requires
                den <= num < 2 * low,
                low <= den,
                pow2(p) == 2 * low,
        ;
        assert((-e) as nat == (p - 1) as nat);
        assert(fits(p, num, den, e));
        lemma_rounded(p, num, den, e);
        if num == den {
            assert(num * low == low * den) by (nonlinear_arith)
                requires
                    num == den,
            ;
            lemma_nearest_even_between(num * low, den, low, low);
        }
    }
}

/// One less a number that is not negative is at most one, and is not negative
/// where that number is at most one.
pub proof fn lemma_one_minus(p: nat, q: Number)
    requires
        p > 1,
        is_number(p, q),
        q.m >= 0,
    ensures
        ({
            let x = sum(p, two_to(p, 0), negated(q));
            &&& is_number(p, x)
            &&& at_most_one(p, x)
            &&& at_most_one(p, q) ==> x.m >= 0
            &&& x.m != 0 ==> x.e >= (if q.e < 1 - p {
                q.e
            } else {
                1 - p
            }) - p + 1
            &&& x.m != 0 ==> x.e <= (if q.e < 1 - p {
                1 - p
            } else {
                q.e
            }) + 2
        }),
{
    let one = two_to(p, 0);
    let low = pow2((p - 1) as nat);
    lemma_pow2_step((p - 1) as nat);
    if q.m > 0 {
        let e = if one.e <= q.e {
            one.e
        } else {
            q.e
        };
        let top = if one.e <= q.e {
            q.e
        } else {
            one.e
        };
        let k = (one.e - e) as nat;
        let j = (q.e - e) as nat;
        let b = negated(q);
        lemma_pow2_adds((p - 1) as nat, k);
        lemma_pow2_step(k);
        lemma_pow2_step(j);
        assert(aligned(one, e) == pow2((p - 1 + k) as nat));
        let y = q.m * pow2(j);
        assert(aligned(b, e) == -y) by (nonlinear_arith)
            requires
                aligned(b, e) == (-q.m) * pow2(j),
                y == q.m * pow2(j),
        ;
        assert(y > 0 && y < pow2(p) * pow2(j)) by (nonlinear_arith)
            requires
                y == q.m * pow2(j),
                0 < q.m < pow2(p),
                pow2(j) >= 1,
        ;
        lemma_pow2_adds(p, j);
        let n = aligned(one, e) + aligned(b, e);
        let w = (p - 1 + k) as nat;
        let v = p + j;
        let t = (p + (top - e)) as nat;
        lemma_pow2_mono(w, t);
        lemma_pow2_mono(v, t);
        if at_most_one(p, q) && q.e == one.e {
            assert(y == q.m) by {
                lemma_pow2_values();
            }
            lemma_pow2_values();
        } else if at_most_one(p, q) {
            assert(v <= w);
            lemma_pow2_mono(v, w);
        }
        if n > 0 {
            lemma_at_most(p, n as nat, w);
            lemma_pow2_values();
            lemma_at_least(p, n as nat, 0);
            lemma_at_most(p, n as nat, t);
        } else if n < 0 {
            let s = (-n) as nat;
            lemma_pow2_values();
            lemma_at_least(p, s, 0);
            lemma_at_most(p, s, t);
        }
    }
}

/// Adding a number that is not negative to a positive one does not make it
/// smaller than the power of two below it.
pub proof fn lemma_sum_grows(p: nat, a: Number, x: Number)
    requires
        p > 1,
        is_number(p, a),
        is_number(p, x),
        a.m > 0,
        x.m >= 0,
    ensures
        is_number(p, sum(p, a, x)),
        sum(p, a, x).m > 0,
        sum(p, a, x).e >= a.e,
        sum(p, a, x).e <= (if x.m > 0 && x.e > a.e {
            x.e
        } else {
            a.e
        }) + 2,
{
    lemma_pow2_step((p - 1) as nat);
    if x.m > 0 {
        let e = if a.e <= x.e {
            a.e
        } else {
            x.e
        };
        let top = if a.e <= x.e {
            x.e
        } else {
            a.e
        };
        let k = (a.e - e) as nat;
        let j = (x.e - e) as nat;
        lemma_pow2_step(k);
        lemma_pow2_step(j);
        lemma_pow2_adds((p - 1) as nat, k);
        lemma_pow2_adds(p, k);
        lemma_pow2_adds(p, j);
        let y = a.m * pow2(k);
        let z = x.m * pow2(j);
        assert(pow2((p - 1) as nat) * pow2(k) <= y && y < pow2(p) * pow2(k)) by (nonlinear_arith)
            requires
                y == a.m * pow2(k),
                pow2((p - 1) as nat) <= a.m < pow2(p),
                pow2(k) >= 1,
        ;
        assert(0 < z && z < pow2(p) * pow2(j)) by (nonlinear_arith)
            requires
                z == x.m * pow2(j),
                0 < x.m < pow2(p),
                pow2(j) >= 1,
        ;
        let n = (y + z) as nat;
        let t = (p + (top - e)) as nat;
        lemma_pow2_mono((p + k) as nat, t);
        lemma_pow2_mono((p + j) as nat, t);
        lemma_pow2_step(t);
        lemma_at_least(p, n, (p - 1 + k) as nat);
        lemma_at_most(p, n, t + 1);
        assert(aligned(a, e) + aligned(x, e) == n);
    }
}

/// The exponent of an integer of 64 bits.
pub proof fn lemma_integer_range(p: nat, n: nat)
    requires
        p > 1,
        0 < n <= u64::MAX,
    ensures
        is_number(p, rounded(p, n as int, 1)),
        rounded(p, n as int, 1).m > 0,
        1 - p <= rounded(p, n as int, 1).e <= 65 - p,
{
    lemma_pow2_values();
    lemma_at_least(p, n, 0);
    lemma_at_most(p, n, 64);
}

/// Of two ratios, the smaller has no greater nearest integer.
pub proof fn lemma_nearest_ratio(x: nat, d: nat, y: nat, c: nat)
    requires
        d > 0,
        c > 0,
        x * c <= y * d,
    ensures
        nearest_even(x, d) <= nearest_even(y, c),
{
    let q = x / d;
    let r = x % d;
    let s = y / c;
    let t = y % c;
    vstd::arithmetic::div_mod::lemma_fundamental_div_mod(x as int, d as int);
    vstd::arithmetic::div_mod::lemma_fundamental_div_mod(y as int, c as int);
    assert(q <= s) by (nonlinear_arith)
        requires
            x == d * q + r,
            y == c * s + t,
            t < c,
            0 <= r,
            d > 0,
            c > 0,
            x * c <= y * d,
    ;
    if q == s {
        assert(r * c <= t * d) by (nonlinear_arith)
            requires
                x == d * q + r,
                y == c * s + t,
                q == s,
                x * c <= y * d,
        ;
        assert(2 * r >= d ==> 2 * t >= c) by (nonlinear_arith)
            requires
                r * c <= t * d,
                d > 0,
                c > 0,
        ;
        assert(2 * r > d ==> 2 * t > c) by (nonlinear_arith)
            requires
                r * c <= t * d,
                d > 0,
                c > 0,
        ;
    }
}

/// Scaling by a power of two commutes with rounding.
pub proof fn lemma_rounding_scales(p: nat, n: nat, k: nat)
    requires
        p > 0,
        n > 0,
    ensures
        rounded(p, (n * pow2(k)) as int, 1) == scaled(rounded(p, n as int, 1), k as int),
{
    lemma_pow2_step(k);
    let w = pow2(k);
    let x = n * w;
    assert(x > 0) by (nonlinear_arith)
        requires
            x == n * w,
            n > 0,
            w > 0,
    ;
    let (e, l) = lemma_fits_integer(p, n);
    lemma_rounded(p, n, 1, e);
    let f = e + k;
    lemma_pow2_adds(l, k);
    lemma_pow2_adds(l + 1, k);
    assert(pow2(l) * w <= x && x < pow2(l + 1) * w) by (nonlinear_arith)
        requires
            x == n * w,
            pow2(l) <= n < pow2(l + 1),
            w > 0,
    ;
    let (g, h) = lemma_fits_integer(p, x);
    if h < l + k {
        lemma_pow2_mono(h + 1, l + k);
    }
    if h > l + k {
        lemma_pow2_mono(l + 1 + k, h);
    }
    assert(g == f);
    lemma_rounded(p, x, 1, g);
    if e >= 0 {
        let d = pow2(e as nat);
        lemma_pow2_step(e as nat);
        lemma_pow2_adds(e as nat, k);
        assert(1 * pow2(f as nat) == d * w);
        assert(1 * d == d);
        assert(d * w > 0) by (nonlinear_arith)
            requires
                d > 0,
                w > 0,
        ;
        assert(n * (d * w) == x * d) by (nonlinear_arith)
            requires
                x == n * w,
        ;
        lemma_nearest_ratio(n, d, x, d * w);
        lemma_nearest_ratio(x, d * w, n, d);
    } else if f >= 0 {
        let d = pow2((-e) as nat);
        let c = pow2(f as nat);
        lemma_pow2_step((-e) as nat);
        lemma_pow2_step(f as nat);
        lemma_pow2_adds((-e) as nat, f as nat);
        assert(w == d * c);
        assert(1 * c == c);
        assert((n * d) * c == x * 1) by (nonlinear_arith)
            requires
                x == n * w,
                w == d * c,
        ;
        lemma_nearest_ratio(n * d, 1, x, c);
        lemma_nearest_ratio(x, c, n * d, 1);
    } else {
        let d = pow2((-e) as nat);
        let c = pow2((-f) as nat);
        lemma_pow2_adds((-f) as nat, k);
        assert(d == c * w);
        assert(n * d == x * c) by (nonlinear_arith)
            requires
                x == n * w,
                d == c * w,
        ;
    }
}

/// The order of two positive numbers is that of their aligned significands.
pub proof fn lemma_aligned_order(p: nat, a: Number, b: Number, e: int)
    requires
        p > 0,
        is_number(p, a),
        is_number(p, b),
        a.m > 0,
        b.m > 0,
        no_greater(a, b),
        e <= a.e,
    ensures
        0 < aligned(a, e) <= aligned(b, e),
{
    let k = (a.e - e) as nat;
    let w = pow2(k);
    lemma_pow2_step(k);
    assert(a.m * w > 0) by (nonlinear_arith)
        requires
            a.m > 0,
            w > 0,
    ;
    if a.e == b.e {
        assert(a.m * w <= b.m * w) by (nonlinear_arith)
            requires
                a.m <= b.m,
                w > 0,
        ;
    } else {
        let j = (b.e - e) as nat;
        lemma_pow2_mono((k + 1) as nat, j);
        lemma_pow2_step((p - 1) as nat);
        let v = pow2(j);
        let low = pow2((p - 1) as nat);
        assert(a.m * w <= b.m * v) by (nonlinear_arith)
            requires
                a.m < 2 * low,
                low <= b.m,
                low > 0,
                2 * w <= v,
                w > 0,
        ;
    }
}

/// A sum may be taken at any exponent that is low enough.
pub proof fn lemma_sum_at(p: nat, a: Number, x: Number, e: int)
    requires
        p > 0,
        a.m > 0,
        x.m > 0,
        e <= a.e,
        e <= x.e,
    ensures
        aligned(a, e) + aligned(x, e) > 0,
        sum(p, a, x) == scaled(rounded(p, aligned(a, e) + aligned(x, e), 1), e),
{
    let f = if a.e <= x.e {
        a.e
    } else {
        x.e
    };
    let k = (f - e) as nat;
    let w = pow2(k);
    let i = (a.e - f) as nat;
    let j = (x.e - f) as nat;
    lemma_pow2_step(i);
    lemma_pow2_step(j);
    lemma_pow2_step(k);
    lemma_pow2_adds(i, k);
    lemma_pow2_adds(j, k);
    let n = aligned(a, f) + aligned(x, f);
    assert(n > 0) by (nonlinear_arith)
        requires
            n == a.m * pow2(i) + x.m * pow2(j),
            a.m > 0,
            x.m > 0,
            pow2(i) > 0,
            pow2(j) > 0,
    ;
    assert(aligned(a, e) + aligned(x, e) == n * w) by (nonlinear_arith)
        requires
            aligned(a, e) == a.m * (pow2(i) * w),
            aligned(x, e) == x.m * (pow2(j) * w),
            n == a.m * pow2(i) + x.m * pow2(j),
    ;
    assert(n * w > 0) by (nonlinear_arith)
        requires
            n > 0,
            w > 0,
    ;
    lemma_rounding_scales(p, n as nat, k);
}

/// A sum is no smaller where a part of it is no smaller.
pub proof fn lemma_sum_is_monotone(p: nat, a: Number, b: Number, x: Number)
    requires
        p > 0,
        is_number(p, a),
        is_number(p, b),
        a.m > 0,
        b.m > 0,
        x.m > 0,
        no_greater(a, b),
    ensures
        no_greater(sum(p, a, x), sum(p, b, x)),
{
    let e = if a.e <= x.e {
        a.e
    } else {
        x.e
    };
    lemma_sum_at(p, a, x, e);
    lemma_sum_at(p, b, x, e);
    lemma_aligned_order(p, a, b, e);
    lemma_rounding_is_monotone(
        p,
        (aligned(a, e) + aligned(x, e)) as nat,
        (aligned(b, e) + aligned(x, e)) as nat,
    );
    lemma_pow2_values();
    lemma_at_least(p, (aligned(a, e) + aligned(x, e)) as nat, 0);
    lemma_at_least(p, (aligned(b, e) + aligned(x, e)) as nat, 0);
}

proof fn lemma_next_is_more(p: nat, m: nat)
    requires
        p > 0,
        pow2((p - 1) as nat) <= m < pow2(p),
    ensures
        !no_greater(rounded_size(p, m + 1, 1), Number { m: m as int, e: 0 }),
{
    lemma_pow2_values();
    lemma_pow2_step((p - 1) as nat);
    let (e, l) = lemma_fits_integer(p, m + 1);
    lemma_rounded(p, m + 1, 1, e);
    if l < p - 1 {
        lemma_pow2_mono(l + 1, (p - 1) as nat);
    }
    if e == 0 {
        assert(1 * pow2(0) == 1);
        assert(nearest_even(m + 1, 1) == m + 1);
    }
}

/// A sum is more than a part of it, where the other part is not beyond the
/// precision of that part.
pub proof fn lemma_sum_is_more(p: nat, a: Number, x: Number)
    requires
        p > 0,
        is_number(p, a),
        is_number(p, x),
        a.m > 0,
        x.m > 0,
        a.e - x.e < p,
    ensures
        !no_greater(sum(p, a, x), a),
{
    let e = if a.e <= x.e {
        a.e
    } else {
        x.e
    };
    let k = (a.e - e) as nat;
    let j = (x.e - e) as nat;
    let w = pow2(k);
    let low = pow2((p - 1) as nat);
    lemma_pow2_step(k);
    lemma_pow2_step((p - 1) as nat);
    lemma_pow2_step(j);
    lemma_pow2_adds((p - 1) as nat, j);
    lemma_pow2_mono(k, (p - 1 + j) as nat);
    let n = ((a.m + 1) * w) as nat;
    assert(w <= x.m * pow2(j)) by (nonlinear_arith)
        requires
            w <= low * pow2(j),
            low <= x.m,
            pow2(j) > 0,
    ;
    assert((a.m + 1) * w == a.m * w + w) by (nonlinear_arith);
    assert(a.m * w > 0) by (nonlinear_arith)
        requires
            a.m > 0,
            w > 0,
    ;
    lemma_sum_at(p, a, x, e);
    assert(n <= aligned(a, e) + aligned(x, e));
    lemma_rounding_is_monotone(p, n, (aligned(a, e) + aligned(x, e)) as nat);
    lemma_rounding_scales(p, (a.m + 1) as nat, k);
    lemma_next_is_more(p, a.m as nat);
    lemma_pow2_values();
    lemma_at_least(p, n, 0);
    lemma_at_least(p, (aligned(a, e) + aligned(x, e)) as nat, 0);
    lemma_at_least(p, (a.m + 1) as nat, 0);
}

/// The two shapes that a quotient has.
pub proof fn lemma_quotient_is(p: nat, a: Number, b: Number)
    requires
        p > 1,
        is_number(p, a),
        is_number(p, b),
        a.m > 0,
        b.m > 0,
    ensures
        ({
            let low = pow2((p - 1) as nat);
            let r = quotient(p, a, b);
            let m = nearest_even((a.m * pow2(p)) as nat, b.m as nat);
            let n = nearest_even((a.m * low) as nat, b.m as nat);
            &&& is_number(p, r)
            &&& r.m > 0
            &&& if a.m >= b.m {
                r == (Number { m: n as int, e: a.e - b.e + 1 - p })
            } else if m == pow2(p) {
                r == (Number { m: low as int, e: a.e - b.e + 1 - p })
            } else {
                r == (Number { m: m as int, e: a.e - b.e - p })
            }
        }),
{
    let low = pow2((p - 1) as nat);
    let num = a.m as nat;
    let den = b.m as nat;
    lemma_pow2_step((p - 1) as nat);
    if num < den {
        assert(low * den <= num * pow2(p) && num * pow2(p) < pow2(p) * den) by (nonlinear_arith)
            requires
                low <= num < den < 2 * low,
                pow2(p) == 2 * low,
        ;
        assert(fits(p, num, den, -p));
        lemma_rounded(p, num, den, -p);
    } else {
        let e = 1 - p;
        let high = (2 * low - 1) as nat;
        assert(low * den <= num * low && num * low <= high * den && high * den < pow2(p) * den)
            by (nonlinear_arith)
            requires
                den <= num <= high,
                high == 2 * low - 1,
                low <= den,
                low > 0,
                pow2(p) == 2 * low,
        ;
        assert((-e) as nat == (p - 1) as nat);
        assert(fits(p, num, den, e));
        lemma_rounded(p, num, den, e);
        lemma_nearest_even_between(num * low, den, low, high);
    }
}

/// Dividing by a number that is no smaller gives no more.
pub proof fn lemma_quotient_falls(p: nat, a: Number, b: Number, c: Number)
    requires
        p > 1,
        is_number(p, a),
        is_number(p, b),
        is_number(p, c),
        a.m > 0,
        b.m > 0,
        c.m > 0,
        no_greater(b, c),
    ensures
        is_number(p, quotient(p, a, b)),
        quotient(p, a, b).m > 0,
        no_greater(quotient(p, a, c), quotient(p, a, b)),
{
    lemma_quotient_is(p, a, b);
    lemma_quotient_is(p, a, c);
    let low = pow2((p - 1) as nat);
    lemma_pow2_step((p - 1) as nat);
    let x = (a.m * pow2(p)) as nat;
    let y = (a.m * low) as nat;
    assert(x == 2 * y && y >= 0) by (nonlinear_arith)
        requires
            x == a.m * pow2(p),
            y == a.m * low,
            pow2(p) == 2 * low,
            a.m > 0,
            low > 0,
    ;
    if b.e == c.e {
        assert(x * b.m <= x * c.m && y * b.m <= y * c.m) by (nonlinear_arith)
            requires
                b.m <= c.m,
                x >= 0,
                y >= 0,
        ;
        lemma_nearest_ratio(x, c.m as nat, x, b.m as nat);
        lemma_nearest_ratio(y, c.m as nat, y, b.m as nat);
    } else {
        assert(y * b.m <= x * c.m) by (nonlinear_arith)
            requires
                x == 2 * y,
                b.m <= 2 * c.m,
                y >= 0,
        ;
        lemma_nearest_ratio(y, c.m as nat, x, b.m as nat);
    }
}

/// A sum is no smaller than a part of it.
pub proof fn lemma_sum_no_less(p: nat, a: Number, x: Number)
    requires
        p > 0,
        is_number(p, a),
        is_number(p, x),
        a.m > 0,
        x.m >= 0,
    ensures
        no_greater(a, sum(p, a, x)),
{
    if x.m > 0 {
        let e = if a.e <= x.e {
            a.e
        } else {
            x.e
        };
        let k = (a.e - e) as nat;
        let n = aligned(a, e);
        lemma_aligned_order(p, a, a, e);
        lemma_aligned_order(p, x, x, e);
        lemma_sum_at(p, a, x, e);
        lemma_rounding_is_monotone(p, n as nat, (n + aligned(x, e)) as nat);
        lemma_rounding_scales(p, a.m as nat, k);
        let _ = lemma_kept_integer(p, a.m as nat);
        assert(a.m * 1 == a.m);
        lemma_pow2_values();
        lemma_at_least(p, (n + aligned(x, e)) as nat, 0);
    }
}

/// An integer of no more than so many bits is kept: its significand is shifted
/// until it has all of them.
pub proof fn lemma_kept_integer(p: nat, n: nat) -> (k: nat)
    requires
        p > 0,
        0 < n < pow2(p),
    ensures
        rounded_size(p, n, 1) == (Number { m: (n * pow2(k)) as int, e: -k }),
        pow2((p - 1) as nat) <= n * pow2(k) < pow2(p),
        n >= pow2((p - 1) as nat) ==> k == 0,
{
    lemma_pow2_values();
    lemma_pow2_step((p - 1) as nat);
    let (e, l) = lemma_fits_integer(p, n);
    lemma_rounded(p, n, 1, e);
    if l > p - 1 {
        lemma_pow2_mono(p, l);
    }
    if l < p - 1 {
        lemma_pow2_mono(l + 1, (p - 1) as nat);
    }
    let k = (-e) as nat;
    let m = n * pow2(k);
    assert(1 * pow2(0) == 1);
    assert(n * 1 == n);
    assert(pow2(p) * 1 == pow2(p));
    assert(pow2((p - 1) as nat) * 1 == pow2((p - 1) as nat));
    assert(nearest_even(m, 1) == m);
    k
}

/// Adding what is not negative gives no less.
pub proof fn lemma_adding_no_less(p: nat, a: Number, x: Number)
    requires
        p > 1,
        is_number(p, a),
        is_number(p, x),
        a.m >= 0,
        x.m >= 0,
    ensures
        is_number(p, sum(p, a, x)),
        sum(p, a, x).m >= 0,
        a.m > 0 || x.m > 0 ==> sum(p, a, x).m > 0,
        no_more(a, sum(p, a, x)),
{
    if a.m > 0 {
        lemma_sum_grows(p, a, x);
        lemma_sum_no_less(p, a, x);
    }
}

/// Adding a greater integer gives no less.
pub proof fn lemma_adding_more(p: nat, a: Number, n: nat, m: nat)
    requires
        p > 1,
        is_number(p, a),
        a.m >= 0,
        n <= m <= u64::MAX,
        a.m > 0 || n > 0,
    ensures
        is_number(p, sum(p, a, rounded(p, n as int, 1))),
        is_number(p, sum(p, a, rounded(p, m as int, 1))),
        sum(p, a, rounded(p, n as int, 1)).m > 0,
        sum(p, a, rounded(p, m as int, 1)).m > 0,
        no_greater(sum(p, a, rounded(p, n as int, 1)), sum(p, a, rounded(p, m as int, 1))),
{
    let x = rounded(p, n as int, 1);
    let y = rounded(p, m as int, 1);
    if m > 0 {
        lemma_integer_range(p, m);
    }
    if n > 0 {
        lemma_integer_range(p, n);
        lemma_rounding_is_monotone(p, n, m);
    }
    lemma_adding_no_less(p, a, x);
    lemma_adding_no_less(p, a, y);
    if a.m > 0 && n > 0 {
        lemma_sum_is_monotone(p, x, y, a);
        assert(sum(p, a, x) == sum(p, x, a));
        assert(sum(p, a, y) == sum(p, y, a));
    }
}

/// Integers that can be written with `p` bits add up to their sum.
pub proof fn lemma_integers_add_up(p: nat, a: nat, b: nat)
    requires
        p > 1,
        a < pow2(p),
        b < pow2(p),
    ensures
        sum(p, rounded(p, a as int, 1), rounded(p, b as int, 1)) == rounded(p, (a + b) as int, 1),
{
    if a > 0 && b > 0 {
        let x = rounded(p, a as int, 1);
        let y = rounded(p, b as int, 1);
        let i = lemma_kept_integer(p, a);
        let j = lemma_kept_integer(p, b);
        let k = if i <= j {
            j
        } else {
            i
        };
        lemma_pow2_adds(i, (k - i) as nat);
        lemma_pow2_adds(j, (k - j) as nat);
        assert((a * pow2(i)) * pow2((k - i) as nat) == a * pow2(k)) by (nonlinear_arith)
            requires
                pow2(k) == pow2(i) * pow2((k - i) as nat),
        ;
        assert((b * pow2(j)) * pow2((k - j) as nat) == b * pow2(k)) by (nonlinear_arith)
            requires
                pow2(k) == pow2(j) * pow2((k - j) as nat),
        ;
        assert(a * pow2(k) + b * pow2(k) == (a + b) * pow2(k)) by (nonlinear_arith);
        lemma_kept_positive(p, a, i);
        lemma_kept_positive(p, b, j);
        lemma_rounding_scales(p, a + b, k);
        let s = rounded(p, (a + b) as int, 1);
        assert(aligned(x, -k) + aligned(y, -k) == (a + b) * pow2(k));
        assert(sum(p, x, y) == scaled(rounded(p, ((a + b) * pow2(k)) as int, 1), -k));
        assert(scaled(scaled(s, k as int), -k) == s);
    } else if a > 0 {
        let i = lemma_kept_integer(p, a);
        lemma_kept_positive(p, a, i);
    }
}

proof fn lemma_kept_positive(p: nat, a: nat, k: nat)
    requires
        p > 0,
        pow2((p - 1) as nat) <= a * pow2(k),
    ensures
        a * pow2(k) > 0,
{
    lemma_pow2_step((p - 1) as nat);
}

} // verus!
