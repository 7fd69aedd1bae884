//! What a place in a ranking adds to a score.

use vstd::arithmetic::power2::pow2;
use vstd::prelude::*;

use super::engine::pool_for;
use super::fusion::{
    all_entries, channel_entries, score_of, term, weight, Channel, Entry,
};
use crate::float::{
    is_number, lemma_pow2_step, lemma_pow2_values, nearest_even, quotient, rounded, sum, two_to,
    Number,
};
use crate::rounding::{
    lemma_integer_range, lemma_integers_add_up, lemma_kept_integer, lemma_quotient_is,
    lemma_sum_is_more, no_greater,
};

verus! {

/// A number that is nearest to a quotient is no further from it than half the
/// divisor allows.
proof fn lemma_nearest_is_near(x: nat, d: nat)
    requires
        d > 0,
    ensures
        2 * x - d <= 2 * (nearest_even(x, d) * d) <= 2 * x + d,
{
    let q = x / d;
    let r = x % d;
    vstd::arithmetic::div_mod::lemma_fundamental_div_mod(x as int, d as int);
    assert(x == q * d + r) by (nonlinear_arith)
        requires
            x == d * q + r,
    ;
    assert((q + 1) * d == q * d + d) by (nonlinear_arith);
}

/// What is left of a weight that is nearly `num / den`, divided by an integer, lies
/// between the quotients by the next integers.
proof fn lemma_between_reciprocals(w: Number, num: nat, den: nat, n: nat)
    requires
        is_number(24, w),
        w.m > 0,
        -24 <= w.e <= -23,
        0 < den <= 20,
        num * pow2((-w.e) as nat) - den < den * w.m < num * pow2((-w.e) as nat) + den,
        0 < n < 0x40_0000,
    ensures
        ({
            let t = quotient(24, w, rounded(24, n as int, 1));
            &&& t.m > 0
            &&& is_number(24, t)
            &&& t.e < 0
            &&& den * t.m * (n + 1) > num * pow2((-t.e) as nat)
            &&& den * t.m * (n - 1) < num * pow2((-t.e) as nat)
        }),
{
    lemma_pow2_values();
    vstd::arithmetic::power2::lemma2_to64();
    let b = rounded(24, n as int, 1);
    let k = lemma_kept_integer(24, n);
    lemma_integer_range(24, n);
    assert(2 <= k <= 23) by {
        if k < 2 {
            crate::float::lemma_pow2_mono(k, 1);
            assert(n * pow2(k) <= n * 2) by (nonlinear_arith)
                requires
                    pow2(k) <= 2,
            ;
        }
    }
    lemma_quotient_is(24, w, b);
    let t = quotient(24, w, b);
    let pk = pow2(k);
    crate::float::lemma_pow2_mono(2, k);
    let low = pow2(23);
    let (m, f) = if w.m >= b.m {
        (nearest_even((w.m * low) as nat, b.m as nat), 23nat)
    } else {
        (nearest_even((w.m * pow2(24)) as nat, b.m as nat), 24nat)
    };
    let x = (w.m * pow2(f)) as nat;
    assert(w.m * pow2(f) >= 0) by (nonlinear_arith)
        requires
            w.m > 0,
            pow2(f) > 0,
    ;
    lemma_nearest_is_near(x, b.m as nat);
    let e = w.e + k - f;
    assert(t == (Number { m: m as int, e }) || m == pow2(24) && t == (Number {
        m: low as int,
        e: e + 1,
    }));
    assert(m >= low);
    let s = (-e) as nat;
    assert(e < 0);
    vstd::arithmetic::power2::lemma_pow2_adds(s, k);
    assert(s + k == f + (-w.e) as nat);
    vstd::arithmetic::power2::lemma_pow2_adds(f, (-w.e) as nat);
    let pw = pow2((-w.e) as nat);
    let pf = pow2(f);
    let ps = pow2(s);
    assert(ps * pk == pf * pw);
    assert(b.m == n * pk);
    vstd::arithmetic::power2::lemma_pow2_pos(s);
    lemma_bounds(
        m as int,
        n as int,
        pk as int,
        w.m,
        pf as int,
        pw as int,
        ps as int,
        num as int,
        den as int,
    );
    if t.e == e + 1 {
        assert(e + 1 < 0) by {
            assert(w.e + k - f + 1 < 0);
        }
        lemma_pow2_step((-t.e) as nat);
        assert(den * (2 * low) * (n + 1) == 2 * (den * low * (n + 1))) by (nonlinear_arith);
        assert(den * (2 * low) * (n - 1) == 2 * (den * low * (n - 1))) by (nonlinear_arith);
        assert(num * (2 * pow2((-t.e) as nat)) == 2 * (num * pow2((-t.e) as nat)))
            by (nonlinear_arith);
    }
}

proof fn lemma_bounds(
    m: int,
    n: int,
    pk: int,
    wm: int,
    pf: int,
    pw: int,
    ps: int,
    num: int,
    den: int,
)
    requires
        0 < n,
        4 <= pk,
        8388608 <= n * pk < 16777216,
        8388608 <= m <= 16777216,
        pf == 8388608 || pf == 16777216,
        0 < den <= 20,
        0 <= num,
        0 < ps,
        ps * pk == pf * pw,
        2 * (wm * pf) - n * pk <= 2 * (m * (n * pk)) <= 2 * (wm * pf) + n * pk,
        num * pw - den < den * wm < num * pw + den,
    ensures
        den * m * (n + 1) > num * ps,
        den * m * (n - 1) < num * ps,
{
    let d = n * pk;
    assert(den * (m * d) * 2 >= den * (2 * (wm * pf) - d)) by (nonlinear_arith)
        requires
            den > 0,
            2 * (m * d) >= 2 * (wm * pf) - d,
    ;
    assert(den * (m * d) * 2 <= den * (2 * (wm * pf) + d)) by (nonlinear_arith)
        requires
            den > 0,
            2 * (m * d) <= 2 * (wm * pf) + d,
    ;
    assert(den * (2 * (wm * pf) - d) == 2 * ((den * wm) * pf) - den * d) by (nonlinear_arith);
    assert(den * (2 * (wm * pf) + d) == 2 * ((den * wm) * pf) + den * d) by (nonlinear_arith);
    assert((den * wm) * pf > (num * pw) * pf - den * pf) by (nonlinear_arith)
        requires
            den * wm > num * pw - den,
            pf > 0,
    ;
    assert((den * wm) * pf < (num * pw) * pf + den * pf) by (nonlinear_arith)
        requires
            den * wm < num * pw + den,
            pf > 0,
    ;
    assert((num * pw) * pf == (num * ps) * pk) by (nonlinear_arith)
        requires
            ps * pk == pf * pw,
    ;
    assert(den * m * pk >= 4 * (den * 8388608)) by (nonlinear_arith)
        requires
            m >= 8388608,
            pk >= 4,
            den > 0,
    ;
    assert(den * d < den * 16777216) by (nonlinear_arith)
        requires
            d < 16777216,
            den > 0,
    ;
    assert(den * pf <= den * 16777216) by (nonlinear_arith)
        requires
            pf <= 16777216,
            den > 0,
    ;
    assert((den * m * (n + 1)) * pk == den * (m * d) + den * m * pk) by (nonlinear_arith)
        requires
            d == n * pk,
    ;
    assert((den * m * (n - 1)) * pk == den * (m * d) - den * m * pk) by (nonlinear_arith)
        requires
            d == n * pk,
    ;
    let a = den * m * (n + 1);
    let c = den * m * (n - 1);
    let z = num * ps;
    assert(a * pk > z * pk);
    assert(c * pk < z * pk);
    assert(a > z) by (nonlinear_arith)
        requires
            a * pk > z * pk,
            pk > 0,
    ;
    assert(c < z) by (nonlinear_arith)
        requires
            c * pk < z * pk,
            pk > 0,
    ;
}

proof fn lemma_term(c: Channel, rank: nat)
    requires
        rank < 0x10_0000,
    ensures
        term(c, rank) == quotient(24, weight(c), rounded(24, (61 + rank) as int, 1)),
{
    lemma_pow2_values();
    lemma_integers_add_up(24, 60, rank);
    let one = rounded(24, 1, 1);
    let k = lemma_kept_integer(24, 1);
    if k > 23 {
        crate::float::lemma_pow2_mono(24, k);
    }
    if k < 23 {
        crate::float::lemma_pow2_mono(k, 22);
    }
    assert(one == two_to(24, 0));
    lemma_integers_add_up(24, (60 + rank) as nat, 1);
}

/// A place in a ranking adds the weight of the ranking divided by the number of the
/// place, counted from 61 on: 1.35, 1 and 0.8 for titles, full text and similarity.
/// What it adds lies between what the places before and behind it would add exactly.
pub proof fn law_place_adds_a_weighted_reciprocal(c: Channel, rank: nat)
    requires
        rank < 0x10_0000,
    ensures
        ({
            let t = term(c, rank);
            let n = 61 + rank;
            let one = pow2((-t.e) as nat);
            &&& t.m > 0 && t.e < 0
            &&& match c {
                Channel::Title => 20 * t.m * (n + 1) > 27 * one && 20 * t.m * (n - 1) < 27 * one,
                Channel::Bm25 => t.m * (n + 1) > one && t.m * (n - 1) < one,
                Channel::TrigramVector => 5 * t.m * (n + 1) > 4 * one && 5 * t.m * (n - 1) < 4
                    * one,
            }
        }),
{
    lemma_pow2_values();
    vstd::arithmetic::power2::lemma2_to64();
    lemma_term(c, rank);
    let n = (61 + rank) as nat;
    match c {
        Channel::Title => {
            lemma_between_reciprocals(weight(c), 27, 20, n);
        },
        Channel::Bm25 => {
            lemma_between_reciprocals(weight(c), 1, 1, n);
        },
        Channel::TrigramVector => {
            lemma_between_reciprocals(weight(c), 4, 5, n);
        },
    }
}

/// Whether an identifier has one place in a ranking.
pub open spec fn is_at(ids: Seq<Seq<char>>, id: Seq<char>, i: int) -> bool {
    &&& 0 <= i < ids.len()
    &&& ids[i] == id
    &&& forall|j: int| 0 <= j < ids.len() && j != i ==> #[trigger] ids[j] != id
}

proof fn lemma_no_place(entries: Seq<Entry>, more: Seq<Entry>, id: Seq<char>)
    requires
        forall|j: int| 0 <= j < more.len() ==> (#[trigger] more[j]).id != id,
    ensures
        score_of(entries + more, id) == score_of(entries, id),
    decreases more.len(),
{
    if more.len() == 0 {
        assert(entries + more =~= entries);
    } else {
        let front = more.drop_last();
        assert forall|j: int| 0 <= j < front.len() implies (#[trigger] front[j]).id != id by {
            assert(front[j] == more[j]);
        }
        lemma_no_place(entries, front, id);
        assert((entries + more).drop_last() =~= entries + front);
        assert((entries + more).last() == more[more.len() - 1]);
    }
}

proof fn lemma_one_place(
    entries: Seq<Entry>,
    c: Channel,
    ids: Seq<Seq<char>>,
    id: Seq<char>,
    i: int,
)
    requires
        is_at(ids, id, i),
    ensures
        score_of(entries + channel_entries(c, ids), id) == sum(
            24,
            score_of(entries, id),
            term(c, i as nat),
        ),
{
    let all = channel_entries(c, ids);
    let before = all.take(i);
    let after = all.skip(i + 1);
    let p = all[i];
    assert(all =~= before.push(p) + after);
    assert(entries + all =~= ((entries + before).push(p)) + after);
    assert forall|j: int| 0 <= j < before.len() implies (#[trigger] before[j]).id != id by {
        assert(ids[j] != id);
    }
    assert forall|j: int| 0 <= j < after.len() implies (#[trigger] after[j]).id != id by {
        assert(ids[i + 1 + j] != id);
    }
    lemma_no_place(entries, before, id);
    lemma_no_place((entries + before).push(p), after, id);
    assert((entries + before).push(p).drop_last() =~= entries + before);
}

/// A note that all three rankings name once scores what its places add up to. One
/// that a ranking does not name gets nothing from it.
pub proof fn law_score_adds_up(
    t: Seq<Seq<char>>,
    l: Seq<Seq<char>>,
    v: Seq<Seq<char>>,
    id: Seq<char>,
    i: int,
    j: int,
    k: int,
)
    requires
        is_at(t, id, i) || !t.contains(id),
        is_at(l, id, j) || !l.contains(id),
        is_at(v, id, k) || !v.contains(id),
    ensures
        ({
            let a = if t.contains(id) {
                sum(24, Number { m: 0, e: 0 }, term(Channel::Title, i as nat))
            } else {
                Number { m: 0, e: 0 }
            };
            let b = if l.contains(id) {
                sum(24, a, term(Channel::Bm25, j as nat))
            } else {
                a
            };
            let s = if v.contains(id) {
                sum(24, b, term(Channel::TrigramVector, k as nat))
            } else {
                b
            };
            score_of(all_entries(t, l, v), id) == s
        }),
{
    let e0 = Seq::<Entry>::empty();
    let e1 = channel_entries(Channel::Title, t);
    let e2 = channel_entries(Channel::Bm25, l);
    let e3 = channel_entries(Channel::TrigramVector, v);
    assert(e0 + e1 =~= e1);
    lemma_ranking(e0, Channel::Title, t, id, i);
    lemma_ranking(e1, Channel::Bm25, l, id, j);
    lemma_ranking(e1 + e2, Channel::TrigramVector, v, id, k);
    assert(all_entries(t, l, v) =~= e1 + e2 + e3);
}

proof fn lemma_ranking(entries: Seq<Entry>, c: Channel, ids: Seq<Seq<char>>, id: Seq<char>, i: int)
    requires
        is_at(ids, id, i) || !ids.contains(id),
    ensures
        score_of(entries + channel_entries(c, ids), id) == if ids.contains(id) {
            sum(24, score_of(entries, id), term(c, i as nat))
        } else {
            score_of(entries, id)
        },
{
    if ids.contains(id) {
        lemma_one_place(entries, c, ids, id, i);
    } else {
        let all = channel_entries(c, ids);
        assert forall|j: int| 0 <= j < all.len() implies (#[trigger] all[j]).id != id by {
            assert(ids.contains(ids[j]));
        }
        lemma_no_place(entries, all, id);
    }
}

/// What two rankings add is more than what either adds.
pub proof fn law_second_place_scores_more(a: Channel, i: nat, b: Channel, j: nat)
    requires
        i < 0x1_0000,
        j < 0x1_0000,
    ensures
        !no_greater(sum(24, term(a, i), term(b, j)), term(a, i)),
        !no_greater(sum(24, term(a, i), term(b, j)), term(b, j)),
{
    lemma_term_range(a, i);
    lemma_term_range(b, j);
    lemma_sum_is_more(24, term(a, i), term(b, j));
    lemma_sum_is_more(24, term(b, j), term(a, i));
    assert(sum(24, term(a, i), term(b, j)) == sum(24, term(b, j), term(a, i)));
}

proof fn lemma_term_range(c: Channel, rank: nat)
    requires
        rank < 0x1_0000,
    ensures
        is_number(24, term(c, rank)),
        term(c, rank).m > 0,
        -43 <= term(c, rank).e <= -27,
{
    lemma_pow2_values();
    vstd::arithmetic::power2::lemma2_to64();
    lemma_term(c, rank);
    let n = (61 + rank) as nat;
    let k = lemma_kept_integer(24, n);
    lemma_integer_range(24, n);
    lemma_quotient_is(24, weight(c), rounded(24, n as int, 1));
    assert(7 <= k <= 18) by {
        if k < 7 {
            crate::float::lemma_pow2_mono(k, 6);
            assert(n * pow2(k) <= n * 64) by (nonlinear_arith)
                requires
                    pow2(k) <= 64,
            ;
        }
        if k > 18 {
            crate::float::lemma_pow2_mono(19, k);
            assert(n * pow2(k) >= n * 0x8_0000) by (nonlinear_arith)
                requires
                    pow2(k) >= 0x8_0000,
            ;
        }
    }
}

/// Each ranking is asked for six notes for each result, and for no fewer than
/// thirty.
pub proof fn law_pool_is_six_for_each_result(limit: nat)
    requires
        6 * limit <= usize::MAX,
    ensures
        pool_for(limit) >= 30,
        pool_for(limit) >= 6 * limit,
        pool_for(limit) == 30 || pool_for(limit) == 6 * limit,
{
}

} // verus!
