//! What ranks, ages and words add to scores.

use vstd::arithmetic::power2::pow2;
use vstd::prelude::*;

use super::fusion::{contribution, rank_score, weight_bits, FusionConfig, SourceRank};
use super::progressive::{halvings_at, working_score};
use super::rerank::{
    count_score, mean_words, term_count, term_score, terms_score, total_words,
};
use super::segment::{cooled, SegmentModel};
use crate::double::{
    bits_for, integer_bits, number_of, quotient_bits, ratio_bits, sum_bits, INFINITY, ONE,
};
use crate::float::{
    double_bits, fits, is_number, lemma_pow2_step, lemma_pow2_values, lemma_rounded, nearest_even,
    product, quotient, rounded, rounded_size, sum, Number,
};
use crate::quant::binary::tally;
use crate::rounding::{
    lemma_integer_range, lemma_integers_add_up, lemma_kept_integer, lemma_rounding_scales,
};
use crate::shadow::matching::lowercase;
use crate::words::words;

verus! {

/// The bits of a positive number in the normal range stand for that number.
proof fn lemma_number_is_kept(a: Number)
    requires
        is_number(53, a),
        a.m > 0,
        -1074 <= a.e <= 971,
    ensures
        0 < bits_for(a) < INFINITY,
        number_of(bits_for(a)) == a,
{
    lemma_pow2_values();
    let _ = lemma_kept_integer(53, a.m as nat);
    assert(a.m * 1 == a.m);
}

proof fn lemma_integer(n: nat)
    requires
        0 < n <= u64::MAX,
    ensures
        0 < integer_bits(n) < INFINITY,
        number_of(integer_bits(n)) == rounded(53, n as int, 1),
{
    lemma_integer_range(53, n);
    lemma_number_is_kept(rounded(53, n as int, 1));
}

/// A rank adds the weight of its source divided by the sum of the constant and the
/// rank, where the constant is an integer.
pub proof fn law_rank_adds_a_weighted_reciprocal(c: FusionConfig, at: SourceRank, k: nat)
    requires
        c.rrf_k == integer_bits(k),
        k < 0x20_0000_0000_0000,
        0 < at.rank < 0x20_0000_0000_0000,
    ensures
        contribution(c, at) == quotient_bits(
            weight_bits(c.source_weights, at.source),
            integer_bits((k + at.rank) as nat),
        ),
{
    lemma_pow2_values();
    vstd::arithmetic::power2::lemma2_to64();
    let r = at.rank as nat;
    lemma_integer(r);
    lemma_integer(k + r);
    lemma_integers_add_up(53, k, r);
    if k > 0 {
        lemma_integer(k);
    } else {
        assert(number_of(0).m == 0);
    }
    assert(rounded(53, (k + r) as int, 1).m != 0) by {
        lemma_integer_range(53, k + r);
    }
    assert(sum(53, number_of(integer_bits(k)), number_of(integer_bits(r))) == rounded(
        53,
        (k + r) as int,
        1,
    ));
}

/// No ranks score nothing, and one more adds what it is worth to what there was.
pub proof fn law_ranks_add_up(c: FusionConfig, ranks: Seq<SourceRank>, at: SourceRank)
    ensures
        rank_score(c, Seq::empty()) == 0,
        rank_score(c, ranks.push(at)) == sum_bits(rank_score(c, ranks), contribution(c, at)),
{
    assert(ranks.push(at).drop_last() =~= ranks);
}

/// A number divided by itself is one.
proof fn lemma_quotient_of_itself(m: nat)
    requires
        m > 0,
    ensures
        rounded_size(53, m, m) == (Number { m: pow2(52) as int, e: -52 }),
{
    lemma_pow2_values();
    lemma_pow2_step(52);
    let x = m * pow2(52);
    assert(pow2(52) * m <= m * pow2(52) && m * pow2(52) < pow2(53) * m) by (nonlinear_arith)
        requires
            pow2(53) == 2 * pow2(52),
            pow2(52) > 0,
            m > 0,
    ;
    assert(fits(53, m, m, -52));
    lemma_rounded(53, m, m, -52);
    vstd::arithmetic::div_mod::lemma_fundamental_div_mod_converse(
        x as int,
        m as int,
        pow2(52) as int,
        0,
    );
    assert(nearest_even(x, m) == pow2(52)) by {
        assert(x == pow2(52) * m + 0) by (nonlinear_arith)
            requires
                x == m * pow2(52),
        ;
        vstd::arithmetic::div_mod::lemma_fundamental_div_mod_converse(
            x as int,
            m as int,
            pow2(52) as int,
            0,
        );
    }
}

proof fn lemma_one_of_itself(n: nat)
    requires
        0 < n <= u64::MAX,
    ensures
        quotient_bits(integer_bits(n), integer_bits(n)) == ONE,
{
    lemma_pow2_values();
    vstd::arithmetic::power2::lemma2_to64();
    lemma_integer(n);
    lemma_integer_range(53, n);
    let a = rounded(53, n as int, 1);
    lemma_quotient_of_itself(a.m as nat);
    assert(ratio_bits(a.m as nat, a.m as nat, 0) == ONE);
}

/// What is as old as the half-life is halved once, and what is new is not halved.
pub proof fn law_half_life_halves_once(half_life: u64)
    requires
        half_life > 0,
    ensures
        halvings_at(half_life, half_life) == Some(ONE),
        halvings_at(0, half_life) is None,
{
    lemma_one_of_itself(half_life as nat);
}

/// A segment that was not searched for a half-life is as warm as half its searches,
/// and one that was just searched has not cooled.
pub proof fn law_segment_cools_once_in_a_half_life(s: SegmentModel, half_life: u64)
    requires
        half_life > 0,
        s.last_access + half_life <= u64::MAX,
    ensures
        cooled(s, (s.last_access + half_life) as u64, half_life) == ONE,
        cooled(s, s.last_access, half_life) == 0,
{
    lemma_one_of_itself(half_life as nat);
    lemma_integer(half_life as nat);
}

/// Words that equal a term are counted, whatever the case of their letters.
pub proof fn law_words_that_equal_a_term_are_counted(term: Seq<char>, ws: Seq<Seq<char>>)
    ensures
        term_count(term, ws) == tally(ws.len(), |i: int| lowercase(ws[i]) == lowercase(term)),
    decreases ws.len(),
{
    if ws.len() > 0 {
        law_words_that_equal_a_term_are_counted(term, ws.drop_last());
        lemma_tally_front(term, ws, (ws.len() - 1) as nat);
    }
}

proof fn lemma_tally_front(term: Seq<char>, ws: Seq<Seq<char>>, n: nat)
    requires
        n < ws.len(),
    ensures
        tally(n, |i: int| lowercase(ws.drop_last()[i]) == lowercase(term)) == tally(
            n,
            |i: int| lowercase(ws[i]) == lowercase(term),
        ),
    decreases n,
{
    if n > 0 {
        lemma_tally_front(term, ws, (n - 1) as nat);
        let f = |i: int| lowercase(ws.drop_last()[i]) == lowercase(term);
        let g = |i: int| lowercase(ws[i]) == lowercase(term);
        assert(f(n - 1) == g(n - 1));
    }
}

/// A document without any of the terms scores nothing.
pub proof fn law_without_terms_nothing_is_scored(
    terms: Seq<Seq<char>>,
    ws: Seq<Seq<char>>,
    mean: Number,
)
    requires
        terms.len() > 0,
        forall|t: int, i: int|
            0 <= t < terms.len() && 0 <= i < ws.len() ==> lowercase(#[trigger] ws[i]) != lowercase(
                #[trigger] terms[t],
            ),
    ensures
        count_score(terms, ws, mean) == 0,
{
    lemma_nothing_scored(terms, ws, mean);
}

proof fn lemma_nothing_scored(terms: Seq<Seq<char>>, ws: Seq<Seq<char>>, mean: Number)
    requires
        forall|t: int, i: int|
            0 <= t < terms.len() && 0 <= i < ws.len() ==> lowercase(#[trigger] ws[i]) != lowercase(
                #[trigger] terms[t],
            ),
    ensures
        terms_score(terms, ws, mean).m == 0,
    decreases terms.len(),
{
    if terms.len() > 0 {
        let front = terms.drop_last();
        assert forall|t: int, i: int| 0 <= t < front.len() && 0 <= i < ws.len() implies lowercase(
            #[trigger] ws[i],
        ) != lowercase(#[trigger] front[t]) by {
            assert(front[t] == terms[t]);
        }
        lemma_nothing_scored(front, ws, mean);
        assert(terms.last() == terms[terms.len() - 1]);
        lemma_none_counted(terms.last(), ws, ws);
    }
}

proof fn lemma_none_counted(term: Seq<char>, ws: Seq<Seq<char>>, all: Seq<Seq<char>>)
    requires
        ws.len() <= all.len(),
        forall|i: int| 0 <= i < ws.len() ==> ws[i] == all[i],
        forall|i: int| 0 <= i < all.len() ==> lowercase(#[trigger] all[i]) != lowercase(term),
    ensures
        term_count(term, ws) == 0,
    decreases ws.len(),
{
    if ws.len() > 0 {
        lemma_none_counted(term, ws.drop_last(), all);
        assert(ws.last() == all[ws.len() - 1]);
    }
}

/// An item all of whose keywords are met scores three, the weight of what is at
/// hand.
pub proof fn law_item_that_is_met_in_full_scores_three(n: nat)
    requires
        0 < n <= u64::MAX,
    ensures
        double_bits(working_score(n, n)) == 0x4008_0000_0000_0000,
{
    lemma_pow2_values();
    vstd::arithmetic::power2::lemma2_to64();
    vstd::arithmetic::power2::lemma2_to64_rest();
    lemma_integer_range(53, n);
    let a = rounded(53, n as int, 1);
    lemma_quotient_of_itself(a.m as nat);
    let q = quotient(53, a, a);
    assert(q == (Number { m: pow2(52) as int, e: -52 }));
    let three = rounded(53, 3, 1);
    let k = lemma_kept_integer(53, 3);
    if k > 51 {
        crate::float::lemma_pow2_mono(52, k);
    }
    if k < 51 {
        crate::float::lemma_pow2_mono(k, 50);
    }
    assert(three == (Number { m: (3 * pow2(51)) as int, e: -51 }));
    vstd::arithmetic::power2::lemma_pow2_adds(52, 51);
    assert(pow2(52) * (3 * pow2(51)) == 3 * pow2(103)) by (nonlinear_arith)
        requires
            pow2(103) == pow2(52) * pow2(51),
    ;
    lemma_rounding_scales(53, 3, 103);
    assert(product(53, q, three) == three);
}

/// A half-life of nothing counts as one of one.
pub proof fn law_least_half_life_is_one(s: SegmentModel, clock: u64)
    ensures
        cooled(s, clock, 0) == cooled(s, clock, 1),
{
}

/// What a term adds to the score of a document: `n (k + 1) / (n + k (1/4 + 3/4 l / m))`
/// for `n` occurrences among `l` words, if documents have `m` words in the mean and `k`
/// is the double nearest to 1.2. A term that does not occur adds nothing.
pub proof fn law_term_score(count: nat, length: nat, mean: Number)
    ensures
        term_score(0, length, mean) == (Number { m: 0, e: 0 }),
        count > 0 ==> ({
            let n = rounded(53, count as int, 1);
            let k = Number { m: 5404319552844595, e: -52 };
            let one = Number { m: 4503599627370496, e: -52 };
            let quarter = Number { m: 4503599627370496, e: -54 };
            let rest = Number { m: 6755399441055744, e: -53 };
            let relative = quotient(53, product(53, rest, rounded(53, length as int, 1)), mean);
            term_score(count, length, mean) == quotient(
                53,
                product(53, n, sum(53, k, one)),
                sum(53, n, product(53, k, sum(53, quarter, relative))),
            )
        }),
{
    lemma_pow2_values();
}

/// Words are added up document by document, and divided by the number of documents.
pub proof fn law_mean_is_that_of_the_words(documents: Seq<Seq<char>>, d: Seq<char>)
    ensures
        total_words(documents.push(d)) == sum(
            53,
            total_words(documents),
            rounded(53, words(d).len() as int, 1),
        ),
        total_words(Seq::empty()) == (Number { m: 0, e: 0 }),
        mean_words(documents.push(d)) == quotient(
            53,
            total_words(documents.push(d)),
            rounded(53, (documents.len() + 1) as int, 1),
        ),
{
    assert(documents.push(d).drop_last() =~= documents);
}

/// One more term adds its score, and none score nothing.
pub proof fn law_term_scores_add_up(
    terms: Seq<Seq<char>>,
    term: Seq<char>,
    ws: Seq<Seq<char>>,
    mean: Number,
)
    ensures
        terms_score(Seq::empty(), ws, mean) == (Number { m: 0, e: 0 }),
        terms_score(terms.push(term), ws, mean) == sum(
            53,
            terms_score(terms, ws, mean),
            term_score(term_count(term, ws), ws.len(), mean),
        ),
{
    assert(terms.push(term).drop_last() =~= terms);
}

} // verus!
