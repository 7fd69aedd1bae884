//! What a ranking of notes holds, in which order, and what it leaves out.

use vstd::arithmetic::power2::{lemma_pow2_adds, lemma_pow2_pos, pow2};
use vstd::prelude::*;

use super::channel::HitModel;
use super::projection::ChunkModel;
use super::rank::{reciprocal, score_bits, MAX_CHANNEL_HITS, MAX_RRF_K};
use super::ranking::{
    candidate_ranks, channel_best, crowded_out, is_candidate, is_ranking, lexical_hit,
    one_per_note, ranked_of, ranks_before, semantic_hit, snippet_of, stands_for, RankInput,
    RankedModel,
};
use crate::float::{
    double_bits, lemma_pow2_mono, lemma_pow2_step, lemma_pow2_values, nearest_even, rounded, two_to,
};
use crate::rounding::{lemma_integer_range, lemma_kept_integer, lemma_quotient_is};
use crate::text::text_lt;

verus! {

/// In a ranking no note scores less than one behind it, and of equal scores the
/// smaller identifier comes first.
pub proof fn law_greater_scores_rank_first(
    out: Seq<RankedModel>,
    x: RankInput,
    limit: int,
    i: int,
    j: int,
)
    requires
        is_ranking(out, x, limit),
        0 <= i < j < out.len(),
    ensures
        out[i].rank_score_bits >= out[j].rank_score_bits,
        out[i].rank_score_bits == out[j].rank_score_bits ==> text_lt(
            out[i].note_id,
            out[j].note_id,
        ),
{
    reveal(ranks_before);
    reveal(one_per_note);
    assert(ranks_before(out[i], out[j]));
    let c = choose|c: ChunkModel| is_candidate(x, c) && out[i] == #[trigger] ranked_of(x, c);
    let d = choose|d: ChunkModel| is_candidate(x, d) && out[j] == #[trigger] ranked_of(x, d);
    assert(out[i].note_id != out[j].note_id);
}

/// The best hit of a channel for a chunk is one of its hits with the lowest rank.
pub proof fn law_lowest_rank_counts(hits: Seq<HitModel>, n: int, id: Seq<char>)
    requires
        0 <= n <= hits.len(),
    ensures
        channel_best(hits, n, id) is Some <==> exists|j: int|
            0 <= j < n && (#[trigger] hits[j]).chunk_id == id,
        channel_best(hits, n, id) matches Some(h) ==> h.chunk_id == id && (exists|j: int|
            0 <= j < n && #[trigger] hits[j] == h) && forall|j: int|
            0 <= j < n && (#[trigger] hits[j]).chunk_id == id ==> h.rank <= hits[j].rank,
    decreases n,
{
    if n > 0 {
        law_lowest_rank_counts(hits, n - 1, id);
        let before = channel_best(hits, n - 1, id);
        if hits[n - 1].chunk_id == id {
            let h = channel_best(hits, n, id)->0;
            if before is Some && h == before->0 {
                let j = choose|j: int| 0 <= j < n - 1 && #[trigger] hits[j] == before->0;
                assert(hits[j] == h);
            }
        } else if before is Some {
            let j = choose|j: int| 0 <= j < n - 1 && #[trigger] hits[j] == before->0;
            assert(hits[j] == before->0);
        }
    }
}

/// Whether a channel hit a chunk.
pub open spec fn was_hit(hits: Seq<HitModel>, id: Seq<char>) -> bool {
    exists|j: int| 0 <= j < hits.len() && (#[trigger] hits[j]).chunk_id == id
}

/// A note with a stored chunk that a channel hit is ranked, but for the note that
/// the search came from, and scores no less than the chunk does. It is left out only
/// where as many as were asked for score no less.
pub proof fn law_hit_note_is_ranked(
    out: Seq<RankedModel>,
    x: RankInput,
    limit: int,
    c: ChunkModel,
)
    requires
        is_ranking(out, x, limit),
        x.store.chunks.contains(c),
        was_hit(x.lexical, c.chunk_id) || was_hit(x.semantic, c.chunk_id),
        x.origin != Some(c.note_id),
    ensures
        ({
            let score = score_bits(
                candidate_ranks(lexical_hit(x, c.chunk_id), semantic_hit(x, c.chunk_id)),
                x.rrf_k,
            ) as u64;
            ||| exists|i: int|
                0 <= i < out.len() && (#[trigger] out[i]).note_id == c.note_id
                    && out[i].rank_score_bits >= score
            ||| out.len() == limit && forall|i: int|
                0 <= i < out.len() ==> (#[trigger] out[i]).rank_score_bits >= score
        }),
{
    reveal(ranks_before);
    reveal(one_per_note);
    law_lowest_rank_counts(x.lexical, x.lexical.len() as int, c.chunk_id);
    law_lowest_rank_counts(x.semantic, x.semantic.len() as int, c.chunk_id);
    assert(is_candidate(x, c));
    if stands_for(out, x, c) {
        let i = choose|i: int|
            0 <= i < out.len() && (#[trigger] out[i]).note_id == c.note_id && !ranks_before(
                ranked_of(x, c),
                out[i],
            );
        let d = choose|d: ChunkModel| is_candidate(x, d) && out[i] == #[trigger] ranked_of(x, d);
        assert(out[i].rank_score_bits >= ranked_of(x, c).rank_score_bits);
    } else {
        assert(crowded_out(out, x, c, limit));
        assert forall|i: int| 0 <= i < out.len() implies (#[trigger] out[i]).rank_score_bits
            >= ranked_of(x, c).rank_score_bits by {
            assert(ranks_before(out[i], ranked_of(x, c)));
            let d = choose|d: ChunkModel|
                is_candidate(x, d) && out[i] == #[trigger] ranked_of(x, d);
            assert(out[i] == ranked_of(x, d));
        }
    }
}

/// Every ranked note is that of a stored chunk that a channel hit, with the start of
/// the chunk and the name of what found it. The evidence is the best hit of each
/// channel, and the score that of their ranks.
pub proof fn law_ranked_note_was_hit(
    out: Seq<RankedModel>,
    x: RankInput,
    limit: int,
    i: int,
) -> (c: ChunkModel)
    requires
        is_ranking(out, x, limit),
        0 <= i < out.len(),
    ensures
        x.store.chunks.contains(c),
        out[i].note_id == c.note_id,
        out[i].chunk_id == c.chunk_id,
        out[i].title == c.title,
        x.origin != Some(c.note_id),
        out[i].lexical is Some <==> was_hit(x.lexical, c.chunk_id),
        out[i].semantic is Some <==> was_hit(x.semantic, c.chunk_id),
        out[i].lexical is Some || out[i].semantic is Some,
        out[i].lexical matches Some(h) ==> forall|j: int|
            0 <= j < x.lexical.len() && (#[trigger] x.lexical[j]).chunk_id == c.chunk_id ==> h.rank
                <= x.lexical[j].rank,
        out[i].semantic matches Some(h) ==> forall|j: int|
            0 <= j < x.semantic.len() && (#[trigger] x.semantic[j]).chunk_id == c.chunk_id
                ==> h.rank <= x.semantic[j].rank,
        out[i].rank_score_bits == score_bits(
            match (out[i].lexical, out[i].semantic) {
                (Some(a), Some(b)) => seq![a.rank, b.rank],
                (Some(a), None) => seq![a.rank],
                (None, Some(b)) => seq![b.rank],
                (None, None) => Seq::empty(),
            },
            x.rrf_k,
        ) as u64,
        !out[i].exact_lexical_title,
        out[i].snippet == snippet_of(c.text),
        out[i].lexical is Some && out[i].semantic is Some ==> out[i].source == "hybrid"@,
        out[i].lexical is None ==> out[i].source == "semantic"@,
        out[i].lexical is Some && out[i].semantic is None && x.semantic_available ==> out[i].source
            == "lexical"@,
        out[i].lexical is Some && out[i].semantic is None && !x.semantic_available
            ==> out[i].source == "lexical-fallback"@,
{
    reveal(one_per_note);
    let c = choose|c: ChunkModel| is_candidate(x, c) && out[i] == #[trigger] ranked_of(x, c);
    assert(is_candidate(x, c) && out[i] == ranked_of(x, c));
    law_lowest_rank_counts(x.lexical, x.lexical.len() as int, c.chunk_id);
    law_lowest_rank_counts(x.semantic, x.semantic.len() as int, c.chunk_id);
    c
}

/// The bits of a positive double with a significand and an exponent.
pub open spec fn bits_with(m: int, e: int) -> int {
    (e + 1075) * 0x10_0000_0000_0000 + m - 0x10_0000_0000_0000
}

proof fn lemma_nearest_is_near(x: nat, d: nat)
    requires
        d > 0,
    ensures
        2 * x - d <= 2 * (nearest_even(x, d) * d) <= 2 * x + d,
{
    let q = x / d;
    let r = x % d;
    vstd::arithmetic::div_mod::lemma_fundamental_div_mod(x as int, d as int);
    assert(x == q * d + r) by (nonlinear_arith)
        requires
            x == d * q + r,
    ;
    assert((q + 1) * d == q * d + d) by (nonlinear_arith);
}

/// The reciprocal of an integer lies between those of the next integers.
proof fn lemma_reciprocal_is_near(n: nat)
    requires
        1 < n <= MAX_RRF_K + MAX_CHANNEL_HITS,
    ensures
        ({
            let t = reciprocal(n);
            &&& t.m > 0 && t.e < 0
            &&& t.m * (n + 1) > pow2((-t.e) as nat)
            &&& t.m * (n - 1) < pow2((-t.e) as nat)
        }),
{
    lemma_pow2_values();
    vstd::arithmetic::power2::lemma2_to64();
    vstd::arithmetic::power2::lemma2_to64_rest();
    let w = two_to(53, 0);
    let b = rounded(53, n as int, 1);
    let k = lemma_kept_integer(53, n);
    lemma_integer_range(53, n);
    lemma_quotient_is(53, w, b);
    let t = reciprocal(n);
    let pk = pow2(k);
    assert(2 <= pk) by {
        lemma_pow2_pos(k);
        if k == 0 {
            assert(n * 1 == n);
        } else {
            lemma_pow2_mono(1, k);
        }
    }
    let (m, f) = if w.m >= b.m {
        (nearest_even((w.m * pow2(52)) as nat, b.m as nat), 52nat)
    } else {
        (nearest_even((w.m * pow2(53)) as nat, b.m as nat), 53nat)
    };
    assert(k <= 52);
    let x = (w.m * pow2(f)) as nat;
    assert(w.m * pow2(f) >= 0) by (nonlinear_arith)
        requires
            w.m > 0,
            pow2(f) > 0,
    ;
    lemma_nearest_is_near(x, b.m as nat);
    let e = -52 + k - f;
    let s = (-e) as nat;
    lemma_pow2_pos(s);
    lemma_pow2_adds(s, k);
    lemma_pow2_adds(f, 52);
    let ps = pow2(s);
    assert(ps * pk == pow2(f) * pow2(52));
    assert(x == ps * pk) by (nonlinear_arith)
        requires
            x == w.m * pow2(f),
            w.m == pow2(52),
            ps * pk == pow2(f) * pow2(52),
    ;
    assert(m >= pow2(52));
    assert((m * (n + 1)) * pk == m * (n * pk) + m * pk) by (nonlinear_arith);
    assert((m * (n - 1)) * pk == m * (n * pk) - m * pk) by (nonlinear_arith);
    assert(m * pk >= 2 * pow2(52)) by (nonlinear_arith)
        requires
            m >= pow2(52),
            pk >= 2,
    ;
    let a = m * (n + 1);
    let c = m * (n - 1);
    assert(a * pk > ps * pk);
    assert(c * pk < ps * pk);
    assert(a > ps) by (nonlinear_arith)
        requires
            a * pk > ps * pk,
            pk > 0,
    ;
    assert(c < ps) by (nonlinear_arith)
        requires
            c * pk < ps * pk,
            pk > 0,
    ;
    if t.e == e + 1 {
        lemma_pow2_step((-t.e) as nat);
        assert((2 * pow2(52)) * (n + 1) == 2 * (pow2(52) * (n + 1))) by (nonlinear_arith);
        assert((2 * pow2(52)) * (n - 1) == 2 * (pow2(52) * (n - 1))) by (nonlinear_arith);
    }
}

/// A hit of one channel scores the reciprocal of the sum of the constant and its
/// rank: the score, a number `m * 2^e`, lies between the reciprocals of the next
/// sums.
pub proof fn law_rank_scores_its_reciprocal(rrf_k: usize, rank: usize) -> (t: (int, int))
    requires
        0 < rrf_k <= MAX_RRF_K,
        0 < rank <= MAX_CHANNEL_HITS,
    ensures
        score_bits(seq![rank], rrf_k) == bits_with(t.0, t.1),
        t.0 > 0,
        t.1 < 0,
        t.0 * (rrf_k + rank + 1) > pow2((-t.1) as nat),
        t.0 * (rrf_k + rank - 1) < pow2((-t.1) as nat),
{
    reveal(score_bits);
    lemma_pow2_values();
    vstd::arithmetic::power2::lemma2_to64_rest();
    let n = (rrf_k + rank) as nat;
    lemma_reciprocal_is_near(n);
    let t = reciprocal(n);
    assert(double_bits(t) == bits_with(t.m, t.e));
    (t.m, t.e)
}

} // verus!
