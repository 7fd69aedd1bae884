//! Which vectors a search by cosine finds, and what their cosines do not depend
//! on.

use vstd::prelude::*;

use super::channel::{total_order_key, HitModel};
use super::ranking::snippet_of;
use super::blocks::{floor_index, lemma_floor_index};
use super::vectors::{
    are_minus_zero, cosine_bits, cosine_candidates, cosine_hits, cosines_of, dot, is_minus_zero,
    squared, FixtureModel,
};
use crate::float::single_as_double;
use crate::order::{is_among_first, lemma_first_ranked, outranks, ranked};
use crate::text::{byte_len, byte_off, lemma_byte_off_mono, text_lt};

verus! {

/// A search gives as many hits as asked for, as far as there are so many vectors.
/// Each has the identity and the cosine of a vector.
pub proof fn law_hits_are_those_of_vectors(
    query: Seq<u32>,
    vectors: Seq<FixtureModel>,
    limit: usize,
    i: int,
) -> (v: int)
    requires
        vectors.len() <= usize::MAX,
        0 <= i < cosine_hits(query, vectors, limit as int).len(),
    ensures
        cosine_hits(query, vectors, limit as int).len() == if limit < vectors.len() {
            limit as int
        } else {
            vectors.len() as int
        },
        0 <= v < vectors.len(),
        cosine_hits(query, vectors, limit as int)[i].chunk_id == vectors[v].chunk_id,
        cosine_hits(query, vectors, limit as int)[i].raw_score_bits == cosine_bits(
            query,
            vectors[v].vector,
        ),
{
    let cs = cosine_candidates(vectors, cosines_of(query, vectors));
    lemma_first_ranked(cs, cs.len() as int);
    ranked(cs)[i].index as int
}

/// Whether a hit comes before a vector: it is more similar, or as similar with no
/// greater an identity.
pub open spec fn is_nearer(h: HitModel, score: u32, id: Seq<char>) -> bool {
    ||| total_order_key(h.raw_score_bits) > total_order_key(score)
    ||| total_order_key(h.raw_score_bits) == total_order_key(score) && (h.chunk_id == id || text_lt(
        h.chunk_id,
        id,
    ))
}

/// A search finds the most similar vectors: one is left out only of a full answer,
/// every hit of which is at least as similar.
pub proof fn law_most_similar_vectors_are_found(
    query: Seq<u32>,
    vectors: Seq<FixtureModel>,
    limit: usize,
    v: int,
)
    requires
        vectors.len() <= usize::MAX,
        0 <= v < vectors.len(),
    ensures
        ({
            let out = cosine_hits(query, vectors, limit as int);
            let score = cosine_bits(query, vectors[v].vector);
            ||| exists|i: int|
                0 <= i < out.len() && (#[trigger] out[i]).chunk_id == vectors[v].chunk_id
                    && out[i].raw_score_bits == score
            ||| out.len() == limit && forall|i: int|
                0 <= i < out.len() ==> is_nearer(#[trigger] out[i], score, vectors[v].chunk_id)
        }),
{
    let cosines = cosines_of(query, vectors);
    let cs = cosine_candidates(vectors, cosines);
    let out = cosine_hits(query, vectors, limit as int);
    let order = ranked(cs);
    lemma_first_ranked(cs, out.len() as int);
    assert(cs[v].index == v);
    if is_among_first(cs, out.len() as int, v) {
        let i = choose|i: int| 0 <= i < out.len() && (#[trigger] order[i]).index == v;
        assert(out[i].chunk_id == vectors[v].chunk_id);
    } else {
        assert forall|i: int| 0 <= i < out.len() implies is_nearer(
            #[trigger] out[i],
            cosines[v],
            vectors[v].chunk_id,
        ) by {
            assert(outranks(order[i], cs[v]));
            assert(order[i] == cs[order[i].index as int]);
        }
    }
}

proof fn lemma_dot_symmetric(a: Seq<u32>, b: Seq<u32>, n: int)
    ensures
        dot(a, b, n) == dot(b, a, n),
    decreases n,
{
    if n > 0 {
        lemma_dot_symmetric(a, b, n - 1);
        let x = single_as_double(a[n - 1]);
        let y = single_as_double(b[n - 1]);
        assert(x.m * y.m == y.m * x.m) by (nonlinear_arith);
    }
}

/// The cosine does not depend on which vector is which.
pub proof fn law_cosine_is_symmetric(a: Seq<u32>, b: Seq<u32>)
    requires
        a.len() == b.len(),
    ensures
        cosine_bits(a, b) == cosine_bits(b, a),
{
    reveal(cosine_bits);
    lemma_dot_symmetric(a, b, a.len() as int);
    let x = crate::float::root(53, squared(a));
    let y = crate::float::root(53, squared(b));
    assert(x.m * y.m == y.m * x.m) by (nonlinear_arith);
    if are_minus_zero(a, b) {
        assert forall|i: int| 0 <= i < b.len() implies is_minus_zero(#[trigger] b[i], a[i]) by {
            assert(is_minus_zero(a[i], b[i]));
        }
    }
    if are_minus_zero(b, a) {
        assert forall|i: int| 0 <= i < a.len() implies is_minus_zero(#[trigger] a[i], b[i]) by {
            assert(is_minus_zero(b[i], a[i]));
        }
    }
}

/// A snippet is the start of its text, all of it up to 160 bytes, and of a longer
/// text as many characters as fit into 160 bytes, with an ellipsis.
pub proof fn law_snippet_is_the_start(text: Seq<char>) -> (n: int)
    ensures
        0 <= n <= text.len(),
        byte_off(text, n) <= 160,
        byte_len(text) <= 160 ==> snippet_of(text) == text,
        byte_len(text) > 160 ==> snippet_of(text) == text.take(n) + "…"@ && n < text.len()
            && byte_off(text, n + 1) > 160,
{
    let n = floor_index(text, 0, text.len() as int, 160);
    lemma_floor_index(text, 0, text.len() as int, 160);
    lemma_byte_off_mono(text, 0, n);
    n
}

} // verus!
