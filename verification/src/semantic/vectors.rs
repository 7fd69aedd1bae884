//! Ranking of vectors by their similarity to a query. Components are the bits
//! of single-precision numbers.

use vstd::arithmetic::power2::pow2;
use vstd::prelude::*;

use super::channel::{
    bits_are_finite, bits_order_key, hit_views, is_finite_bits, total_order_key, ChannelHit,
    HitModel,
};
use super::error::FreeSemanticError;
use super::manifest::MAX_VECTOR_DIMENSION;
use super::rank::MAX_CHANNEL_HITS;
use crate::digest::{is_canonical_chunk_id, is_chunk_id};
use crate::float::{
    aligned, as_double, divide_by, is_multiple, is_number, lemma_multiple_is_large, multiply,
    narrow, narrowed, negated, number_two_to, plus, positive_double_bits, product, quotient, root,
    single_as_double, square_root, sum, times, to_positive_double_bits, two_to, Number, Rounded,
};
use crate::order::{
    candidate_models, law_ranked_is_in_order, lemma_ranked_places, outranks, rank_candidates,
    ranked, Candidate, CandidateModel,
};
use crate::single::NEGATIVE_ZERO;
use crate::text::text_eq;

verus! {

/// The most vectors of a search.
pub const MAX_VECTOR_COUNT: usize = 16_384;

/// A vector and the chunk that it stands for.
#[derive(Debug, PartialEq, Eq)]
pub struct VectorFixture {
    pub chunk_id: String,
    pub vector: Vec<u32>,
}

#[verifier::ext_equal]
pub struct FixtureModel {
    pub chunk_id: Seq<char>,
    pub vector: Seq<u32>,
}

impl View for VectorFixture {
    type V = FixtureModel;

    open spec fn view(&self) -> FixtureModel {
        FixtureModel { chunk_id: self.chunk_id@, vector: self.vector@ }
    }
}

pub open spec fn fixture_models(v: Seq<VectorFixture>) -> Seq<FixtureModel> {
    v.map_values(|x: VectorFixture| x@)
}

/// Whether a vector has components, not too many, and all are finite.
pub open spec fn vector_ok(v: Seq<u32>) -> bool {
    &&& 0 < v.len() <= MAX_VECTOR_DIMENSION
    &&& forall|i: int| 0 <= i < v.len() ==> is_finite_bits(#[trigger] v[i])
}

/// Refuses a vector without components, with too many, or with one that is not
/// finite.
pub fn validate_vector(vector: &[u32]) -> (r: Result<(), FreeSemanticError>)
    ensures
        r is Ok <==> vector_ok(vector@),
        r matches Err(e) ==> e == FreeSemanticError::InvalidVector,
{
    if vector.len() == 0 || vector.len() > MAX_VECTOR_DIMENSION {
        return Err(FreeSemanticError::InvalidVector);
    }
    let mut i: usize = 0;
    while i < vector.len()
        invariant
            i <= vector@.len(),
            forall|k: int| 0 <= k < i ==> is_finite_bits(#[trigger] vector@[k]),
        decreases vector@.len() - i,
    {
        if !bits_are_finite(vector[i]) {
            return Err(FreeSemanticError::InvalidVector);
        }
        i += 1;
    }
    Ok(())
}

/// The products of the components of two vectors, added up in double
/// precision and in their order.
pub open spec fn dot(a: Seq<u32>, b: Seq<u32>, n: int) -> Number
    decreases n,
{
    if n <= 0 {
        Number { m: 0, e: 0 }
    } else {
        sum(
            53,
            dot(a, b, n - 1),
            product(53, single_as_double(a[n - 1]), single_as_double(b[n - 1])),
        )
    }
}

/// The square of the length of a vector.
pub open spec fn squared(v: Seq<u32>) -> Number {
    dot(v, v, v.len() as int)
}

/// The bits of a millionth of a millionth. A vector whose squared length is no
/// more counts as zero.
pub const LENGTH_EPSILON: u64 = 0x3d71_9799_812d_ea11;

/// Whether the length of a vector does not count as zero.
pub open spec fn has_length(v: Seq<u32>) -> bool {
    positive_double_bits(squared(v)) > LENGTH_EPSILON
}

/// A number brought between minus one and one.
pub open spec fn clamped(a: Number) -> Number {
    if a.m > 0 && (a.e > -52 || a.e == -52 && a.m > pow2(52)) {
        two_to(53, 0)
    } else if a.m < 0 && (a.e > -52 || a.e == -52 && -a.m > pow2(52)) {
        negated(two_to(53, 0))
    } else {
        a
    }
}

/// The cosine of the angle between two vectors, computed in double precision.
pub open spec fn cosine(a: Seq<u32>, b: Seq<u32>) -> Number {
    clamped(
        quotient(
            53,
            dot(a, b, a.len() as int),
            product(53, root(53, squared(a)), root(53, squared(b))),
        ),
    )
}

/// Whether the product of two components is the negative zero.
pub open spec fn is_minus_zero(a: u32, b: u32) -> bool {
    (a % NEGATIVE_ZERO == 0 || b % NEGATIVE_ZERO == 0) && (a >= NEGATIVE_ZERO) != (b
        >= NEGATIVE_ZERO)
}

/// Whether all products are the negative zero, so that their sum is, too.
pub open spec fn are_minus_zero(a: Seq<u32>, b: Seq<u32>) -> bool {
    forall|i: int| 0 <= i < a.len() ==> is_minus_zero(#[trigger] a[i], b[i])
}

/// The bits of the single nearest to the cosine.
#[verifier::opaque]
pub open spec fn cosine_bits(a: Seq<u32>, b: Seq<u32>) -> u32 {
    if are_minus_zero(a, b) {
        NEGATIVE_ZERO
    } else {
        narrowed(cosine(a, b)) as u32
    }
}

/// The similarities of vectors to a query.
pub open spec fn cosines_of(query: Seq<u32>, vectors: Seq<FixtureModel>) -> Seq<u32> {
    vectors.map_values(|x: FixtureModel| cosine_bits(query, x.vector))
}

proof fn lemma_finite(bits: u32)
    ensures
        is_finite_bits(bits) <==> bits % 0x8000_0000 < 0x7f80_0000,
{
}

fn dot_product(a: &[u32], b: &[u32]) -> (r: Rounded)
    requires
        a@.len() == b@.len(),
        vector_ok(a@),
        vector_ok(b@),
    ensures
        r@ == dot(a@, b@, a@.len() as int),
        is_number(53, r@),
        r.m != 0 ==> -402 <= r.e <= 270,
        r.m == 0 ==> r.e == 0,
{
    let mut t: Rounded = Rounded { m: 0, e: 0 };
    let mut i: usize = 0;
    while i < a.len()
        invariant
            i <= a@.len() == b@.len(),
            vector_ok(a@),
            vector_ok(b@),
            t@ == dot(a@, b@, i as int),
            is_number(53, t@),
            is_multiple(t@, -350),
            t.m != 0 ==> -402 <= t.e <= 270,
            t.m == 0 ==> t.e == 0,
        decreases a@.len() - i,
    {
        proof {
            assert(is_finite_bits(a@[i as int]));
            assert(is_finite_bits(b@[i as int]));
            lemma_finite(a@[i as int]);
            lemma_finite(b@[i as int]);
        }
        let z: Rounded = multiply(53, as_double(a[i]), as_double(b[i]));
        let next: Rounded = plus(53, t, z);
        proof {
            assert(is_multiple(z@, -350));
            assert(is_multiple(next@, -350));
            crate::float::lemma_pow2_values();
            if next.m != 0 {
                lemma_multiple_is_large(53, next@, -350);
            }
        }
        t = next;
        i += 1;
    }
    t
}

proof fn lemma_square_is_no_less(v: Seq<u32>, n: int)
    requires
        0 <= n <= v.len(),
    ensures
        dot(v, v, n).m >= 0,
    decreases n,
{
    if n > 0 {
        lemma_square_is_no_less(v, n - 1);
        let x = single_as_double(v[n - 1]);
        assert(x.m * x.m >= 0) by (nonlinear_arith);
        lemma_sum_is_no_less(dot(v, v, n - 1), product(53, x, x));
    }
}

proof fn lemma_sum_is_no_less(a: Number, b: Number)
    requires
        a.m >= 0,
        b.m >= 0,
    ensures
        sum(53, a, b).m >= 0,
{
    let e = if a.e <= b.e {
        a.e
    } else {
        b.e
    };
    assert(aligned(a, e) >= 0) by (nonlinear_arith)
        requires
            aligned(a, e) == a.m * pow2((a.e - e) as nat),
            a.m >= 0,
            pow2((a.e - e) as nat) >= 0,
    ;
    assert(aligned(b, e) >= 0) by (nonlinear_arith)
        requires
            aligned(b, e) == b.m * pow2((b.e - e) as nat),
            b.m >= 0,
            pow2((b.e - e) as nat) >= 0,
    ;
}

/// The length of a vector, if it does not count as zero.
pub fn l2_norm(vector: &[u32]) -> (r: Option<Rounded>)
    requires
        vector_ok(vector@),
    ensures
        match r {
            Some(x) => has_length(vector@) && x@ == root(53, squared(vector@)) && is_number(53, x@)
                && x.m > 0 && -80 <= x.e <= 111,
            None => !has_length(vector@),
        },
{
    let s: Rounded = dot_product(vector, vector);
    proof {
        lemma_square_is_no_less(vector@, vector@.len() as int);
        crate::float::lemma_pow2_values();
    }
    let bits: u64 = to_positive_double_bits(s);
    if bits <= LENGTH_EPSILON {
        return None;
    }
    proof {
        if s.e < -92 {
            assert(bits < 983 * 0x10_0000_0000_0000);
        }
    }
    Some(square_root(53, s))
}

fn clamp(a: Rounded) -> (r: Rounded)
    requires
        is_number(53, a@),
        a.m != 0 ==> -1000 <= a.e <= 1000,
    ensures
        r@ == clamped(a@),
        is_number(53, r@),
        r.m != 0 ==> -1000 <= r.e <= -52,
{
    proof {
        crate::float::lemma_pow2_values();
    }
    if a.m > 0 && (a.e > -52 || a.e == -52 && a.m > 0x10_0000_0000_0000) {
        number_two_to(53, 0)
    } else if a.m < 0 && (a.e > -52 || a.e == -52 && -a.m > 0x10_0000_0000_0000) {
        let one: Rounded = number_two_to(53, 0);
        Rounded { m: -one.m, e: one.e }
    } else {
        a
    }
}

/// Whether a vector can be ranked: it stands for a chunk that none before it
/// stands for, it is as long as the query, and its length does not count as
/// zero.
pub open spec fn fixture_ok(dimension: nat, vectors: Seq<FixtureModel>, i: int) -> bool {
    &&& is_chunk_id(vectors[i].chunk_id)
    &&& forall|k: int| 0 <= k < i ==> (#[trigger] vectors[k]).chunk_id != vectors[i].chunk_id
    &&& vectors[i].vector.len() == dimension
    &&& vector_ok(vectors[i].vector)
    &&& has_length(vectors[i].vector)
}

/// Whether all vectors can be ranked.
pub open spec fn fixtures_ok(dimension: nat, vectors: Seq<FixtureModel>) -> bool {
    forall|i: int| 0 <= i < vectors.len() ==> #[trigger] fixture_ok(dimension, vectors, i)
}

/// Why a search is refused, if it is.
pub open spec fn cosine_error(query: Seq<u32>, vectors: Seq<FixtureModel>, limit: usize) -> Option<
    FreeSemanticError,
> {
    if !vector_ok(query) {
        Some(FreeSemanticError::InvalidVector)
    } else if vectors.len() > MAX_VECTOR_COUNT {
        Some(FreeSemanticError::TooManyVectors { limit: MAX_VECTOR_COUNT })
    } else if limit == 0 {
        None
    } else if limit > MAX_CHANNEL_HITS {
        Some(FreeSemanticError::InvalidRequest)
    } else if !has_length(query) || !fixtures_ok(query.len(), vectors) {
        Some(FreeSemanticError::InvalidVector)
    } else {
        None
    }
}

/// Vectors as candidates: the greatest cosine first, of equal ones the smaller
/// chunk identity.
pub open spec fn cosine_candidates(vectors: Seq<FixtureModel>, cosines: Seq<u32>) -> Seq<
    CandidateModel,
> {
    Seq::new(
        vectors.len(),
        |i: int|
            CandidateModel {
                key: total_order_key(cosines[i]) as i64,
                id: vectors[i].chunk_id,
                index: i as usize,
            },
    )
}

/// The hits of the most similar vectors, ranked from one on, no more than
/// `limit`.
pub open spec fn cosine_hits(query: Seq<u32>, vectors: Seq<FixtureModel>, limit: int) -> Seq<
    HitModel,
> {
    let cosines = cosines_of(query, vectors);
    let order = ranked(cosine_candidates(vectors, cosines));
    let n = if limit < vectors.len() {
        limit as nat
    } else {
        vectors.len()
    };
    Seq::new(
        n,
        |i: int|
            HitModel {
                chunk_id: vectors[order[i].index as int].chunk_id,
                raw_score_bits: cosines[order[i].index as int],
                rank: (i + 1) as usize,
            },
    )
}

fn check_identity(vectors: &Vec<VectorFixture>, i: usize) -> (r: bool)
    requires
        i < vectors@.len(),
    ensures
        ({
            let models = fixture_models(vectors@);
            r == (is_chunk_id(models[i as int].chunk_id) && forall|k: int|
                0 <= k < i ==> (#[trigger] models[k]).chunk_id != models[i as int].chunk_id)
        }),
{
    let ghost models = fixture_models(vectors@);
    assert(models[i as int] == vectors@[i as int]@);
    if !is_canonical_chunk_id(vectors[i].chunk_id.as_str()) {
        return false;
    }
    let mut k: usize = 0;
    while k < i
        invariant
            k <= i < vectors@.len(),
            models == fixture_models(vectors@),
            forall|j: int|
                0 <= j < k ==> (#[trigger] models[j]).chunk_id != models[i as int].chunk_id,
        decreases i - k,
    {
        assert(models[k as int] == vectors@[k as int]@);
        assert(models[i as int] == vectors@[i as int]@);
        if text_eq(vectors[k].chunk_id.as_str(), vectors[i].chunk_id.as_str()) {
            assert(models[k as int].chunk_id == models[i as int].chunk_id);
            return false;
        }
        k += 1;
    }
    true
}

fn minus_zeros(a: &[u32], b: &[u32]) -> (r: bool)
    requires
        a@.len() == b@.len(),
    ensures
        r == are_minus_zero(a@, b@),
{
    let mut i: usize = 0;
    while i < a.len()
        invariant
            i <= a@.len() == b@.len(),
            forall|k: int| 0 <= k < i ==> is_minus_zero(#[trigger] a@[k], b@[k]),
        decreases a@.len() - i,
    {
        let x: u32 = a[i];
        let y: u32 = b[i];
        let zero: bool = x % NEGATIVE_ZERO == 0 || y % NEGATIVE_ZERO == 0;
        if !zero || (x >= NEGATIVE_ZERO) == (y >= NEGATIVE_ZERO) {
            assert(!is_minus_zero(a@[i as int], b@[i as int]));
            return false;
        }
        i += 1;
    }
    true
}

fn similarity(query: &[u32], query_norm: Rounded, vector: &[u32], norm: Rounded) -> (r: u32)
    requires
        query@.len() == vector@.len(),
        vector_ok(query@),
        vector_ok(vector@),
        query_norm@ == root(53, squared(query@)),
        norm@ == root(53, squared(vector@)),
        is_number(53, query_norm@),
        is_number(53, norm@),
        query_norm.m > 0,
        norm.m > 0,
        -80 <= query_norm.e <= 111,
        -80 <= norm.e <= 111,
    ensures
        r == cosine_bits(query@, vector@),
        is_finite_bits(r),
{
    reveal(cosine_bits);
    if minus_zeros(query, vector) {
        return NEGATIVE_ZERO;
    }
    let d: Rounded = dot_product(query, vector);
    let n: Rounded = times(53, query_norm, norm);
    let q: Rounded = divide_by(53, d, n);
    let bits: u32 = narrow(clamp(q));
    proof {
        lemma_finite(bits);
    }
    bits
}

/// Ranks vectors by their similarity to a query. The score of a hit is the raw
/// cosine, never a made-up confidence.
pub fn cosine_search(query: &[u32], vectors: &Vec<VectorFixture>, limit: usize) -> (r: Result<
    Vec<ChannelHit>,
    FreeSemanticError,
>)
    ensures
        ({
            let error = cosine_error(query@, fixture_models(vectors@), limit);
            match r {
                Ok(hits) => error is None && hit_views(hits@) == cosine_hits(
                    query@,
                    fixture_models(vectors@),
                    limit as int,
                ),
                Err(e) => error == Some(e),
            }
        }),
{
    match validate_vector(query) {
        Ok(()) => {},
        Err(e) => {
            return Err(e);
        },
    }
    if vectors.len() > MAX_VECTOR_COUNT {
        return Err(FreeSemanticError::TooManyVectors { limit: MAX_VECTOR_COUNT });
    }
    let ghost models = fixture_models(vectors@);
    let ghost cosines = cosines_of(query@, models);
    if limit == 0 {
        let none: Vec<ChannelHit> = Vec::new();
        assert(hit_views(none@) =~= cosine_hits(query@, models, 0));
        return Ok(none);
    }
    if limit > MAX_CHANNEL_HITS {
        return Err(FreeSemanticError::InvalidRequest);
    }
    let query_norm: Rounded = match l2_norm(query) {
        Some(x) => x,
        None => {
            return Err(FreeSemanticError::InvalidVector);
        },
    };
    let ghost wanted = cosine_candidates(models, cosines);
    let len: usize = vectors.len();
    let mut scores: Vec<u32> = Vec::new();
    let mut cs: Vec<Candidate> = Vec::new();
    let mut i: usize = 0;
    while i < len
        invariant
            i <= len == vectors@.len(),
            models == fixture_models(vectors@),
            cosines == cosines_of(query@, models),
            wanted == cosine_candidates(models, cosines),
            scores@ =~= cosines.take(i as int),
            candidate_models(cs@) =~= wanted.take(i as int),
            vector_ok(query@),
            has_length(query@),
            query_norm@ == root(53, squared(query@)),
            is_number(53, query_norm@),
            query_norm.m > 0,
            -80 <= query_norm.e <= 111,
            len <= MAX_VECTOR_COUNT,
            0 < limit <= MAX_CHANNEL_HITS,
            forall|k: int| 0 <= k < i ==> #[trigger] fixture_ok(query@.len(), models, k),
            forall|k: int| 0 <= k < i ==> is_finite_bits(#[trigger] cosines[k]),
        decreases len - i,
    {
        assert(models[i as int] == vectors@[i as int]@);
        let vector: &Vec<u32> = &vectors[i].vector;
        if !check_identity(vectors, i) || vector.len() != query.len() {
            assert(!fixture_ok(query@.len(), models, i as int));
            return Err(FreeSemanticError::InvalidVector);
        }
        match validate_vector(vector.as_slice()) {
            Ok(()) => {},
            Err(e) => {
                assert(!fixture_ok(query@.len(), models, i as int));
                return Err(e);
            },
        }
        let norm: Rounded = match l2_norm(vector.as_slice()) {
            Some(x) => x,
            None => {
                assert(!fixture_ok(query@.len(), models, i as int));
                return Err(FreeSemanticError::InvalidVector);
            },
        };
        let bits: u32 = similarity(query, query_norm, vector.as_slice(), norm);
        assert(bits == cosines[i as int]);
        let ghost before = candidate_models(cs@);
        let c: Candidate = Candidate {
            key: bits_order_key(bits),
            id: vectors[i].chunk_id.clone(),
            index: i,
        };
        scores.push(bits);
        cs.push(c);
        assert(c@ =~= wanted[i as int]);
        assert(candidate_models(cs@) =~= before.push(c@));
        i += 1;
    }
    assert(fixtures_ok(query@.len(), models));
    assert(wanted.take(len as int) =~= wanted);
    assert(cosines.take(len as int) =~= cosines);
    let order: Vec<Candidate> = rank_candidates(cs);
    proof {
        lemma_ranked_places(wanted);
    }
    let n: usize = if limit < len {
        limit
    } else {
        len
    };
    let ghost goal = cosine_hits(query@, models, limit as int);
    let mut out: Vec<ChannelHit> = Vec::new();
    let mut k: usize = 0;
    while k < n
        invariant
            k <= n <= len == vectors@.len(),
            n == goal.len(),
            models == fixture_models(vectors@),
            cosines == cosines_of(query@, models),
            wanted == cosine_candidates(models, cosines),
            scores@ == cosines,
            goal == cosine_hits(query@, models, limit as int),
            candidate_models(order@) == ranked(wanted),
            order@.len() == len,
            forall|j: int| 0 <= j < len ==> (#[trigger] ranked(wanted)[j]).index < len,
            hit_views(out@) =~= goal.take(k as int),
        decreases n - k,
    {
        let ghost before = hit_views(out@);
        assert(candidate_models(order@)[k as int] == order@[k as int]@);
        assert(ranked(wanted)[k as int].index < len);
        let at: usize = order[k].index;
        assert(models[at as int] == vectors@[at as int]@);
        let h: ChannelHit = ChannelHit {
            chunk_id: vectors[at].chunk_id.clone(),
            raw_score_bits: scores[at],
            rank: k + 1,
        };
        assert(h@ =~= goal[k as int]);
        out.push(h);
        assert(hit_views(out@) =~= before.push(h@));
        k += 1;
    }
    assert(goal.take(n as int) =~= goal);
    Ok(out)
}

/// Hits of a search are ranked from one on, stand for chunks, and none is more
/// similar than one before it.
pub proof fn law_cosine_hits_are_ranked(query: Seq<u32>, vectors: Seq<FixtureModel>, limit: usize)
    requires
        limit > 0,
        cosine_error(query, vectors, limit) is None,
    ensures
        cosine_hits(query, vectors, limit as int).len() <= limit,
        forall|i: int|
            0 <= i < cosine_hits(query, vectors, limit as int).len() ==> is_chunk_id(
                (#[trigger] cosine_hits(query, vectors, limit as int)[i]).chunk_id,
            ) && cosine_hits(query, vectors, limit as int)[i].rank == i + 1,
        forall|i: int, j: int|
            0 <= i < j < cosine_hits(query, vectors, limit as int).len() ==> total_order_key(
                (#[trigger] cosine_hits(query, vectors, limit as int)[i]).raw_score_bits,
            ) >= total_order_key(
                (#[trigger] cosine_hits(query, vectors, limit as int)[j]).raw_score_bits,
            ),
{
    let cosines = cosines_of(query, vectors);
    let cs = cosine_candidates(vectors, cosines);
    lemma_ranked_places(cs);
    law_ranked_is_in_order(cs);
    let order = ranked(cs);
    let out = cosine_hits(query, vectors, limit as int);
    assert forall|i: int| 0 <= i < out.len() implies is_chunk_id((#[trigger] out[i]).chunk_id)
        && out[i].rank == i + 1 by {
        assert(order[i].index < cs.len());
        assert(fixture_ok(query.len(), vectors, order[i].index as int));
    }
    assert forall|i: int, j: int| 0 <= i < j < out.len() implies total_order_key(
        (#[trigger] out[i]).raw_score_bits,
    ) >= total_order_key((#[trigger] out[j]).raw_score_bits) by {
        assert(order[i].index < cs.len());
        assert(order[j].index < cs.len());
        assert(order[i] == cs[order[i].index as int]);
        assert(order[j] == cs[order[j].index as int]);
        assert(!outranks(order[j], order[i]));
    }
}

} // verus!
