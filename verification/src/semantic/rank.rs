//! Reciprocal rank fusion, in exact integer arithmetic.
//!
//! A score is the double-precision number that IEEE arithmetic gives for
//! `1/(k + r1) + 1/(k + r2)`, held as its 64 bits. Scores are positive, so the
//! order of the numbers is the order of their bits.

use vstd::prelude::*;

use super::error::FreeSemanticError;
use crate::digest::{digest, is_digest, sha256_digest};
use crate::float::{
    divide, double_bits, is_number, lemma_pow2_values, number_two_to, plus, quotient,
    round_integer, rounded, sum, to_double_bits, two_to, Number, Rounded,
};
use crate::rounding::{
    lemma_at_most, lemma_integer_range, lemma_quotient_at_most_one, lemma_quotient_falls,
    lemma_rounding_is_monotone, lemma_sum_grows, lemma_sum_is_monotone, lemma_sum_is_more,
    no_greater,
};
use crate::text::{decimal, decimal_string};

verus! {

/// The most hits that a channel may report, and so the greatest rank.
pub const MAX_CHANNEL_HITS: usize = 256;

/// The greatest constant that a policy may add to a rank.
pub const MAX_RRF_K: usize = 10_000;

#[derive(Clone, Copy, Debug, PartialEq, Eq, Structural)]
pub struct RankFusionPolicy {
    pub version: u32,
    pub rrf_k: usize,
}

pub open spec fn rank_policy_ok(version: u32, rrf_k: usize) -> bool {
    version != 0 && 0 < rrf_k <= MAX_RRF_K
}

pub open spec fn rank_policy_digest(version: u32, rrf_k: usize) -> Seq<char> {
    digest("rank-fusion-policy-v1"@, seq![decimal(version as nat), decimal(rrf_k as nat)])
}

impl RankFusionPolicy {
    pub fn new(version: u32, rrf_k: usize) -> (r: Result<Self, FreeSemanticError>)
        ensures
            match r {
                Ok(p) => rank_policy_ok(version, rrf_k) && p == (RankFusionPolicy {
                    version,
                    rrf_k,
                }),
                Err(e) => !rank_policy_ok(version, rrf_k) && e
                    == FreeSemanticError::InvalidRankPolicy,
            },
    {
        let policy: RankFusionPolicy = RankFusionPolicy { version, rrf_k };
        match policy.validate() {
            Ok(()) => Ok(policy),
            Err(e) => Err(e),
        }
    }

    pub fn validate(&self) -> (r: Result<(), FreeSemanticError>)
        ensures
            r is Ok <==> rank_policy_ok(self.version, self.rrf_k),
            r matches Err(e) ==> e == FreeSemanticError::InvalidRankPolicy,
    {
        if self.version == 0 || self.rrf_k == 0 || self.rrf_k > MAX_RRF_K {
            return Err(FreeSemanticError::InvalidRankPolicy);
        }
        Ok(())
    }

    pub fn digest(&self) -> (r: String)
        ensures
            r@ == rank_policy_digest(self.version, self.rrf_k),
            is_digest(r@),
    {
        let a: String = decimal_string(self.version as u64);
        let b: String = decimal_string(self.rrf_k as u64);
        let fields: [&str; 2] = [a.as_str(), b.as_str()];
        let r: String = sha256_digest("rank-fusion-policy-v1", &fields);
        assert(crate::digest::texts(fields@) =~= seq![a@, b@]);
        r
    }
}

/// The double nearest to `1 / n`, for an integer that is a double itself.
pub open spec fn reciprocal(n: nat) -> Number {
    quotient(53, two_to(53, 0), rounded(53, n as int, 1))
}

/// The bits of the fused score of one or two ranks.
#[verifier::opaque]
pub open spec fn score_bits(ranks: Seq<usize>, rrf_k: usize) -> int {
    if ranks.len() == 1 {
        double_bits(reciprocal((rrf_k + ranks[0]) as nat))
    } else {
        double_bits(
            sum(
                53,
                reciprocal((rrf_k + ranks[0]) as nat),
                reciprocal((rrf_k + ranks[1]) as nat),
            ),
        )
    }
}

/// One or two ranks of a channel.
pub open spec fn ranks_ok(ranks: Seq<usize>) -> bool {
    &&& 1 <= ranks.len() <= 2
    &&& forall|i: int| 0 <= i < ranks.len() ==> 0 < #[trigger] ranks[i] <= MAX_CHANNEL_HITS
}

fn round_reciprocal(n: usize) -> (r: Rounded)
    requires
        0 < n,
    ensures
        r@ == reciprocal(n as nat),
        is_number(53, r@),
        r.m > 0,
        -117 <= r.e <= -51,
{
    divide(53, number_two_to(53, 0), round_integer(53, n as u64))
}

/// A raw rank-fusion signal, as the bits of a double. It is intentionally not
/// a calibrated confidence, a probability or a cross-channel score.
pub fn raw_rrf_rank_score(ranks: &[usize], policy: &RankFusionPolicy) -> (r: Result<
    u64,
    FreeSemanticError,
>)
    ensures
        match r {
            Ok(bits) => rank_policy_ok(policy.version, policy.rrf_k) && ranks_ok(ranks@) && bits
                == score_bits(ranks@, policy.rrf_k),
            Err(e) => if !rank_policy_ok(policy.version, policy.rrf_k) {
                e == FreeSemanticError::InvalidRankPolicy
            } else {
                !ranks_ok(ranks@) && e == FreeSemanticError::InvalidChannelHit
            },
        },
{
    match policy.validate() {
        Ok(()) => {},
        Err(e) => {
            return Err(e);
        },
    }
    if ranks.len() == 0 || ranks.len() > 2 {
        return Err(FreeSemanticError::InvalidChannelHit);
    }
    let mut i: usize = 0;
    while i < ranks.len()
        invariant
            i <= ranks@.len() <= 2,
            rank_policy_ok(policy.version, policy.rrf_k),
            forall|k: int| 0 <= k < i ==> 0 < #[trigger] ranks@[k] <= MAX_CHANNEL_HITS,
        decreases ranks@.len() - i,
    {
        if ranks[i] == 0 || ranks[i] > MAX_CHANNEL_HITS {
            return Err(FreeSemanticError::InvalidChannelHit);
        }
        i += 1;
    }
    reveal(score_bits);
    let first: Rounded = round_reciprocal(policy.rrf_k + ranks[0]);
    if ranks.len() == 1 {
        return Ok(to_double_bits(first));
    }
    let second: Rounded = round_reciprocal(policy.rrf_k + ranks[1]);
    Ok(to_double_bits(plus(53, first, second)))
}

/// The order of positive doubles is that of their bits.
proof fn lemma_bits_in_order(a: Number, b: Number)
    requires
        is_number(53, a),
        is_number(53, b),
        a.m > 0,
        b.m > 0,
    ensures
        no_greater(a, b) <==> double_bits(a) <= double_bits(b),
{
    lemma_pow2_values();
}

proof fn lemma_reciprocal(n: nat)
    requires
        0 < n <= MAX_RRF_K + MAX_CHANNEL_HITS,
    ensures
        is_number(53, reciprocal(n)),
        reciprocal(n).m > 0,
        -70 <= reciprocal(n).e <= -51,
{
    lemma_pow2_values();
    vstd::arithmetic::power2::lemma2_to64();
    lemma_integer_range(53, n);
    lemma_quotient_at_most_one(53, two_to(53, 0), rounded(53, n as int, 1));
    lemma_at_most(53, n, 14);
}

proof fn lemma_reciprocal_falls(n: nat, m: nat)
    requires
        0 < n <= m <= MAX_RRF_K + MAX_CHANNEL_HITS,
    ensures
        no_greater(reciprocal(m), reciprocal(n)),
{
    lemma_pow2_values();
    lemma_integer_range(53, n);
    lemma_integer_range(53, m);
    lemma_rounding_is_monotone(53, n, m);
    lemma_quotient_falls(
        53,
        two_to(53, 0),
        rounded(53, n as int, 1),
        rounded(53, m as int, 1),
    );
}

/// A better rank never scores less.
pub proof fn law_better_rank_scores_no_less(rrf_k: usize, better: usize, worse: usize)
    requires
        0 < rrf_k <= MAX_RRF_K,
        0 < better <= worse <= MAX_CHANNEL_HITS,
    ensures
        score_bits(seq![worse], rrf_k) <= score_bits(seq![better], rrf_k),
{
    reveal(score_bits);
    let n = (rrf_k + better) as nat;
    let m = (rrf_k + worse) as nat;
    lemma_reciprocal(n);
    lemma_reciprocal(m);
    lemma_reciprocal_falls(n, m);
    lemma_bits_in_order(reciprocal(m), reciprocal(n));
}

/// Better ranks of two channels never score less.
pub proof fn law_better_ranks_score_no_less(
    rrf_k: usize,
    better: (usize, usize),
    worse: (usize, usize),
)
    requires
        0 < rrf_k <= MAX_RRF_K,
        0 < better.0 <= worse.0 <= MAX_CHANNEL_HITS,
        0 < better.1 <= worse.1 <= MAX_CHANNEL_HITS,
    ensures
        score_bits(seq![worse.0, worse.1], rrf_k) <= score_bits(
            seq![better.0, better.1],
            rrf_k,
        ),
{
    reveal(score_bits);
    let a = reciprocal((rrf_k + better.0) as nat);
    let b = reciprocal((rrf_k + better.1) as nat);
    let c = reciprocal((rrf_k + worse.0) as nat);
    let d = reciprocal((rrf_k + worse.1) as nat);
    lemma_reciprocal((rrf_k + better.0) as nat);
    lemma_reciprocal((rrf_k + better.1) as nat);
    lemma_reciprocal((rrf_k + worse.0) as nat);
    lemma_reciprocal((rrf_k + worse.1) as nat);
    lemma_reciprocal_falls((rrf_k + better.0) as nat, (rrf_k + worse.0) as nat);
    lemma_reciprocal_falls((rrf_k + better.1) as nat, (rrf_k + worse.1) as nat);
    lemma_sum_is_monotone(53, c, a, d);
    lemma_sum_is_monotone(53, d, b, a);
    assert(sum(53, a, d) == sum(53, d, a));
    assert(sum(53, a, b) == sum(53, b, a));
    lemma_sum_grows(53, c, d);
    lemma_sum_grows(53, a, b);
    lemma_bits_in_order(sum(53, c, d), sum(53, a, b));
}

/// What two channels found scores more than what only one of them found at the
/// same rank.
pub proof fn law_second_rank_scores_more(rrf_k: usize, first: usize, second: usize)
    requires
        0 < rrf_k <= MAX_RRF_K,
        0 < first <= MAX_CHANNEL_HITS,
        0 < second <= MAX_CHANNEL_HITS,
    ensures
        score_bits(seq![first, second], rrf_k) > score_bits(seq![first], rrf_k),
        score_bits(seq![first, second], rrf_k) > score_bits(seq![second], rrf_k),
{
    reveal(score_bits);
    let a = reciprocal((rrf_k + first) as nat);
    let b = reciprocal((rrf_k + second) as nat);
    lemma_reciprocal((rrf_k + first) as nat);
    lemma_reciprocal((rrf_k + second) as nat);
    assert(sum(53, a, b) == sum(53, b, a));
    lemma_sum_is_more(53, a, b);
    lemma_sum_is_more(53, b, a);
    lemma_sum_grows(53, a, b);
    lemma_bits_in_order(sum(53, a, b), a);
    lemma_bits_in_order(sum(53, a, b), b);
}

} // verus!
