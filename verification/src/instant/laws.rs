//! What holds of every fusion and of every second ranking.

use vstd::prelude::*;

use super::fusion::{
    all_places, contribution, draft_candidates, draft_place, draft_scores, drafts_of, fusion,
    lemma_draft_place, rank_score, ranks_of, reranked, rescored, second_candidates, second_score,
    weight_bits, with_source, DraftModel, FusedModel, FusionConfig, HitModel, Placed,
    RetrievalSource, SourceRank,
};
use crate::bits::{double_key, is_nan_double};
use crate::double::{
    law_greater_divisor_gives_no_more, law_sum_is_no_less, sum_bits, INFINITY, NAN, NEGATIVE_ZERO,
};
use crate::order::{law_ranked_is_in_order, lemma_ranked_places, outranks, ranked};

verus! {

/// Whether a source is among ranks.
pub open spec fn has_source(ranks: Seq<SourceRank>, s: RetrievalSource) -> bool {
    exists|i: int| 0 <= i < ranks.len() && (#[trigger] ranks[i]).source == s
}

/// Whether a draft holds every source of its ranks, each once, and no other.
pub open spec fn sources_match(d: DraftModel) -> bool {
    &&& forall|s: RetrievalSource| #[trigger] d.sources.contains(s) <==> has_source(d.ranks, s)
    &&& forall|i: int, j: int|
        0 <= i < j < d.sources.len() ==> #[trigger] d.sources[i] != #[trigger] d.sources[j]
}

proof fn lemma_one_more_rank(d: DraftModel, at: SourceRank)
    requires
        sources_match(d),
    ensures
        sources_match(
            DraftModel { ranks: d.ranks.push(at), sources: with_source(d.sources, at.source), ..d },
        ),
{
    let ranks = d.ranks.push(at);
    let sources = with_source(d.sources, at.source);
    assert forall|s: RetrievalSource| #[trigger] sources.contains(s) <==> has_source(ranks, s) by {
        if sources.contains(s) {
            if s == at.source {
                assert(ranks[d.ranks.len() as int].source == s);
            } else {
                let i = choose|i: int| 0 <= i < sources.len() && sources[i] == s;
                assert(d.sources[i] == s);
                assert(d.sources.contains(s));
                let k = choose|k: int| 0 <= k < d.ranks.len() && (#[trigger] d.ranks[k]).source == s;
                assert(ranks[k].source == s);
            }
        }
        if has_source(ranks, s) {
            let k = choose|k: int| 0 <= k < ranks.len() && (#[trigger] ranks[k]).source == s;
            if k < d.ranks.len() {
                assert(d.ranks[k].source == s);
                assert(d.sources.contains(s));
                let i = choose|i: int| 0 <= i < d.sources.len() && d.sources[i] == s;
                assert(sources[i] == s);
            } else if d.sources.contains(s) {
            } else {
                assert(sources[d.sources.len() as int] == s);
            }
        }
    }
    assert forall|i: int, j: int| 0 <= i < j < sources.len() implies #[trigger] sources[i]
        != #[trigger] sources[j] by {
        if j < d.sources.len() {
            assert(d.sources[i] != d.sources[j]);
        } else {
            assert(d.sources.contains(d.sources[i]));
        }
    }
}

/// No document has two drafts. A draft holds all ranks of its document in
/// their order, every source of a rank once and no other, and every document
/// has a draft.
pub proof fn law_drafts_hold_all_ranks(places: Seq<Placed>)
    ensures
        forall|i: int, j: int|
            0 <= i < j < drafts_of(places).len() ==> (#[trigger] drafts_of(places)[i]).doc_id != (
            #[trigger] drafts_of(places)[j]).doc_id,
        forall|i: int|
            0 <= i < drafts_of(places).len() ==> (#[trigger] drafts_of(places)[i]).ranks
                == ranks_of(places, drafts_of(places)[i].doc_id) && sources_match(
                drafts_of(places)[i],
            ),
        forall|k: int|
            0 <= k < places.len() ==> draft_place(
                drafts_of(places),
                (#[trigger] places[k]).doc_id,
            ) < drafts_of(places).len(),
        forall|id: Seq<char>|
            draft_place(drafts_of(places), id) == drafts_of(places).len() ==> (#[trigger] ranks_of(
                places,
                id,
            )).len() == 0,
    decreases places.len(),
{
    if places.len() > 0 {
        let front = places.drop_last();
        let p = places.last();
        law_drafts_hold_all_ranks(front);
        let before = drafts_of(front);
        let after = drafts_of(places);
        lemma_draft_place(before, p.doc_id);
        let at = draft_place(before, p.doc_id);
        assert forall|i: int| 0 <= i < after.len() implies (#[trigger] after[i]).ranks == ranks_of(
            places,
            after[i].doc_id,
        ) && sources_match(after[i]) by {
            if i < before.len() {
                assert(before[i].ranks == ranks_of(front, before[i].doc_id));
                if i == at {
                    lemma_one_more_rank(before[i], p.at);
                } else if before[i].doc_id == p.doc_id {
                    if i < at {
                    } else {
                        assert(before[at].doc_id != before[i].doc_id);
                    }
                }
            } else {
                assert(ranks_of(front, p.doc_id).len() == 0);
                assert(ranks_of(places, p.doc_id) =~= seq![p.at]);
                let empty = DraftModel { ranks: Seq::empty(), sources: Seq::empty(), ..after[i] };
                assert(sources_match(empty)) by {
                    assert forall|s: RetrievalSource| #[trigger]
                        empty.sources.contains(s) <==> has_source(empty.ranks, s) by {}
                }
                lemma_one_more_rank(empty, p.at);
                assert(empty.ranks.push(p.at) =~= seq![p.at]);
                assert(with_source(empty.sources, p.at.source) =~= seq![p.at.source]);
            }
        }
        assert forall|i: int, j: int| 0 <= i < j < after.len() implies (
        #[trigger] after[i]).doc_id != (#[trigger] after[j]).doc_id by {
            assert(after[i].doc_id == before[i].doc_id);
            if j < before.len() {
                assert(after[j].doc_id == before[j].doc_id);
                assert(before[i].doc_id != before[j].doc_id);
            }
        }
        assert forall|k: int| 0 <= k < places.len() implies draft_place(
            after,
            (#[trigger] places[k]).doc_id,
        ) < after.len() by {
            let id = places[k].doc_id;
            lemma_draft_place(after, id);
            if k < front.len() {
                assert(front[k] == places[k]);
                lemma_draft_place(before, id);
                let q = draft_place(before, id);
                assert(after[q].doc_id == id);
            } else {
                assert(after[at].doc_id == id);
            }
        }
        assert forall|id: Seq<char>| draft_place(after, id) == after.len() implies (
        #[trigger] ranks_of(places, id)).len() == 0 by {
            lemma_draft_place(after, id);
            lemma_draft_place(before, id);
            let q = draft_place(before, id);
            if q < before.len() {
                assert(after[q].doc_id == id);
            }
            assert(ranks_of(front, id).len() == 0);
            if id == p.doc_id {
                assert(after[at].doc_id == id);
            }
        }
    }
}

/// A fusion gives no more than its limit, a document scores what its ranks add
/// up to, and no document scores more than one before it.
pub proof fn law_fusion_is_in_order(signals: Seq<Seq<HitModel>>, c: FusionConfig)
    requires
        drafts_of(all_places(signals)).len() <= usize::MAX,
    ensures
        fusion(signals, c).len() <= c.fusion_top_k,
        fusion(signals, c).len() <= drafts_of(all_places(signals)).len(),
        forall|i: int|
            0 <= i < fusion(signals, c).len() ==> (#[trigger] fusion(signals, c)[i]).rrf_score
                == rank_score(c, ranks_of(all_places(signals), fusion(signals, c)[i].doc_id)),
        forall|i: int, j: int|
            0 <= i < j < fusion(signals, c).len() ==> double_key(
                (#[trigger] fusion(signals, c)[i]).rrf_score,
            ) >= double_key((#[trigger] fusion(signals, c)[j]).rrf_score),
{
    let places = all_places(signals);
    let drafts = drafts_of(places);
    let scores = draft_scores(c, drafts);
    let cs = draft_candidates(drafts, scores);
    law_drafts_hold_all_ranks(places);
    lemma_ranked_places(cs);
    law_ranked_is_in_order(cs);
    let order = ranked(cs);
    let out = fusion(signals, c);
    assert forall|i: int| 0 <= i < out.len() implies (#[trigger] out[i]).rrf_score == rank_score(
        c,
        ranks_of(places, out[i].doc_id),
    ) by {
        assert(order[i].index < cs.len());
        let d = drafts[order[i].index as int];
        assert(d.ranks == ranks_of(places, d.doc_id));
    }
    assert forall|i: int, j: int| 0 <= i < j < out.len() implies double_key(
        (#[trigger] out[i]).rrf_score,
    ) >= double_key((#[trigger] out[j]).rrf_score) by {
        assert(order[i].index < cs.len());
        assert(order[j].index < cs.len());
        assert(order[i] == cs[order[i].index as int]);
        assert(order[j] == cs[order[j].index as int]);
        assert(!outranks(order[j], order[i]));
    }
}

/// A second ranking holds no more than its limit, and no result has a greater
/// second score than one before it.
pub proof fn law_second_ranking_is_in_order(fused: Seq<FusedModel>, scores: Seq<u64>, limit: nat)
    requires
        fused.len() <= usize::MAX,
    ensures
        reranked(fused, scores, limit as int).len() <= limit,
        reranked(fused, scores, limit as int).len() <= fused.len(),
        forall|i: int, j: int|
            0 <= i < j < reranked(fused, scores, limit as int).len() ==> double_key(
                second_score(#[trigger] reranked(fused, scores, limit as int)[i]),
            ) >= double_key(
                second_score(#[trigger] reranked(fused, scores, limit as int)[j]),
            ),
{
    let all = rescored(fused, scores);
    let cs = second_candidates(all);
    lemma_ranked_places(cs);
    law_ranked_is_in_order(cs);
    let order = ranked(cs);
    let out = reranked(fused, scores, limit as int);
    assert forall|i: int, j: int| 0 <= i < j < out.len() implies double_key(
        second_score(#[trigger] out[i]),
    ) >= double_key(second_score(#[trigger] out[j])) by {
        assert(order[i].index < cs.len());
        assert(order[j].index < cs.len());
        assert(order[i] == cs[order[i].index as int]);
        assert(order[j] == cs[order[j].index as int]);
        assert(!outranks(order[j], order[i]));
    }
}

/// Whether bits are those of a number that is not less than zero.
pub open spec fn is_unsigned(bits: u64) -> bool {
    bits <= INFINITY || bits == NEGATIVE_ZERO
}

/// Whether no number of a configuration is less than zero.
pub open spec fn adds_up(c: FusionConfig) -> bool {
    &&& is_unsigned(c.rrf_k)
    &&& forall|s: RetrievalSource| is_unsigned(#[trigger] weight_bits(c.source_weights, s))
}

/// In one source, a better rank never adds less.
pub proof fn law_better_rank_adds_no_less(
    c: FusionConfig,
    source: RetrievalSource,
    better: usize,
    worse: usize,
)
    requires
        adds_up(c),
        0 < better <= worse,
    ensures
        double_key(contribution(c, SourceRank { source, rank: worse })) <= double_key(
            contribution(c, SourceRank { source, rank: better }),
        ),
{
    law_greater_divisor_gives_no_more(
        weight_bits(c.source_weights, source),
        c.rrf_k,
        better as u64,
        worse as u64,
    );
}

/// Whether ranks are counted from one.
pub open spec fn are_ranks(ranks: Seq<SourceRank>) -> bool {
    forall|i: int| 0 <= i < ranks.len() ==> 0 < (#[trigger] ranks[i]).rank
}

proof fn lemma_score(c: FusionConfig, ranks: Seq<SourceRank>)
    requires
        adds_up(c),
        are_ranks(ranks),
    ensures
        rank_score(c, ranks) <= INFINITY || rank_score(c, ranks) == NAN,
    decreases ranks.len(),
{
    if ranks.len() > 0 {
        let front = ranks.drop_last();
        lemma_score(c, front);
        assert(ranks.last() == ranks[ranks.len() - 1]);
        lemma_adding(c, rank_score(c, front), ranks.last());
    }
}

proof fn lemma_adding(c: FusionConfig, score: u64, at: SourceRank)
    requires
        adds_up(c),
        0 < at.rank,
        score <= INFINITY || score == NAN,
    ensures
        ({
            let after = sum_bits(score, contribution(c, at));
            score <= after && (after <= INFINITY || after == NAN)
        }),
{
    let x = contribution(c, at);
    law_greater_divisor_gives_no_more(
        weight_bits(c.source_weights, at.source),
        c.rrf_k,
        at.rank as u64,
        at.rank as u64,
    );
    if !is_nan_double(score) && !is_nan_double(x) {
        law_sum_is_no_less(score, x);
    }
}

/// One more rank never makes a document score less.
pub proof fn law_one_more_rank_scores_no_less(
    c: FusionConfig,
    ranks: Seq<SourceRank>,
    at: SourceRank,
)
    requires
        adds_up(c),
        are_ranks(ranks),
        0 < at.rank,
    ensures
        double_key(rank_score(c, ranks)) <= double_key(rank_score(c, ranks.push(at))),
{
    lemma_score(c, ranks);
    assert(ranks.push(at).drop_last() =~= ranks);
    lemma_adding(c, rank_score(c, ranks), at);
}

} // verus!
