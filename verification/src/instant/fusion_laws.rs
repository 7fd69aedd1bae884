//! What a fusion, a second ranking and a search of segments hold and what they
//! leave out.

use vstd::prelude::*;

use super::fusion::{
    all_places, draft_candidates, draft_place, draft_scores, drafts_of, fusion, lemma_draft_place,
    rank_score, ranks_of, reranked, rescored, second_candidates, second_score, signal_places,
    FusedModel, FusionConfig, HitModel, Placed, SourceRank,
};
use super::laws::law_drafts_hold_all_ranks;
use super::rerank::{may_answer, result_texts, CrossEncoder};
use super::segment::{
    accessed, age_of, all_scored, are_quantized, best_found, by_temperature, found_candidates,
    sealed_score, sealed_scored, segment_ok, segments_ok, warm_candidates, warmth, FoundModel,
    GrowingModel, SegmentConfig, SegmentModel, SegmentsModel,
};
use crate::bits::{double_key, value_key};
use crate::digest::texts;
use crate::order::{lemma_first_ranked, outranks, ranked};
use crate::quant::butterfly::{rotated, StageTurns};
use crate::quant::metal::next_power;
use crate::quant::packing::code_in;
use crate::quant::products::{dot, products};
use crate::quant::turbo::{is_quantized, levels_of, resized, turbo_width, TurboQuantVector};
use crate::single::{integer_bits, product_bits, sum_bits};
use crate::text::text_lt;

verus! {

/// The place of a hit: its rank counts from one, and its source is that of the
/// first hit of its signal.
pub open spec fn place_of_hit(signals: Seq<Seq<HitModel>>, s: int, i: int) -> Placed {
    Placed {
        at: SourceRank { source: signals[s][0].source, rank: (i + 1) as usize },
        doc_id: signals[s][i].doc_id,
        text: signals[s][i].text,
    }
}

/// Every hit of every signal has its place.
pub proof fn law_every_hit_has_a_place(signals: Seq<Seq<HitModel>>, s: int, i: int)
    requires
        0 <= s < signals.len(),
        0 <= i < signals[s].len(),
    ensures
        all_places(signals).contains(place_of_hit(signals, s, i)),
    decreases signals.len(),
{
    let front = signals.drop_last();
    let before = all_places(front);
    let last = signal_places(signals.last());
    let all = all_places(signals);
    if s < front.len() {
        law_every_hit_has_a_place(front, s, i);
        assert(front[s] == signals[s]);
        assert(place_of_hit(front, s, i) == place_of_hit(signals, s, i));
        let k = choose|k: int| 0 <= k < before.len() && before[k] == place_of_hit(front, s, i);
        assert(all == before + last);
        assert(all[k] == before[k]);
    } else {
        assert(signals.last() == signals[s]);
        assert(last[i] == place_of_hit(signals, s, i));
        assert(all == before + last);
        assert(all[before.len() + i] == last[i]);
    }
}

/// Every place is that of a hit.
pub proof fn law_every_place_is_that_of_a_hit(signals: Seq<Seq<HitModel>>, k: int) -> (r: (int, int))
    requires
        0 <= k < all_places(signals).len(),
    ensures
        0 <= r.0 < signals.len(),
        0 <= r.1 < signals[r.0].len(),
        all_places(signals)[k] == place_of_hit(signals, r.0, r.1),
    decreases signals.len(),
{
    let front = signals.drop_last();
    let before = all_places(front);
    if k < before.len() {
        let r = law_every_place_is_that_of_a_hit(front, k);
        assert(front[r.0] == signals[r.0]);
        r
    } else {
        (signals.len() - 1, k - before.len())
    }
}

/// A rank of a document is that of one of its places, and every place gives it a
/// rank.
pub proof fn law_ranks_are_those_of_the_places(places: Seq<Placed>, id: Seq<char>, at: SourceRank)
    ensures
        ranks_of(places, id).contains(at) <==> exists|k: int|
            0 <= k < places.len() && (#[trigger] places[k]).doc_id == id && places[k].at == at,
    decreases places.len(),
{
    if places.len() > 0 {
        let front = places.drop_last();
        let p = places.last();
        let before = ranks_of(front, id);
        let after = ranks_of(places, id);
        law_ranks_are_those_of_the_places(front, id, at);
        if after.contains(at) {
            let i = choose|i: int| 0 <= i < after.len() && after[i] == at;
            if i < before.len() {
                assert(before[i] == at);
                assert(before.contains(at));
                let k = choose|k: int|
                    0 <= k < front.len() && (#[trigger] front[k]).doc_id == id && front[k].at == at;
                assert(places[k] == front[k]);
            } else {
                assert(places[places.len() - 1] == p);
            }
        }
        if exists|k: int|
            0 <= k < places.len() && (#[trigger] places[k]).doc_id == id && places[k].at == at {
            let k = choose|k: int|
                0 <= k < places.len() && (#[trigger] places[k]).doc_id == id && places[k].at == at;
            if k < front.len() {
                assert(front[k] == places[k]);
                let i = choose|i: int| 0 <= i < before.len() && before[i] == at;
                assert(after[i] == at);
            } else {
                assert(after[before.len() as int] == at);
            }
        }
    }
}

/// Whether a text is the first that places give to a document.
pub open spec fn is_first_text(places: Seq<Placed>, id: Seq<char>, text: Seq<char>) -> bool {
    exists|k: int|
        0 <= k < places.len() && (#[trigger] places[k]).doc_id == id && places[k].text == text
            && forall|j: int| 0 <= j < k ==> (#[trigger] places[j]).doc_id != id
}

/// A document has the text that the first signal gave.
pub proof fn law_first_text_is_kept(places: Seq<Placed>, i: int)
    requires
        0 <= i < drafts_of(places).len(),
    ensures
        is_first_text(places, drafts_of(places)[i].doc_id, drafts_of(places)[i].text),
    decreases places.len(),
{
    let front = places.drop_last();
    let p = places.last();
    let before = drafts_of(front);
    lemma_draft_place(before, p.doc_id);
    let d = drafts_of(places)[i];
    law_drafts_hold_all_ranks(front);
    if i < before.len() {
        law_first_text_is_kept(front, i);
        assert(d.doc_id == before[i].doc_id && d.text == before[i].text);
        let k = choose|k: int|
            0 <= k < front.len() && (#[trigger] front[k]).doc_id == d.doc_id && front[k].text
                == d.text && forall|j: int| 0 <= j < k ==> (#[trigger] front[j]).doc_id != d.doc_id;
        assert(places[k] == front[k]);
        assert forall|j: int| 0 <= j < k implies (#[trigger] places[j]).doc_id != d.doc_id by {
            assert(places[j] == front[j]);
        }
    } else {
        let k = places.len() - 1;
        assert(places[k] == p);
        assert forall|j: int| 0 <= j < k implies (#[trigger] places[j]).doc_id != d.doc_id by {
            assert(places[j] == front[j]);
            assert(draft_place(before, front[j].doc_id) < before.len());
        }
    }
}

/// The bits of the score of a document: what its ranks in all signals add up to.
pub open spec fn signal_score(signals: Seq<Seq<HitModel>>, c: FusionConfig, id: Seq<char>) -> u64 {
    rank_score(c, ranks_of(all_places(signals), id))
}

/// A fusion keeps the best. A document of a signal is in it, with the score of all
/// its ranks, or the fusion is full and every one of its documents comes before it:
/// by a greater score, of equal scores by a smaller identifier.
pub proof fn law_fusion_keeps_the_best(
    signals: Seq<Seq<HitModel>>,
    c: FusionConfig,
    s: int,
    i: int,
)
    requires
        drafts_of(all_places(signals)).len() <= usize::MAX,
        0 <= s < signals.len(),
        0 <= i < signals[s].len(),
    ensures
        ({
            let id = signals[s][i].doc_id;
            let out = fusion(signals, c);
            ||| exists|k: int|
                0 <= k < out.len() && (#[trigger] out[k]).doc_id == id && out[k].rrf_score
                    == signal_score(signals, c, id)
            ||| out.len() == c.fusion_top_k && forall|k: int|
                0 <= k < out.len() ==> double_key((#[trigger] out[k]).rrf_score) > double_key(
                    signal_score(signals, c, id),
                ) || double_key(out[k].rrf_score) == double_key(signal_score(signals, c, id))
                    && text_lt(out[k].doc_id, id)
        }),
{
    let places = all_places(signals);
    let drafts = drafts_of(places);
    let scores = draft_scores(c, drafts);
    let cs = draft_candidates(drafts, scores);
    let out = fusion(signals, c);
    let order = ranked(cs);
    let id = signals[s][i].doc_id;
    law_every_hit_has_a_place(signals, s, i);
    let p = choose|p: int| 0 <= p < places.len() && places[p] == place_of_hit(signals, s, i);
    law_drafts_hold_all_ranks(places);
    assert(places[p].doc_id == id);
    lemma_draft_place(drafts, id);
    let d = draft_place(drafts, id);
    assert(drafts[d].ranks == ranks_of(places, id));
    lemma_first_ranked(cs, out.len() as int);
    assert(cs[d].key == double_key(signal_score(signals, c, id)));
    if exists|k: int| 0 <= k < out.len() && (#[trigger] order[k]).index == d {
        let k = choose|k: int| 0 <= k < out.len() && (#[trigger] order[k]).index == d;
        assert(out[k].doc_id == id);
    } else {
        assert forall|k: int| 0 <= k < out.len() implies double_key(
            (#[trigger] out[k]).rrf_score,
        ) > double_key(signal_score(signals, c, id)) || double_key(out[k].rrf_score) == double_key(
            signal_score(signals, c, id),
        ) && text_lt(out[k].doc_id, id) by {
            assert(outranks(order[k], cs[d]));
            let a = order[k].index as int;
            assert(order[k] == cs[a]);
            assert(a != d);
            if a < d {
                assert(drafts[a].doc_id != drafts[d].doc_id);
            } else {
                assert(drafts[d].doc_id != drafts[a].doc_id);
            }
        }
    }
}

/// No document is fused twice, and each is one of a signal, with the text that the
/// first gave it.
pub proof fn law_fused_documents_come_from_signals(
    signals: Seq<Seq<HitModel>>,
    c: FusionConfig,
)
    requires
        drafts_of(all_places(signals)).len() <= usize::MAX,
    ensures
        forall|k: int, l: int|
            0 <= k < l < fusion(signals, c).len() ==> (#[trigger] fusion(signals, c)[k]).doc_id != (
            #[trigger] fusion(signals, c)[l]).doc_id,
        forall|k: int|
            0 <= k < fusion(signals, c).len() ==> is_first_text(
                all_places(signals),
                (#[trigger] fusion(signals, c)[k]).doc_id,
                fusion(signals, c)[k].text,
            ) && fusion(signals, c)[k].rerank_score is None,
{
    let places = all_places(signals);
    let drafts = drafts_of(places);
    let cs = draft_candidates(drafts, draft_scores(c, drafts));
    let out = fusion(signals, c);
    let order = ranked(cs);
    law_drafts_hold_all_ranks(places);
    lemma_first_ranked(cs, out.len() as int);
    assert forall|k: int, l: int| 0 <= k < l < out.len() implies (#[trigger] out[k]).doc_id != (
    #[trigger] out[l]).doc_id by {
        let a = order[k].index as int;
        let b = order[l].index as int;
        assert(a != b);
        if a < b {
            assert(drafts[a].doc_id != drafts[b].doc_id);
        } else {
            assert(drafts[b].doc_id != drafts[a].doc_id);
        }
    }
    assert forall|k: int| 0 <= k < out.len() implies is_first_text(
        places,
        (#[trigger] out[k]).doc_id,
        out[k].text,
    ) && out[k].rerank_score is None by {
        let a = order[k].index as int;
        assert(0 <= a < drafts.len());
        law_first_text_is_kept(places, a);
    }
}

/// A result with the score that a second scorer gave it, if it gave one.
pub open spec fn with_second(f: FusedModel, scores: Seq<u64>, j: int) -> FusedModel {
    FusedModel {
        rerank_score: if j < scores.len() {
            Some(scores[j])
        } else {
            f.rerank_score
        },
        ..f
    }
}

/// A second ranking holds as many results as asked for, as far as there are so
/// many. Each is one that was given, with the second score of its place, and none
/// is left out for one with a lesser second score.
pub proof fn law_second_ranking_keeps_the_best(
    fused: Seq<FusedModel>,
    scores: Seq<u64>,
    limit: int,
)
    requires
        fused.len() <= usize::MAX,
        0 <= limit,
    ensures
        ({
            let out = reranked(fused, scores, limit);
            &&& out.len() == if limit < fused.len() {
                limit
            } else {
                fused.len() as int
            }
            &&& forall|i: int|
                0 <= i < out.len() ==> exists|j: int|
                    0 <= j < fused.len() && #[trigger] out[i] == #[trigger] with_second(
                        fused[j],
                        scores,
                        j,
                    )
            &&& forall|j: int|
                #![trigger with_second(fused[j], scores, j)]
                0 <= j < fused.len() ==> out.contains(with_second(fused[j], scores, j))
                    || out.len() == limit && forall|i: int|
                    0 <= i < out.len() ==> double_key(second_score(#[trigger] out[i]))
                        >= double_key(second_score(with_second(fused[j], scores, j)))
        }),
{
    let all = rescored(fused, scores);
    let cs = second_candidates(all);
    let out = reranked(fused, scores, limit);
    let order = ranked(cs);
    lemma_first_ranked(cs, out.len() as int);
    assert forall|j: int| 0 <= j < fused.len() implies #[trigger] all[j] == with_second(
        fused[j],
        scores,
        j,
    ) by {}
    assert forall|i: int| 0 <= i < out.len() implies exists|j: int|
        0 <= j < fused.len() && #[trigger] out[i] == #[trigger] with_second(
            fused[j],
            scores,
            j,
        ) by {
        let j = order[i].index as int;
        assert(0 <= j < fused.len());
        assert(out[i] == all[j]);
        assert(out[i] == with_second(fused[j], scores, j));
    }
    assert forall|j: int|
        #![trigger with_second(fused[j], scores, j)]
        0 <= j < fused.len() implies out.contains(with_second(fused[j], scores, j)) || out.len()
        == limit && forall|i: int|
        0 <= i < out.len() ==> double_key(second_score(#[trigger] out[i])) >= double_key(
            second_score(with_second(fused[j], scores, j)),
        ) by {
        assert(all[j] == with_second(fused[j], scores, j));
        if exists|i: int| 0 <= i < out.len() && (#[trigger] order[i]).index == j {
            let i = choose|i: int| 0 <= i < out.len() && (#[trigger] order[i]).index == j;
            assert(out[i] == all[j]);
        } else {
            assert forall|i: int| 0 <= i < out.len() implies double_key(
                second_score(#[trigger] out[i]),
            ) >= double_key(second_score(with_second(fused[j], scores, j))) by {
                assert(outranks(order[i], cs[j]));
                assert(order[i] == cs[order[i].index as int]);
            }
        }
    }
}

/// What an entry of the growing segment is found as: with the product of its vector
/// and the query.
pub open spec fn found_growing(e: GrowingModel, query: Seq<u32>) -> FoundModel {
    FoundModel {
        doc_id: e.doc_id,
        text: e.text,
        score_bits: dot(e.embedding, query),
        segment_id: u64::MAX,
    }
}

/// What an entry of a sealed segment is found as.
pub open spec fn found_sealed(s: SegmentModel, i: int, asked: Seq<u32>) -> FoundModel {
    FoundModel {
        doc_id: s.doc_ids[i],
        text: s.texts[i],
        score_bits: sealed_score(asked, s.quantized[i]),
        segment_id: s.id,
    }
}

/// Every entry of every segment is scored.
pub proof fn law_every_entry_is_scored(
    m: SegmentsModel,
    query: Seq<u32>,
    asked: Seq<u32>,
    n: int,
)
    requires
        segments_ok(m),
        0 <= n <= m.sealed.len(),
    ensures
        forall|g: int|
            0 <= g < m.growing.len() ==> all_scored(m, query, asked, n).contains(
                #[trigger] found_growing(m.growing[g], query),
            ),
        forall|s: int, i: int|
            0 <= s < n && 0 <= i < m.sealed[s].doc_ids.len() ==> all_scored(
                m,
                query,
                asked,
                n,
            ).contains(#[trigger] found_sealed(m.sealed[s], i, asked)),
    decreases n,
{
    let all = all_scored(m, query, asked, n);
    if n == 0 {
        assert forall|g: int| 0 <= g < m.growing.len() implies all.contains(
            #[trigger] found_growing(m.growing[g], query),
        ) by {
            assert(all[g] == found_growing(m.growing[g], query));
        }
    } else {
        law_every_entry_is_scored(m, query, asked, n - 1);
        let before = all_scored(m, query, asked, n - 1);
        let more = sealed_scored(m.sealed[n - 1], asked);
        assert(segment_ok(m.sealed[n - 1]));
        assert forall|f: FoundModel| before.contains(f) implies #[trigger] all.contains(f) by {
            let k = choose|k: int| 0 <= k < before.len() && before[k] == f;
            assert(all[k] == f);
        }
        assert forall|s: int, i: int|
            0 <= s < n && 0 <= i < m.sealed[s].doc_ids.len() implies all.contains(
            #[trigger] found_sealed(m.sealed[s], i, asked),
        ) by {
            if s == n - 1 {
                assert(all[before.len() + i] == more[i]);
            } else {
                assert(before.contains(found_sealed(m.sealed[s], i, asked)));
            }
        }
        assert forall|g: int| 0 <= g < m.growing.len() implies all.contains(
            #[trigger] found_growing(m.growing[g], query),
        ) by {
            assert(before.contains(found_growing(m.growing[g], query)));
        }
    }
}

/// The best of what was found: as many as asked for, as far as there are so many,
/// none scoring less than one behind it, and none is left out for one that scores
/// less.
pub proof fn law_best_found_are_kept(found: Seq<FoundModel>, top_k: int)
    requires
        found.len() <= usize::MAX,
        0 <= top_k,
    ensures
        ({
            let out = best_found(found, top_k);
            &&& out.len() == if top_k < found.len() {
                top_k
            } else {
                found.len() as int
            }
            &&& forall|i: int| 0 <= i < out.len() ==> found.contains(#[trigger] out[i])
            &&& forall|i: int, j: int|
                0 <= i < j < out.len() ==> value_key((#[trigger] out[i]).score_bits) >= value_key(
                    (#[trigger] out[j]).score_bits,
                )
            &&& forall|j: int|
                0 <= j < found.len() ==> out.contains(#[trigger] found[j]) || out.len() == top_k
                    && forall|i: int|
                    0 <= i < out.len() ==> value_key((#[trigger] out[i]).score_bits) >= value_key(
                        found[j].score_bits,
                    )
        }),
{
    let cs = found_candidates(found);
    let out = best_found(found, top_k);
    let order = ranked(cs);
    lemma_first_ranked(cs, out.len() as int);
    assert forall|i: int| 0 <= i < out.len() implies found.contains(#[trigger] out[i]) by {
        assert(out[i] == found[order[i].index as int]);
    }
    assert forall|i: int, j: int| 0 <= i < j < out.len() implies value_key(
        (#[trigger] out[i]).score_bits,
    ) >= value_key((#[trigger] out[j]).score_bits) by {
        assert(order[i] == cs[order[i].index as int]);
        assert(order[j] == cs[order[j].index as int]);
        assert(order[i].key >= order[j].key);
    }
    assert forall|j: int| 0 <= j < found.len() implies out.contains(#[trigger] found[j])
        || out.len() == top_k && forall|i: int|
        0 <= i < out.len() ==> value_key((#[trigger] out[i]).score_bits) >= value_key(
            found[j].score_bits,
        ) by {
        assert(cs[j].index == j);
        if exists|i: int| 0 <= i < out.len() && (#[trigger] order[i]).index == j {
            let i = choose|i: int| 0 <= i < out.len() && (#[trigger] order[i]).index == j;
            assert(out[i] == found[j]);
        } else {
            assert forall|i: int| 0 <= i < out.len() implies value_key(
                (#[trigger] out[i]).score_bits,
            ) >= value_key(found[j].score_bits) by {
                assert(outranks(order[i], cs[j]));
                assert(order[i] == cs[order[i].index as int]);
            }
        }
    }
}

/// A search finds every entry of every segment, unless as many as were asked for
/// score no less.
pub proof fn law_entry_of_a_segment_is_found(
    m: SegmentsModel,
    query: Seq<u32>,
    asked: Seq<u32>,
    top_k: int,
)
    requires
        segments_ok(m),
        all_scored(m, query, asked, m.sealed.len() as int).len() <= usize::MAX,
        0 <= top_k,
    ensures
        ({
            let out = best_found(all_scored(m, query, asked, m.sealed.len() as int), top_k);
            &&& out.len() < top_k ==> forall|g: int|
                0 <= g < m.growing.len() ==> out.contains(
                    #[trigger] found_growing(m.growing[g], query),
                )
            &&& out.len() < top_k ==> forall|s: int, i: int|
                0 <= s < m.sealed.len() && 0 <= i < m.sealed[s].doc_ids.len() ==> out.contains(
                    #[trigger] found_sealed(m.sealed[s], i, asked),
                )
        }),
{
    let n = m.sealed.len() as int;
    let all = all_scored(m, query, asked, n);
    let out = best_found(all, top_k);
    law_every_entry_is_scored(m, query, asked, n);
    law_best_found_are_kept(all, top_k);
    if out.len() < top_k {
        assert forall|f: FoundModel| all.contains(f) implies #[trigger] out.contains(f) by {
            let j = choose|j: int| 0 <= j < all.len() && all[j] == f;
            assert(out.contains(all[j]));
        }
        assert forall|g: int| 0 <= g < m.growing.len() implies out.contains(
            #[trigger] found_growing(m.growing[g], query),
        ) by {
            assert(all.contains(found_growing(m.growing[g], query)));
        }
        assert forall|s: int, i: int|
            0 <= s < m.sealed.len() && 0 <= i < m.sealed[s].doc_ids.len() implies out.contains(
            #[trigger] found_sealed(m.sealed[s], i, asked),
        ) by {
            assert(all.contains(found_sealed(m.sealed[s], i, asked)));
        }
    }
}

/// Every segment is listed once with its temperature, and none before a warmer
/// one.
pub proof fn law_warmest_segments_come_first(sealed: Seq<SegmentModel>, temperatures: Seq<u64>)
    requires
        sealed.len() == temperatures.len(),
        sealed.len() <= usize::MAX,
    ensures
        ({
            let out = by_temperature(sealed, temperatures);
            &&& out.len() == sealed.len()
            &&& forall|j: int|
                0 <= j < sealed.len() ==> out.contains(((#[trigger] sealed[j]).id, temperatures[j]))
            &&& forall|i: int, j: int|
                0 <= i < j < out.len() ==> double_key((#[trigger] out[i]).1) >= double_key(
                    (#[trigger] out[j]).1,
                )
        }),
{
    let cs = warm_candidates(temperatures);
    let out = by_temperature(sealed, temperatures);
    let order = ranked(cs);
    lemma_first_ranked(cs, cs.len() as int);
    assert forall|j: int| 0 <= j < sealed.len() implies out.contains(
        ((#[trigger] sealed[j]).id, temperatures[j]),
    ) by {
        assert(cs[j].index == j);
        let i = choose|i: int| 0 <= i < cs.len() && (#[trigger] order[i]).index == j;
        assert(out[i] == (sealed[j].id, temperatures[j]));
    }
    assert forall|i: int, j: int| 0 <= i < j < out.len() implies double_key(
        (#[trigger] out[i]).1,
    ) >= double_key((#[trigger] out[j]).1) by {
        assert(order[i] == cs[order[i].index as int]);
        assert(order[j] == cs[order[j].index as int]);
        assert(order[i].key >= order[j].key);
    }
}

/// A search makes a segment new, and counts.
pub proof fn law_search_makes_a_segment_new(s: SegmentModel, clock: u64)
    requires
        s.read_count < u64::MAX,
    ensures
        age_of(accessed(s, clock), clock) == 0,
        accessed(s, clock).read_count == s.read_count + 1,
        accessed(s, clock).doc_ids == s.doc_ids,
        accessed(s, clock).quantized == s.quantized,
{
}

/// A sealed entry is scored by its codes: the products of the rotated query and of
/// what each code stands for, its step times the scale and the start.
pub proof fn law_sealed_entry_is_scored_by_its_codes(
    asked: Seq<u32>,
    v: TurboQuantVector,
    i: int,
)
    requires
        asked.len() <= v.dim,
        0 <= i < next_power(v.dim as nat),
    ensures
        sealed_score(asked, v) == products(0, asked, levels_of(v), asked.len() as int),
        levels_of(v).len() == next_power(v.dim as nat),
        levels_of(v)[i] == sum_bits(
            product_bits(
                integer_bits(code_in(v.data@, turbo_width(v.bits), i) as u8 as nat),
                v.scale,
            ),
            v.zero_point,
        ),
{
}

/// The temperature of a segment is the number of its searches times what is left.
pub proof fn law_temperature_is_searches_times_what_is_left(s: SegmentModel, left: u64)
    ensures
        warmth(s, left) == crate::double::product_bits(
            crate::double::integer_bits(s.read_count as nat),
            left,
        ),
{
}

/// Whatever the encoder, a pipeline gives as many of the fused documents as asked for,
/// as far as there are so many, and changes nothing of them but the second score.
pub proof fn law_encoder_orders_what_was_fused<E: CrossEncoder>(
    encoder: &E,
    query: &str,
    fused: Seq<FusedModel>,
    limit: int,
    after: Seq<FusedModel>,
)
    requires
        may_answer(encoder, query, fused, limit, after),
        fused.len() <= usize::MAX,
        0 <= limit,
    ensures
        after.len() == if limit < fused.len() {
            limit
        } else {
            fused.len() as int
        },
        forall|i: int|
            0 <= i < after.len() ==> exists|j: int|
                0 <= j < fused.len() && (#[trigger] after[i]).doc_id == (#[trigger] fused[j]).doc_id
                    && after[i].text == fused[j].text && after[i].rrf_score == fused[j].rrf_score
                    && after[i].sources == fused[j].sources,
{
    if fused.len() > 0 {
        let (documents, scores) = choose|documents: &[&str], scores: Vec<u64>| #[trigger]
            call_ensures(E::score_batch, (encoder, query, documents), scores) && texts(documents@)
                == result_texts(fused) && after == reranked(fused, scores@, limit);
        law_second_ranking_keeps_the_best(fused, scores@, limit);
        assert forall|i: int| 0 <= i < after.len() implies exists|j: int|
            0 <= j < fused.len() && (#[trigger] after[i]).doc_id == (#[trigger] fused[j]).doc_id
                && after[i].text == fused[j].text && after[i].rrf_score == fused[j].rrf_score
                && after[i].sources == fused[j].sources by {
            let j = choose|j: int|
                0 <= j < fused.len() && after[i] == #[trigger] with_second(fused[j], scores@, j);
            assert(after[i].doc_id == fused[j].doc_id);
        }
    }
}

/// Sealing turns the vector of each entry and puts it on a grid of its own.
pub proof fn law_sealed_vectors_are_those_of_the_entries(
    vectors: Seq<TurboQuantVector>,
    entries: Seq<GrowingModel>,
    config: SegmentConfig,
    stages: Seq<StageTurns>,
    i: int,
)
    requires
        are_quantized(vectors, entries, config, stages),
        0 <= i < entries.len(),
    ensures
        vectors.len() == entries.len(),
        is_quantized(
            vectors[i],
            rotated(
                resized(entries[i].embedding, next_power(config.dim as nat)),
                stages,
                stages.len() as int,
            ),
            config.sealed_bits,
        ),
{
}

} // verus!
