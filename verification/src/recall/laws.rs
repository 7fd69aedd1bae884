//! What holds of every answer of the recall engine.

use vstd::prelude::*;

use super::engine::{
    answer, best_of, fused_input, is_search, pool_for, shown_all, survivors, RecallInput,
    RecallModel,
};
use super::fusion::{
    entry_ids, fused, lemma_entry_ids, score_of, term, weight, Channel, Entry, FusedModel,
};
use crate::float::{is_number, lemma_pow2_values, rounded, sum, two_to};
use crate::order::{
    in_order, law_ranked_is_in_order, lemma_ranked_members, outranks, ranked, CandidateModel,
};
use crate::rounding::{
    lemma_adding_more, lemma_adding_no_less, lemma_integer_range, lemma_quotient_falls,
    lemma_sum_is_monotone, no_more,
};
use crate::semantic::channel::total_order_key;
use crate::shadow::documents::document_at;

verus! {

/// A candidate stands for the fused identifier at its index, and is not the
/// excluded one.
pub open spec fn stands_for(
    fs: Seq<FusedModel>,
    excluded: Option<Seq<char>>,
    c: CandidateModel,
) -> bool {
    &&& c.index < fs.len()
    &&& c.id == fs[c.index as int].id
    &&& c.key == total_order_key(fs[c.index as int].score_bits)
    &&& excluded != Some(c.id)
}

proof fn lemma_survivors(fs: Seq<FusedModel>, excluded: Option<Seq<char>>, i: int)
    requires
        fs.len() <= usize::MAX,
        0 <= i < survivors(fs, excluded).len(),
    ensures
        stands_for(fs, excluded, survivors(fs, excluded)[i]),
    decreases fs.len(),
{
    let front = fs.drop_last();
    let before = survivors(front, excluded);
    if i < before.len() {
        lemma_survivors(front, excluded, i);
        assert(survivors(fs, excluded)[i] == before[i]);
        assert(front[before[i].index as int] == fs[before[i].index as int]);
    }
}

proof fn lemma_best(fs: Seq<FusedModel>, excluded: Option<Seq<char>>, limit: int)
    requires
        fs.len() <= usize::MAX,
        0 <= limit,
    ensures
        best_of(fs, excluded, limit).len() <= limit,
        in_order(best_of(fs, excluded, limit)),
        forall|i: int|
            0 <= i < best_of(fs, excluded, limit).len() ==> stands_for(
                fs,
                excluded,
                #[trigger] best_of(fs, excluded, limit)[i],
            ),
{
    let cs = survivors(fs, excluded);
    law_ranked_is_in_order(cs);
    assert forall|i: int| 0 <= i < best_of(fs, excluded, limit).len() implies stands_for(
        fs,
        excluded,
        #[trigger] best_of(fs, excluded, limit)[i],
    ) by {
        lemma_ranked_members(cs, i);
        let j = choose|j: int| 0 <= j < cs.len() && cs[j] == ranked(cs)[i];
        lemma_survivors(fs, excluded, j);
    }
}

/// What holds of each result: it has the mode of the query, its document is in
/// the catalogue, and it comes from the candidate at some place.
pub open spec fn result_of(
    x: RecallInput,
    fs: Seq<FusedModel>,
    order: Seq<CandidateModel>,
    m: RecallModel,
    k: int,
) -> bool {
    &&& 0 <= k < order.len()
    &&& m.mode == x.mode
    &&& m.doc_id == fs[order[k].index as int].id
    &&& m.score_bits == fs[order[k].index as int].score_bits
    &&& document_at(x.documents, m.doc_id) is Some
}

proof fn lemma_shown(
    x: RecallInput,
    fs: Seq<FusedModel>,
    order: Seq<CandidateModel>,
    i: int,
) -> (k: int)
    requires
        shown_all(x, fs, order) is Some,
        0 <= i < shown_all(x, fs, order)->0.len(),
    ensures
        i <= k,
        result_of(x, fs, order, shown_all(x, fs, order)->0[i], k),
    decreases order.len(),
{
    let front = order.drop_last();
    let before = shown_all(x, fs, front)->0;
    lemma_shown_len(x, fs, front);
    if i < before.len() {
        let k = lemma_shown(x, fs, front, i);
        assert(front[k] == order[k]);
        k
    } else {
        order.len() - 1
    }
}

proof fn lemma_shown_len(x: RecallInput, fs: Seq<FusedModel>, order: Seq<CandidateModel>)
    requires
        shown_all(x, fs, order) is Some,
    ensures
        shown_all(x, fs, order)->0.len() <= order.len(),
    decreases order.len(),
{
    if order.len() > 0 {
        lemma_shown_len(x, fs, order.drop_last());
    }
}

/// Results come in the order of the candidates that they come from.
proof fn lemma_shown_ordered(
    x: RecallInput,
    fs: Seq<FusedModel>,
    order: Seq<CandidateModel>,
    i: int,
    j: int,
) -> (p: (int, int))
    requires
        shown_all(x, fs, order) is Some,
        0 <= i < j < shown_all(x, fs, order)->0.len(),
    ensures
        p.0 < p.1,
        result_of(x, fs, order, shown_all(x, fs, order)->0[i], p.0),
        result_of(x, fs, order, shown_all(x, fs, order)->0[j], p.1),
    decreases order.len(),
{
    let front = order.drop_last();
    let before = shown_all(x, fs, front)->0;
    lemma_shown_len(x, fs, front);
    if j < before.len() {
        let p = lemma_shown_ordered(x, fs, front, i, j);
        assert(front[p.0] == order[p.0]);
        assert(front[p.1] == order[p.1]);
        p
    } else {
        let k = lemma_shown(x, fs, front, i);
        assert(front[k] == order[k]);
        (k, order.len() - 1)
    }
}

/// An answer never holds the document that is left out, so ambient recall
/// never gives back the note that is being written.
pub proof fn law_origin_is_left_out(
    x: RecallInput,
    limit: nat,
    origin: Seq<char>,
    i: int,
)
    requires
        fused_input(x, pool_for(limit)).len() <= usize::MAX,
        answer(x, limit, Some(origin)) is Some,
        0 <= i < answer(x, limit, Some(origin))->0.len(),
    ensures
        answer(x, limit, Some(origin))->0[i].doc_id != origin,
{
    let fs = fused_input(x, pool_for(limit));
    lemma_best(fs, Some(origin), limit as int);
    let order = best_of(fs, Some(origin), limit as int);
    let k = lemma_shown(x, fs, order, i);
    assert(stands_for(fs, Some(origin), order[k]));
}

/// An answer holds no more results than asked for. Each has the mode of the
/// query and the identifier of a document in the catalogue.
pub proof fn law_answer_is_bounded(x: RecallInput, limit: nat, excluded: Option<Seq<char>>)
    requires
        fused_input(x, pool_for(limit)).len() <= usize::MAX,
        answer(x, limit, excluded) is Some,
    ensures
        answer(x, limit, excluded)->0.len() <= limit,
        forall|i: int|
            0 <= i < answer(x, limit, excluded)->0.len() ==> (#[trigger] answer(
                x,
                limit,
                excluded,
            )->0[i]).mode == x.mode && document_at(
                x.documents,
                answer(x, limit, excluded)->0[i].doc_id,
            ) is Some,
{
    if is_search(x.query, limit) {
        let fs = fused_input(x, pool_for(limit));
        lemma_best(fs, excluded, limit as int);
        let order = best_of(fs, excluded, limit as int);
        lemma_shown_len(x, fs, order);
        assert forall|i: int| 0 <= i < answer(x, limit, excluded)->0.len() implies (
        #[trigger] answer(x, limit, excluded)->0[i]).mode == x.mode && document_at(
            x.documents,
            answer(x, limit, excluded)->0[i].doc_id,
        ) is Some by {
            let k = lemma_shown(x, fs, order, i);
        }
    }
}

/// In an answer no result scores less than one behind it.
pub proof fn law_answer_is_in_order(
    x: RecallInput,
    limit: nat,
    excluded: Option<Seq<char>>,
    i: int,
    j: int,
)
    requires
        fused_input(x, pool_for(limit)).len() <= usize::MAX,
        answer(x, limit, excluded) is Some,
        0 <= i < j < answer(x, limit, excluded)->0.len(),
    ensures
        total_order_key(answer(x, limit, excluded)->0[i].score_bits) >= total_order_key(
            answer(x, limit, excluded)->0[j].score_bits,
        ),
{
    let fs = fused_input(x, pool_for(limit));
    lemma_best(fs, excluded, limit as int);
    let order = best_of(fs, excluded, limit as int);
    let p = lemma_shown_ordered(x, fs, order, i, j);
    assert(stands_for(fs, excluded, order[p.0]));
    assert(stands_for(fs, excluded, order[p.1]));
    assert(!outranks(order[p.1], order[p.0]));
}

/// Every fused identifier is named by at least one ranking.
pub proof fn law_fused_is_named(entries: Seq<Entry>, i: int)
    requires
        0 <= i < fused(entries).len(),
    ensures
        fused(entries)[i].title || fused(entries)[i].bm25 || fused(entries)[i].trigram_vector,
{
    lemma_entry_ids(entries);
    let ids = entry_ids(entries);
    assert(ids.contains(ids[i]));
    let k = choose|k: int| 0 <= k < entries.len() && (#[trigger] entries[k]).id == ids[i];
    match entries[k].channel {
        Channel::Title => {},
        Channel::Bm25 => {},
        Channel::TrigramVector => {},
    }
}

/// In one ranking, a better rank never adds less.
pub proof fn law_better_rank_adds_no_less(channel: Channel, better: nat, worse: nat)
    requires
        better <= worse <= u64::MAX,
    ensures
        is_number(24, term(channel, better)),
        term(channel, better).m > 0,
        no_more(term(channel, worse), term(channel, better)),
{
    lemma_pow2_values();
    let base = rounded(24, 60, 1);
    let one = two_to(24, 0);
    lemma_integer_range(24, 60);
    lemma_adding_more(24, base, better, worse);
    let a = sum(24, base, rounded(24, better as int, 1));
    let b = sum(24, base, rounded(24, worse as int, 1));
    lemma_sum_is_monotone(24, a, b, one);
    lemma_adding_no_less(24, a, one);
    lemma_adding_no_less(24, b, one);
    assert(is_number(24, weight(channel)));
    lemma_quotient_falls(24, weight(channel), sum(24, a, one), sum(24, b, one));
    lemma_quotient_falls(24, weight(channel), sum(24, b, one), sum(24, b, one));
}

/// Whether the ranks of places can be counted.
pub open spec fn are_places(entries: Seq<Entry>) -> bool {
    forall|i: int| 0 <= i < entries.len() ==> (#[trigger] entries[i]).rank <= u64::MAX
}

proof fn lemma_score(entries: Seq<Entry>, id: Seq<char>)
    requires
        are_places(entries),
    ensures
        is_number(24, score_of(entries, id)),
        score_of(entries, id).m >= 0,
    decreases entries.len(),
{
    if entries.len() > 0 {
        lemma_score(entries.drop_last(), id);
        let last = entries[entries.len() - 1];
        law_better_rank_adds_no_less(last.channel, last.rank, last.rank);
        lemma_adding_no_less(
            24,
            score_of(entries.drop_last(), id),
            term(last.channel, last.rank),
        );
    }
}

/// One more place never makes a document score less, and leaves the score of
/// every other.
pub proof fn law_one_more_place_scores_no_less(entries: Seq<Entry>, place: Entry, id: Seq<char>)
    requires
        are_places(entries),
        place.rank <= u64::MAX,
    ensures
        no_more(score_of(entries, id), score_of(entries.push(place), id)),
        place.id != id ==> score_of(entries.push(place), id) == score_of(entries, id),
{
    lemma_score(entries, id);
    law_better_rank_adds_no_less(place.channel, place.rank, place.rank);
    assert(entries.push(place).drop_last() =~= entries);
    lemma_adding_no_less(24, score_of(entries, id), term(place.channel, place.rank));
}

} // verus!
