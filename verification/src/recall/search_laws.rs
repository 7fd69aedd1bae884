//! What a search of the whole engine gives.

use vstd::prelude::*;

use super::answer_laws::{
    is_answered_by, is_in_order, law_every_answering_note_is_recalled, lexical_ids, title_ids,
    vector_ids,
};
use super::channels::{title_candidates, vector_candidates};
use super::engine::{
    answer, fused_input, may_recall, pool_for, recall_input, recall_models, similarities,
    RecallEngine, RecallInput, RecallMode, RecallResult,
};
use super::fusion::{all_entries, entry_ids, Entry};
use super::laws::{law_answer_is_bounded, law_answer_is_in_order, law_origin_is_left_out};
use super::ranking_laws::title_holds;
use crate::keys::{lemma_place, place};
use crate::semantic::channel::total_order_key;
use crate::shadow::backend::{note_hits, MatchModel};
use crate::shadow::documents::{document_at, DocumentsModel, ShadowHitModel};
use crate::shadow::error::ShadowError;
use crate::shadow::lexical::{is_answer, LexicalModel, MAX_LEXICAL_HITS};
use crate::shadow::notes::{as_matches, may_find};
use crate::text::trim;

verus! {

proof fn lemma_entry_count(entries: Seq<Entry>)
    ensures
        entry_ids(entries).len() <= entries.len(),
    decreases entries.len(),
{
    if entries.len() > 0 {
        lemma_entry_count(entries.drop_last());
        lemma_place(entry_ids(entries.drop_last()), entries.last().id);
    }
}

proof fn lemma_note_count(m: DocumentsModel, query: Seq<char>, found: Seq<MatchModel>)
    ensures
        note_hits(m, query, found).len() <= found.len(),
        forall|k: int|
            0 <= k < note_hits(m, query, found).len() ==> exists|id: Seq<char>|
                #![trigger document_at(m, id)]
                document_at(m, id) is Some && document_at(m, id)->0.doc_id == (
                #[trigger] note_hits(m, query, found)[k]).doc_id,
    decreases found.len(),
{
    if found.len() > 0 {
        let front = found.drop_last();
        lemma_note_count(m, query, front);
        let before = note_hits(m, query, front);
        let all = note_hits(m, query, found);
        assert forall|k: int| 0 <= k < all.len() implies exists|id: Seq<char>|
            #![trigger document_at(m, id)]
            document_at(m, id) is Some && document_at(m, id)->0.doc_id == (
            #[trigger] all[k]).doc_id by {
            if k < before.len() {
                assert(all[k] == before[k]);
                let id = choose|id: Seq<char>|
                    #![trigger document_at(m, id)]
                    document_at(m, id) is Some && document_at(m, id)->0.doc_id == before[k].doc_id;
                assert(document_at(m, id) is Some);
            } else {
                assert(document_at(m, found.last().doc_id) is Some);
            }
        }
    }
}

/// What a search may be answered from: few enough hits that all rankings can be
/// counted.
proof fn lemma_can_be_counted(x: RecallInput, limit: nat)
    requires
        6 * limit <= MAX_LEXICAL_HITS,
        x.lexical.len() <= pool_for(limit),
    ensures
        fused_input(x, pool_for(limit)).len() <= usize::MAX,
{
    let t = title_ids(x, limit);
    let l = lexical_ids(x);
    let v = vector_ids(x, limit);
    crate::order::law_ranked_is_in_order(title_candidates(x.documents.docs, x.query));
    crate::order::law_ranked_is_in_order(vector_candidates(x.documents.docs, x.similarity));
    assert(t.len() <= pool_for(limit));
    assert(v.len() <= pool_for(limit));
    lemma_entry_count(all_entries(t, l, v));
}

proof fn lemma_found(engine: RecallEngine, query: Seq<char>, pool: nat, hits: Seq<ShadowHitModel>)
    requires
        engine.may_find(query, pool, hits),
    ensures
        hits.len() <= pool,
        is_in_order(engine.backend()@.documents) ==> forall|k: int|
            0 <= k < hits.len() ==> document_at(
                engine.backend()@.documents,
                (#[trigger] hits[k]).doc_id,
            ) is Some,
{
    let m = engine.backend()@.documents;
    let docs = engine.backend().indexed();
    let found = choose|found: Seq<LexicalModel>| #[trigger]
        is_answer(found, docs, query, "note"@, pool) && hits == note_hits(
            m,
            query,
            as_matches(found),
        );
    assert(is_answer(found, docs, query, "note"@, pool));
    lemma_note_count(m, query, as_matches(found));
    if is_in_order(m) {
        assert forall|k: int| 0 <= k < hits.len() implies document_at(
            m,
            (#[trigger] hits[k]).doc_id,
        ) is Some by {
            let id = choose|id: Seq<char>|
                #![trigger document_at(m, id)]
                document_at(m, id) is Some && document_at(m, id)->0.doc_id == hits[k].doc_id;
            assert(document_at(m, id) is Some);
            let at = place(m.keys, id);
            lemma_place(m.keys, id);
            assert(m.docs[at].doc_id == m.keys[at]);
        }
    }
}

/// A search that succeeds gives no more results than were asked for, each of a
/// document of the catalogue and with the mode of the search, never the excluded one,
/// and none scoring less than one behind it. For a blank query, or for no results, it
/// gives none.
pub proof fn law_search_gives_the_best_first(
    engine: RecallEngine,
    query: Seq<char>,
    limit: nat,
    mode: RecallMode,
    excluded: Option<Seq<char>>,
    elapsed_us: u128,
    r: Result<Vec<RecallResult>, ShadowError>,
)
    requires
        may_recall(engine, query, limit, mode, excluded, elapsed_us, r),
        r is Ok,
        6 * limit <= MAX_LEXICAL_HITS,
    ensures
        ({
            let out = recall_models((r->Ok_0)@);
            &&& out.len() <= limit
            &&& trim(query).len() == 0 ==> out.len() == 0
            &&& forall|i: int|
                0 <= i < out.len() ==> (#[trigger] out[i]).mode == mode && excluded != Some(
                    out[i].doc_id,
                ) && document_at(engine@, out[i].doc_id) is Some
            &&& forall|i: int, j: int|
                0 <= i < j < out.len() ==> total_order_key((#[trigger] out[i]).score_bits)
                    >= total_order_key((#[trigger] out[j]).score_bits)
        }),
{
    let out = recall_models((r->Ok_0)@);
    if trim(query).len() > 0 && limit > 0 {
        let lexical = choose|lexical: Seq<ShadowHitModel>| #[trigger]
            engine.may_find(query, pool_for(limit) as nat, lexical) && answer(
                recall_input(engine@, query, lexical, mode, elapsed_us),
                limit,
                excluded,
            ) == Some(out);
        let x = recall_input(engine@, query, lexical, mode, elapsed_us);
        lemma_found(engine, query, pool_for(limit) as nat, lexical);
        lemma_can_be_counted(x, limit);
        law_answer_is_bounded(x, limit, excluded);
        assert forall|i: int| 0 <= i < out.len() implies (#[trigger] out[i]).mode == mode
            && excluded != Some(out[i].doc_id) && document_at(engine@, out[i].doc_id) is Some by {
            assert(answer(x, limit, excluded)->0[i] == out[i]);
            if let Some(origin) = excluded {
                law_origin_is_left_out(x, limit, origin, i);
            }
        }
        assert forall|i: int, j: int| 0 <= i < j < out.len() implies total_order_key(
            (#[trigger] out[i]).score_bits,
        ) >= total_order_key((#[trigger] out[j]).score_bits) by {
            law_answer_is_in_order(x, limit, excluded, i, j);
        }
    }
}

/// Whether a note of the catalogue answers a query by its title or by its
/// similarity.
pub open spec fn answers(engine: RecallEngine, query: Seq<char>, a: int) -> bool {
    ||| title_holds(engine@.docs[a], query)
    ||| 0 < similarities(engine@.docs, query)[a] <= 0x7f80_0000
}

/// A search of a small catalogue that succeeds gives every note whose title holds the
/// query, or that is similar to it, but for the excluded one, unless it gives as many
/// as were asked for. All that the full-text index leads to must be in the catalogue.
pub proof fn law_search_finds_every_note_that_answers(
    engine: RecallEngine,
    query: Seq<char>,
    limit: nat,
    mode: RecallMode,
    excluded: Option<Seq<char>>,
    elapsed_us: u128,
    r: Result<Vec<RecallResult>, ShadowError>,
    a: int,
)
    requires
        may_recall(engine, query, limit, mode, excluded, elapsed_us, r),
        r is Ok,
        6 * limit <= MAX_LEXICAL_HITS,
        trim(query).len() > 0,
        limit > 0,
        is_in_order(engine@),
        is_in_order(engine.backend()@.documents),
        forall|id: Seq<char>| #[trigger]
            document_at(engine.backend()@.documents, id) is Some ==> document_at(engine@, id)
                is Some,
        engine@.docs.len() <= 30 || engine@.docs.len() <= 6 * limit,
        0 <= a < engine@.docs.len(),
        excluded != Some(engine@.docs[a].doc_id),
        answers(engine, query, a),
    ensures
        ({
            let out = recall_models((r->Ok_0)@);
            ||| exists|i: int|
                0 <= i < out.len() && (#[trigger] out[i]).doc_id == engine@.docs[a].doc_id
            ||| out.len() == limit
        }),
{
    let out = recall_models((r->Ok_0)@);
    let lexical = choose|lexical: Seq<ShadowHitModel>| #[trigger]
        engine.may_find(query, pool_for(limit) as nat, lexical) && answer(
            recall_input(engine@, query, lexical, mode, elapsed_us),
            limit,
            excluded,
        ) == Some(out);
    let x = recall_input(engine@, query, lexical, mode, elapsed_us);
    lemma_found(engine, query, pool_for(limit) as nat, lexical);
    lemma_can_be_counted(x, limit);
    assert forall|k: int| 0 <= k < x.lexical.len() implies document_at(
        x.documents,
        (#[trigger] x.lexical[k]).doc_id,
    ) is Some by {
        assert(document_at(engine.backend()@.documents, lexical[k].doc_id) is Some);
    }
    assert(is_answered_by(x, a));
    law_every_answering_note_is_recalled(x, limit, excluded, a);
}

} // verus!
