//! What an answer of the recall engine holds and what it leaves out.

use vstd::prelude::*;

use super::channels::{first_ids, title_candidates, vector_candidates};
use super::engine::{
    ambient_text, answer, best_of, found_by, fused_input, lexical_snippet, pool_for, shown,
    shown_all, similarities, survivors, RecallInput, Shown,
};
use super::fusion::{
    all_entries, channel_entries, entry_ids, fused, fused_of, is_named, lemma_entry_ids, score_of,
    Channel, Entry, FusedModel,
};
use super::ranking_laws::{
    have_own_ids, law_similarities_are_ranked, law_titles_are_ranked, title_holds,
};
use super::similarity::{similarity_bits, text_vector};
use super::snippet::snippet_for;
use crate::float::single_bits;
use crate::keys::lemma_has_key;
use crate::order::{
    law_greater_key_comes_first, law_ranked_is_in_order, lemma_ranked_holds, lemma_ranked_members,
    ranked, CandidateModel,
};
use crate::semantic::channel::total_order_key;
use crate::shadow::documents::{
    document_at, documents_ok, DocumentModel, DocumentsModel, ShadowHitModel,
};
use crate::shadow::matching::lowercase;
use crate::text::{is_whitespace, law_trim_takes_white_space_off, text_lt, trim};

verus! {

/// The identifiers that the titles name for a query.
pub open spec fn title_ids(x: RecallInput, limit: nat) -> Seq<Seq<char>> {
    first_ids(title_candidates(x.documents.docs, x.query), pool_for(limit))
}

/// The identifiers that the full-text index names.
pub open spec fn lexical_ids(x: RecallInput) -> Seq<Seq<char>> {
    x.lexical.map_values(|h: ShadowHitModel| h.doc_id)
}

/// The identifiers that the similarities name.
pub open spec fn vector_ids(x: RecallInput, limit: nat) -> Seq<Seq<char>> {
    first_ids(vector_candidates(x.documents.docs, x.similarity), pool_for(limit))
}

/// Whether a ranking names an identifier.
pub open spec fn is_found(x: RecallInput, limit: nat, id: Seq<char>) -> bool {
    title_ids(x, limit).contains(id) || lexical_ids(x).contains(id) || vector_ids(
        x,
        limit,
    ).contains(id)
}

/// The bits of the score that the places of an identifier add up to.
pub open spec fn found_score(x: RecallInput, limit: nat, id: Seq<char>) -> u32 {
    single_bits(
        score_of(all_entries(title_ids(x, limit), lexical_ids(x), vector_ids(x, limit)), id),
    ) as u32
}

/// Whether a score and an identifier come before others: by a greater score, of
/// equal scores by a smaller identifier.
pub open spec fn is_before(score: u32, id: Seq<char>, other_score: u32, other: Seq<char>) -> bool {
    ||| total_order_key(score) > total_order_key(other_score)
    ||| total_order_key(score) == total_order_key(other_score) && text_lt(id, other)
}

proof fn lemma_named(
    ids: Seq<Seq<char>>,
    before: Seq<Entry>,
    after: Seq<Entry>,
    c: Channel,
    id: Seq<char>,
)
    ensures
        is_named(channel_entries(c, ids), c, id) <==> ids.contains(id),
        ids.contains(id) ==> is_named(before + channel_entries(c, ids) + after, c, id),
        is_named(before + channel_entries(c, ids) + after, c, id) ==> is_named(before, c, id)
            || ids.contains(id) || is_named(after, c, id),
{
    let mid = channel_entries(c, ids);
    let all = before + mid + after;
    if ids.contains(id) {
        let i = choose|i: int| 0 <= i < ids.len() && ids[i] == id;
        assert(mid[i].id == id && mid[i].channel == c);
        assert(all[before.len() + i] == mid[i]);
    }
    if is_named(mid, c, id) {
        let i = choose|i: int|
            0 <= i < mid.len() && (#[trigger] mid[i]).id == id && mid[i].channel == c;
        assert(ids[i] == id);
    }
    if is_named(all, c, id) {
        let i = choose|i: int|
            0 <= i < all.len() && (#[trigger] all[i]).id == id && all[i].channel == c;
        if i < before.len() {
            assert(before[i] == all[i]);
        } else if i < before.len() + mid.len() {
            assert(mid[i - before.len()] == all[i]);
            assert(ids[i - before.len()] == id);
        } else {
            assert(after[i - before.len() - mid.len()] == all[i]);
        }
    }
}

/// A ranking names exactly its identifiers.
proof fn lemma_all_named(t: Seq<Seq<char>>, l: Seq<Seq<char>>, v: Seq<Seq<char>>, id: Seq<char>)
    ensures
        is_named(all_entries(t, l, v), Channel::Title, id) <==> t.contains(id),
        is_named(all_entries(t, l, v), Channel::Bm25, id) <==> l.contains(id),
        is_named(all_entries(t, l, v), Channel::TrigramVector, id) <==> v.contains(id),
        entry_ids(all_entries(t, l, v)).contains(id) <==> t.contains(id) || l.contains(id)
            || v.contains(id),
{
    let a = channel_entries(Channel::Title, t);
    let b = channel_entries(Channel::Bm25, l);
    let c = channel_entries(Channel::TrigramVector, v);
    let all = all_entries(t, l, v);
    let none = Seq::<Entry>::empty();
    assert(all =~= none + a + (b + c));
    assert(all =~= a + b + c);
    assert(all =~= (a + b) + c + none);
    lemma_named(t, none, b + c, Channel::Title, id);
    lemma_named(l, a, c, Channel::Bm25, id);
    lemma_named(v, a + b, none, Channel::TrigramVector, id);
    lemma_entry_ids(all);
    if entry_ids(all).contains(id) {
        let i = choose|i: int| 0 <= i < all.len() && (#[trigger] all[i]).id == id;
        assert(is_named(all, all[i].channel, id));
    }
    if is_named(all, Channel::Title, id) {
        let i = choose|i: int|
            0 <= i < all.len() && (#[trigger] all[i]).id == id && all[i].channel == Channel::Title;
    }
    if is_named(all, Channel::Bm25, id) {
        let i = choose|i: int|
            0 <= i < all.len() && (#[trigger] all[i]).id == id && all[i].channel == Channel::Bm25;
    }
    if is_named(all, Channel::TrigramVector, id) {
        let i = choose|i: int|
            0 <= i < all.len() && (#[trigger] all[i]).id == id && all[i].channel
                == Channel::TrigramVector;
    }
}

proof fn lemma_survivor(fs: Seq<FusedModel>, excluded: Option<Seq<char>>, f: int) -> (c: int)
    requires
        fs.len() <= usize::MAX,
        0 <= f < fs.len(),
        excluded != Some(fs[f].id),
    ensures
        0 <= c < survivors(fs, excluded).len(),
        survivors(fs, excluded)[c] == (CandidateModel {
            key: total_order_key(fs[f].score_bits) as i64,
            id: fs[f].id,
            index: f as usize,
        }),
    decreases fs.len(),
{
    let front = fs.drop_last();
    let before = survivors(front, excluded);
    if f < front.len() {
        let c = lemma_survivor(front, excluded, f);
        assert(survivors(fs, excluded)[c] == before[c]);
        c
    } else {
        before.len() as int
    }
}

/// A candidate stands for a fused identifier that is not the excluded one.
proof fn lemma_survivors_stand(fs: Seq<FusedModel>, excluded: Option<Seq<char>>, c: int)
    requires
        fs.len() <= usize::MAX,
        0 <= c < survivors(fs, excluded).len(),
    ensures
        ({
            let s = survivors(fs, excluded)[c];
            &&& s.index < fs.len()
            &&& s.id == fs[s.index as int].id
            &&& s.key == total_order_key(fs[s.index as int].score_bits)
            &&& excluded != Some(s.id)
        }),
    decreases fs.len(),
{
    let front = fs.drop_last();
    let before = survivors(front, excluded);
    if c < before.len() {
        lemma_survivors_stand(front, excluded, c);
        assert(survivors(fs, excluded)[c] == before[c]);
        assert(front[before[c].index as int] == fs[before[c].index as int]);
    }
}

proof fn lemma_best_members(fs: Seq<FusedModel>, excluded: Option<Seq<char>>, limit: int, k: int)
    requires
        fs.len() <= usize::MAX,
        0 <= limit,
        0 <= k < best_of(fs, excluded, limit).len(),
    ensures
        ({
            let s = best_of(fs, excluded, limit)[k];
            &&& s == ranked(survivors(fs, excluded))[k]
            &&& s.index < fs.len()
            &&& s.id == fs[s.index as int].id
            &&& s.key == total_order_key(fs[s.index as int].score_bits)
            &&& excluded != Some(s.id)
        }),
{
    let cs = survivors(fs, excluded);
    law_ranked_is_in_order(cs);
    lemma_ranked_members(cs, k);
    let j = choose|j: int| 0 <= j < cs.len() && cs[j] == ranked(cs)[k];
    lemma_survivors_stand(fs, excluded, j);
}

/// What is fused and not excluded is among the best, or all of these come before
/// it.
proof fn lemma_best_complete(fs: Seq<FusedModel>, excluded: Option<Seq<char>>, limit: int, f: int)
    requires
        fs.len() <= usize::MAX,
        0 <= limit,
        0 <= f < fs.len(),
        excluded != Some(fs[f].id),
        forall|i: int, j: int| 0 <= i < j < fs.len() ==> fs[i].id != fs[j].id,
    ensures
        ({
            let best = best_of(fs, excluded, limit);
            ||| exists|k: int| 0 <= k < best.len() && (#[trigger] best[k]).index == f
            ||| best.len() == limit && forall|k: int|
                0 <= k < best.len() ==> is_before(
                    fs[(#[trigger] best[k]).index as int].score_bits,
                    best[k].id,
                    fs[f].score_bits,
                    fs[f].id,
                )
        }),
{
    let cs = survivors(fs, excluded);
    let order = ranked(cs);
    let best = best_of(fs, excluded, limit);
    law_ranked_is_in_order(cs);
    let c = lemma_survivor(fs, excluded, f);
    let at = lemma_ranked_holds(cs, c);
    if at < best.len() {
        assert(best[at].index == f);
    } else if forall|k: int| 0 <= k < best.len() ==> (#[trigger] best[k]).index != f {
        assert forall|k: int| 0 <= k < best.len() implies is_before(
            fs[(#[trigger] best[k]).index as int].score_bits,
            best[k].id,
            fs[f].score_bits,
            fs[f].id,
        ) by {
            lemma_best_members(fs, excluded, limit, k);
            law_greater_key_comes_first(cs, k, at);
            if best[k].id == fs[f].id && best[k].index != f {
                let a = best[k].index as int;
                if a < f {
                    assert(fs[a].id != fs[f].id);
                } else {
                    assert(fs[f].id != fs[a].id);
                }
            }
        }
    }
}

/// A candidate whose document is in the catalogue gives a result.
proof fn lemma_shown_complete(
    x: RecallInput,
    fs: Seq<FusedModel>,
    order: Seq<CandidateModel>,
    k: int,
) -> (i: int)
    requires
        shown_all(x, fs, order) is Some,
        0 <= k < order.len(),
        document_at(x.documents, fs[order[k].index as int].id) is Some,
    ensures
        0 <= i < shown_all(x, fs, order)->0.len(),
        shown(x, fs[order[k].index as int]) == Shown::Result(shown_all(x, fs, order)->0[i]),
    decreases order.len(),
{
    let front = order.drop_last();
    let before = shown_all(x, fs, front)->0;
    if k < front.len() {
        assert(front[k] == order[k]);
        let i = lemma_shown_complete(x, fs, front, k);
        assert(shown_all(x, fs, order)->0[i] == before[i]);
        i
    } else {
        before.len() as int
    }
}

proof fn lemma_shown_full(x: RecallInput, fs: Seq<FusedModel>, order: Seq<CandidateModel>)
    requires
        shown_all(x, fs, order) is Some,
        forall|k: int|
            0 <= k < order.len() ==> document_at(
                x.documents,
                fs[(#[trigger] order[k]).index as int].id,
            ) is Some,
    ensures
        shown_all(x, fs, order)->0.len() == order.len(),
    decreases order.len(),
{
    if order.len() > 0 {
        let front = order.drop_last();
        assert forall|k: int| 0 <= k < front.len() implies document_at(
            x.documents,
            fs[(#[trigger] front[k]).index as int].id,
        ) is Some by {
            assert(front[k] == order[k]);
        }
        lemma_shown_full(x, fs, front);
        assert(order.last() == order[order.len() - 1]);
    }
}

/// Every result comes from a candidate.
proof fn lemma_shown_from(
    x: RecallInput,
    fs: Seq<FusedModel>,
    order: Seq<CandidateModel>,
    i: int,
) -> (k: int)
    requires
        shown_all(x, fs, order) is Some,
        0 <= i < shown_all(x, fs, order)->0.len(),
    ensures
        0 <= k < order.len(),
        shown(x, fs[order[k].index as int]) == Shown::Result(shown_all(x, fs, order)->0[i]),
    decreases order.len(),
{
    let front = order.drop_last();
    let before = shown_all(x, fs, front)->0;
    if i < before.len() {
        let k = lemma_shown_from(x, fs, front, i);
        assert(front[k] == order[k]);
        k
    } else {
        order.len() - 1
    }
}

proof fn lemma_fused_differ(entries: Seq<Entry>)
    ensures
        forall|i: int, j: int|
            0 <= i < j < fused(entries).len() ==> fused(entries)[i].id != fused(entries)[j].id,
{
    lemma_entry_ids(entries);
    let ids = entry_ids(entries);
    assert forall|i: int, j: int| 0 <= i < j < fused(entries).len() implies fused(entries)[i].id
        != fused(entries)[j].id by {
        crate::text::lemma_text_lt_irreflexive(ids[i]);
        assert(text_lt(ids[i], ids[j]));
    }
}

/// An answer keeps the best. A document of the catalogue that a ranking names, and
/// that is not the excluded one, is in it with the score of its places, or every
/// result comes before it: by a greater score, of equal scores by a smaller
/// identifier. Where all that the rankings name is in the catalogue, it is left out
/// only of an answer with as many results as were asked for.
pub proof fn law_answer_keeps_the_best(
    x: RecallInput,
    limit: nat,
    excluded: Option<Seq<char>>,
    id: Seq<char>,
)
    requires
        fused_input(x, pool_for(limit)).len() <= usize::MAX,
        answer(x, limit, excluded) is Some,
        trim(x.query).len() > 0,
        limit > 0,
        is_found(x, limit, id),
        document_at(x.documents, id) is Some,
        excluded != Some(id),
    ensures
        ({
            let out = answer(x, limit, excluded)->0;
            ||| exists|i: int|
                0 <= i < out.len() && (#[trigger] out[i]).doc_id == id && out[i].score_bits
                    == found_score(x, limit, id)
            ||| {
                &&& forall|i: int|
                    0 <= i < out.len() ==> is_before(
                        (#[trigger] out[i]).score_bits,
                        out[i].doc_id,
                        found_score(x, limit, id),
                        id,
                    )
                &&& (forall|other: Seq<char>| #[trigger]
                    is_found(x, limit, other) ==> document_at(x.documents, other) is Some)
                    ==> out.len() == limit
            }
        }),
{
    let entries = all_entries(title_ids(x, limit), lexical_ids(x), vector_ids(x, limit));
    let fs = fused_input(x, pool_for(limit));
    assert(fs == fused(entries));
    let order = best_of(fs, excluded, limit as int);
    let out = answer(x, limit, excluded)->0;
    lemma_all_named(title_ids(x, limit), lexical_ids(x), vector_ids(x, limit), id);
    let ids = entry_ids(entries);
    let f = choose|f: int| 0 <= f < ids.len() && ids[f] == id;
    assert(fs[f] == fused_of(entries, id));
    lemma_fused_differ(entries);
    lemma_best_complete(fs, excluded, limit as int, f);
    if exists|k: int| 0 <= k < order.len() && (#[trigger] order[k]).index == f {
        let k = choose|k: int| 0 <= k < order.len() && (#[trigger] order[k]).index == f;
        let i = lemma_shown_complete(x, fs, order, k);
        assert(out[i].doc_id == id && out[i].score_bits == found_score(x, limit, id));
    } else {
        assert forall|i: int| 0 <= i < out.len() implies is_before(
            (#[trigger] out[i]).score_bits,
            out[i].doc_id,
            found_score(x, limit, id),
            id,
        ) by {
            let k = lemma_shown_from(x, fs, order, i);
            lemma_best_members(fs, excluded, limit as int, k);
            assert(is_before(
                fs[order[k].index as int].score_bits,
                order[k].id,
                fs[f].score_bits,
                fs[f].id,
            ));
        }
        if forall|other: Seq<char>| #[trigger]
            is_found(x, limit, other) ==> document_at(x.documents, other) is Some {
            assert forall|k: int| 0 <= k < order.len() implies document_at(
                x.documents,
                fs[(#[trigger] order[k]).index as int].id,
            ) is Some by {
                lemma_best_members(fs, excluded, limit as int, k);
                let other = fs[order[k].index as int].id;
                lemma_all_named(title_ids(x, limit), lexical_ids(x), vector_ids(x, limit), other);
                assert(ids.contains(ids[order[k].index as int]));
                assert(is_found(x, limit, other));
            }
            lemma_shown_full(x, fs, order);
        }
    }
}

/// Whether the documents of a catalogue stand under their own identifiers.
pub open spec fn is_in_order(m: DocumentsModel) -> bool {
    &&& documents_ok(m)
    &&& forall|i: int| 0 <= i < m.docs.len() ==> (#[trigger] m.docs[i]).doc_id == m.keys[i]
}

proof fn lemma_own_ids(m: DocumentsModel)
    requires
        is_in_order(m),
    ensures
        have_own_ids(m.docs),
        forall|i: int|
            0 <= i < m.docs.len() ==> document_at(m, (#[trigger] m.docs[i]).doc_id) is Some,
{
    assert forall|i: int, j: int| 0 <= i < j < m.docs.len() implies (
    #[trigger] m.docs[i]).doc_id != (#[trigger] m.docs[j]).doc_id by {
        crate::text::lemma_text_lt_irreflexive(m.keys[i]);
        assert(text_lt(m.keys[i], m.keys[j]));
    }
    assert forall|i: int| 0 <= i < m.docs.len() implies document_at(
        m,
        (#[trigger] m.docs[i]).doc_id,
    ) is Some by {
        lemma_has_key(m.keys, m.keys[i]);
        assert(m.keys.contains(m.keys[i]));
    }
}

/// Whether a note answers a query in one of three ways: the full-text index found
/// it, its title holds the query, or it is similar to the query.
pub open spec fn is_answered_by(x: RecallInput, a: int) -> bool {
    ||| exists|k: int|
        0 <= k < x.lexical.len() && (#[trigger] x.lexical[k]).doc_id == x.documents.docs[a].doc_id
    ||| title_holds(x.documents.docs[a], x.query)
    ||| 0 < x.similarity[a] <= 0x7f80_0000
}

/// A search gives back every note of a small catalogue that answers the query, but
/// for the excluded one, unless it gives as many as were asked for. Small is a
/// catalogue of thirty notes, or of six for each result that was asked for.
pub proof fn law_every_answering_note_is_recalled(
    x: RecallInput,
    limit: nat,
    excluded: Option<Seq<char>>,
    a: int,
)
    requires
        fused_input(x, pool_for(limit)).len() <= usize::MAX,
        answer(x, limit, excluded) is Some,
        trim(x.query).len() > 0,
        0 < limit,
        6 * limit <= usize::MAX,
        is_in_order(x.documents),
        x.documents.docs.len() <= 30 || x.documents.docs.len() <= 6 * limit,
        forall|k: int|
            0 <= k < x.lexical.len() ==> document_at(
                x.documents,
                (#[trigger] x.lexical[k]).doc_id,
            ) is Some,
        0 <= a < x.documents.docs.len(),
        excluded != Some(x.documents.docs[a].doc_id),
        is_answered_by(x, a),
    ensures
        ({
            let out = answer(x, limit, excluded)->0;
            ||| exists|i: int|
                0 <= i < out.len() && (#[trigger] out[i]).doc_id == x.documents.docs[a].doc_id
            ||| out.len() == limit
        }),
{
    let docs = x.documents.docs;
    let id = docs[a].doc_id;
    let pool = pool_for(limit);
    lemma_own_ids(x.documents);
    law_titles_are_ranked(docs, x.query, pool);
    law_similarities_are_ranked(docs, x.similarity, pool);
    if title_holds(docs[a], x.query) {
        assert(title_ids(x, limit).contains(id));
    }
    if 0 < x.similarity[a] <= 0x7f80_0000 {
        assert(vector_ids(x, limit).contains(id));
    }
    if exists|k: int| 0 <= k < x.lexical.len() && (#[trigger] x.lexical[k]).doc_id == id {
        let k = choose|k: int| 0 <= k < x.lexical.len() && (#[trigger] x.lexical[k]).doc_id == id;
        assert(lexical_ids(x)[k] == id);
    }
    assert(is_found(x, limit, id));
    assert forall|other: Seq<char>| #[trigger] is_found(x, limit, other) implies document_at(
        x.documents,
        other,
    ) is Some by {
        if lexical_ids(x).contains(other) {
            let k = choose|k: int| 0 <= k < lexical_ids(x).len() && lexical_ids(x)[k] == other;
            assert(x.lexical[k].doc_id == other);
        }
    }
    law_answer_keeps_the_best(x, limit, excluded, id);
}

/// A blank query, or one for no results, is answered with none.
pub proof fn law_nothing_is_recalled_for_nothing(
    x: RecallInput,
    limit: nat,
    excluded: Option<Seq<char>>,
)
    requires
        limit == 0 || forall|i: int| 0 <= i < x.query.len() ==> is_whitespace(#[trigger] x.query[i]),
    ensures
        answer(x, limit, excluded) == Some(Seq::<super::engine::RecallModel>::empty()),
{
    if limit > 0 {
        let none = Seq::<char>::empty();
        law_trim_takes_white_space_off(x.query, none, none);
        assert(x.query + none + none =~= x.query);
    }
}

/// The rankings that a result names are those that name its document.
pub proof fn law_channels_tell_what_found_it(
    x: RecallInput,
    limit: nat,
    excluded: Option<Seq<char>>,
    i: int,
)
    requires
        fused_input(x, pool_for(limit)).len() <= usize::MAX,
        answer(x, limit, excluded) is Some,
        0 <= i < answer(x, limit, excluded)->0.len(),
    ensures
        ({
            let m = answer(x, limit, excluded)->0[i];
            &&& m.channels.contains("title"@) <==> title_ids(x, limit).contains(m.doc_id)
            &&& m.channels.contains("bm25"@) <==> lexical_ids(x).contains(m.doc_id)
            &&& m.channels.contains("trigram-vector"@) <==> vector_ids(x, limit).contains(m.doc_id)
            &&& m.score_bits == found_score(x, limit, m.doc_id)
            &&& m.title == document_at(x.documents, m.doc_id)->0.title
            &&& is_found(x, limit, m.doc_id)
        }),
{
    reveal_strlit("title");
    reveal_strlit("bm25");
    reveal_strlit("trigram-vector");
    let entries = all_entries(title_ids(x, limit), lexical_ids(x), vector_ids(x, limit));
    let fs = fused_input(x, pool_for(limit));
    assert(fs == fused(entries));
    let order = best_of(fs, excluded, limit as int);
    let m = answer(x, limit, excluded)->0[i];
    let k = lemma_shown_from(x, fs, order, i);
    lemma_best_members(fs, excluded, limit as int, k);
    let at = order[k].index as int;
    let f = fs[at];
    assert(f == fused_of(entries, entry_ids(entries)[at]));
    assert(entry_ids(entries).contains(entry_ids(entries)[at]));
    lemma_all_named(title_ids(x, limit), lexical_ids(x), vector_ids(x, limit), f.id);
    lemma_found_by(f);
}

proof fn lemma_found_by(f: FusedModel)
    ensures
        found_by(f).contains("title"@) <==> f.title,
        found_by(f).contains("bm25"@) <==> f.bm25,
        found_by(f).contains("trigram-vector"@) <==> f.trigram_vector,
{
    reveal_strlit("title");
    reveal_strlit("bm25");
    reveal_strlit("trigram-vector");
    let s = found_by(f);
    let t = "title"@;
    let b = "bm25"@;
    let v = "trigram-vector"@;
    assert(t.len() == 5 && b.len() == 4 && v.len() == 14);
    assert(t != b && b != v && t != v);
    if f.bm25 {
        assert(s[0] == b);
    }
    if f.title {
        assert(s[if f.bm25 {
            1int
        } else {
            0
        }] == t);
    }
    if f.trigram_vector {
        assert(s.last() == v);
        assert(s[s.len() - 1] == v);
    }
}

/// The text that is looked at while a text is being written is its end: of a long
/// text the last 600 characters, whatever stands before them.
pub proof fn law_end_of_the_text_is_looked_at(
    before: Seq<char>,
    start: Seq<char>,
    end: Seq<char>,
    after: Seq<char>,
)
    requires
        forall|i: int| 0 <= i < before.len() ==> is_whitespace(#[trigger] before[i]),
        forall|i: int| 0 <= i < after.len() ==> is_whitespace(#[trigger] after[i]),
        end.len() == 600,
        !is_whitespace((start + end)[0]),
        !is_whitespace(end.last()),
    ensures
        ambient_text(before + (start + end) + after) == Some(end),
{
    let t = start + end;
    assert(t.last() == end.last());
    law_trim_takes_white_space_off(before, t, after);
    assert(t.subrange(t.len() - 600, t.len() as int) =~= end);
    assert(start.len() == 0 ==> t =~= end);
}

/// Of a text of twelve to 600 characters all is looked at, but for white space at
/// its ends, and of a shorter one nothing.
pub proof fn law_short_text_is_looked_at_whole(
    before: Seq<char>,
    text: Seq<char>,
    after: Seq<char>,
)
    requires
        forall|i: int| 0 <= i < before.len() ==> is_whitespace(#[trigger] before[i]),
        forall|i: int| 0 <= i < after.len() ==> is_whitespace(#[trigger] after[i]),
        text.len() <= 600,
        text.len() > 0 ==> !is_whitespace(text[0]) && !is_whitespace(text.last()),
    ensures
        ambient_text(before + text + after) == if text.len() < 12 {
            None
        } else {
            Some(text)
        },
{
    law_trim_takes_white_space_off(before, text, after);
}

/// Each document of the catalogue is compared with the query by its title and body.
pub proof fn law_titles_and_bodies_are_compared(docs: Seq<DocumentModel>, query: Seq<char>, i: int)
    requires
        0 <= i < docs.len(),
    ensures
        similarities(docs, query).len() == docs.len(),
        similarities(docs, query)[i] == similarity_bits(
            text_vector(query),
            text_vector(docs[i].title + "\n"@ + docs[i].body),
        ),
{
}

/// The names of the rankings that found a result come in alphabetical order, each
/// once.
pub proof fn law_channels_come_in_order(f: FusedModel, i: int, j: int)
    requires
        0 <= i < j < found_by(f).len(),
    ensures
        text_lt(found_by(f)[i], found_by(f)[j]),
{
    reveal_strlit("title");
    reveal_strlit("bm25");
    reveal_strlit("trigram-vector");
    reveal_with_fuel(text_lt, 3);
}

/// A result shows the excerpt that the full-text index gave for its document, the last
/// one if there are several, and without one the excerpt round the query.
pub proof fn law_result_shows_its_excerpt(
    x: RecallInput,
    limit: nat,
    excluded: Option<Seq<char>>,
    i: int,
    k: int,
)
    requires
        fused_input(x, pool_for(limit)).len() <= usize::MAX,
        answer(x, limit, excluded) is Some,
        0 <= i < answer(x, limit, excluded)->0.len(),
    ensures
        ({
            let m = answer(x, limit, excluded)->0[i];
            let d = document_at(x.documents, m.doc_id)->0;
            &&& 0 <= k < x.lexical.len() && x.lexical[k].doc_id == d.doc_id && (forall|j: int|
                k < j < x.lexical.len() ==> (#[trigger] x.lexical[j]).doc_id != d.doc_id)
                ==> m.snippet == x.lexical[k].snippet
            &&& (forall|j: int|
                0 <= j < x.lexical.len() ==> (#[trigger] x.lexical[j]).doc_id != d.doc_id)
                ==> snippet_for(d.body, lowercase(d.body), lowercase(x.query)) == Some(m.snippet)
        }),
{
    let fs = fused_input(x, pool_for(limit));
    let order = best_of(fs, excluded, limit as int);
    let m = answer(x, limit, excluded)->0[i];
    let at = lemma_shown_from(x, fs, order, i);
    let d = document_at(x.documents, m.doc_id)->0;
    lemma_lexical_snippet(x.lexical, d.doc_id, k);
}

proof fn lemma_lexical_snippet(lexical: Seq<ShadowHitModel>, id: Seq<char>, k: int)
    ensures
        0 <= k < lexical.len() && lexical[k].doc_id == id && (forall|j: int|
            k < j < lexical.len() ==> (#[trigger] lexical[j]).doc_id != id) ==> lexical_snippet(
            lexical,
            id,
        ) == Some(lexical[k].snippet),
        (forall|j: int| 0 <= j < lexical.len() ==> (#[trigger] lexical[j]).doc_id != id)
            ==> lexical_snippet(lexical, id) is None,
    decreases lexical.len(),
{
    if lexical.len() > 0 {
        let front = lexical.drop_last();
        let last = lexical[lexical.len() - 1];
        lemma_lexical_snippet(front, id, k);
        if forall|j: int| 0 <= j < lexical.len() ==> (#[trigger] lexical[j]).doc_id != id {
            assert forall|j: int| 0 <= j < front.len() implies (#[trigger] front[j]).doc_id
                != id by {
                assert(front[j] == lexical[j]);
            }
        }
        if 0 <= k < front.len() && (forall|j: int|
            k < j < lexical.len() ==> (#[trigger] lexical[j]).doc_id != id) {
            assert(front[k] == lexical[k]);
            assert(last.doc_id != id);
            assert forall|j: int| k < j < front.len() implies (#[trigger] front[j]).doc_id
                != id by {
                assert(front[j] == lexical[j]);
            }
        }
    }
}

} // verus!
