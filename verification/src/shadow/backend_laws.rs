//! What becomes of what the indices found.

use vstd::prelude::*;

use super::backend::{
    asks_nothing, embedded_text, fused_hits, index_error, note_hits, stale, MatchModel,
};
use super::documents::{document_at, DocumentModel, DocumentsModel};
use super::lexical::{has_all, holds_word, named_pairs};
use super::memory::{count_domain, insert_error, stats_of, text_bytes, Edition};
use super::vectors::{growth, resolved, similarity_at, RowsModel};
use crate::quant::binary::tally;
use crate::text::{
    byte_len, first_text, is_whitespace, last_text, lemma_first_text, lemma_last_text,
};

verus! {

/// The hits of what was found come in its order: those of the first part, then
/// those of the rest.
pub proof fn law_note_hits_come_in_order(
    m: DocumentsModel,
    query: Seq<char>,
    a: Seq<MatchModel>,
    b: Seq<MatchModel>,
)
    ensures
        note_hits(m, query, a + b) == note_hits(m, query, a) + note_hits(m, query, b),
    decreases b.len(),
{
    if b.len() == 0 {
        assert(a + b =~= a);
        assert(note_hits(m, query, b) =~= Seq::empty());
        assert(note_hits(m, query, a) + note_hits(m, query, b) =~= note_hits(m, query, a));
    } else {
        assert((a + b).drop_last() =~= a + b.drop_last());
        assert((a + b).last() == b.last());
        law_note_hits_come_in_order(m, query, a, b.drop_last());
        assert(note_hits(m, query, a + b) =~= note_hits(m, query, a) + note_hits(m, query, b));
    }
}

/// What the full-text index found gives one hit where there is a document, with the
/// score of the index, and none where there is none.
pub proof fn law_found_note_gives_its_hit(m: DocumentsModel, query: Seq<char>, x: MatchModel)
    ensures
        document_at(m, x.doc_id) is None ==> note_hits(m, query, seq![x]).len() == 0,
        document_at(m, x.doc_id) matches Some(d) ==> note_hits(m, query, seq![x]).len() == 1 && ({
            let h = note_hits(m, query, seq![x])[0];
            h.doc_id == d.doc_id && h.title == d.title && h.score_bits == x.score_bits && h.source
                == "lexical"@ && h.origin_vault_key == d.origin_vault_key
        }),
{
    reveal_with_fuel(note_hits, 2);
    assert(seq![x].drop_last() =~= Seq::empty());
}

/// The hits of fused identifiers come in their order.
pub proof fn law_fused_hits_come_in_order(
    m: DocumentsModel,
    query: Seq<char>,
    dense: Seq<MatchModel>,
    lexical: Seq<MatchModel>,
    a: Seq<MatchModel>,
    b: Seq<MatchModel>,
)
    ensures
        fused_hits(m, query, dense, lexical, a + b) == fused_hits(m, query, dense, lexical, a)
            + fused_hits(m, query, dense, lexical, b),
    decreases b.len(),
{
    if b.len() == 0 {
        assert(a + b =~= a);
        assert(fused_hits(m, query, dense, lexical, a) + fused_hits(m, query, dense, lexical, b)
            =~= fused_hits(m, query, dense, lexical, a));
    } else {
        assert((a + b).drop_last() =~= a + b.drop_last());
        assert((a + b).last() == b.last());
        law_fused_hits_come_in_order(m, query, dense, lexical, a, b.drop_last());
        assert(fused_hits(m, query, dense, lexical, a + b) =~= fused_hits(
            m,
            query,
            dense,
            lexical,
            a,
        ) + fused_hits(m, query, dense, lexical, b));
    }
}

/// A fused identifier gives one hit where there is a document, with the fused score,
/// and tells which of the two indices found it.
pub proof fn law_fused_identifier_gives_its_hit(
    m: DocumentsModel,
    query: Seq<char>,
    dense: Seq<MatchModel>,
    lexical: Seq<MatchModel>,
    x: MatchModel,
)
    ensures
        document_at(m, x.doc_id) is None ==> fused_hits(
            m,
            query,
            dense,
            lexical,
            seq![x],
        ).len() == 0,
        document_at(m, x.doc_id) matches Some(d) ==> fused_hits(
            m,
            query,
            dense,
            lexical,
            seq![x],
        ).len() == 1 && ({
            let h = fused_hits(m, query, dense, lexical, seq![x])[0];
            let by_vector = exists|i: int|
                0 <= i < dense.len() && (#[trigger] dense[i]).doc_id == x.doc_id;
            let by_text = exists|i: int|
                0 <= i < lexical.len() && (#[trigger] lexical[i]).doc_id == x.doc_id;
            &&& h.doc_id == d.doc_id && h.title == d.title && h.score_bits == x.score_bits
            &&& by_vector && by_text ==> h.source == "rrf"@
            &&& by_vector && !by_text ==> h.source == "dense"@
            &&& !by_vector && by_text ==> h.source == "lexical"@
        }),
{
    reveal_with_fuel(fused_hits, 2);
    assert(seq![x].drop_last() =~= Seq::empty());
}

/// The full-text index is to forget exactly what is no note or has no document.
pub proof fn law_stale_documents_are_forgotten(
    m: DocumentsModel,
    indexed: Seq<(String, String)>,
    id: Seq<char>,
)
    ensures
        stale(m, indexed).contains(id) <==> exists|i: int|
            0 <= i < indexed.len() && (#[trigger] indexed[i]).0@ == id && (indexed[i].1@ != "note"@
                || document_at(m, id) is None),
    decreases indexed.len(),
{
    if indexed.len() > 0 {
        let front = indexed.drop_last();
        let before = stale(m, front);
        let after = stale(m, indexed);
        let e = indexed.last();
        law_stale_documents_are_forgotten(m, front, id);
        if after.contains(id) {
            let k = choose|k: int| 0 <= k < after.len() && after[k] == id;
            if k < before.len() {
                assert(before[k] == id);
                assert(before.contains(id));
                let i = choose|i: int|
                    0 <= i < front.len() && (#[trigger] front[i]).0@ == id && (front[i].1@
                        != "note"@ || document_at(m, id) is None);
                assert(indexed[i] == front[i]);
            } else {
                assert(indexed[indexed.len() - 1] == e);
            }
        }
        if exists|i: int|
            0 <= i < indexed.len() && (#[trigger] indexed[i]).0@ == id && (indexed[i].1@ != "note"@
                || document_at(m, id) is None) {
            let i = choose|i: int|
                0 <= i < indexed.len() && (#[trigger] indexed[i]).0@ == id && (indexed[i].1@
                    != "note"@ || document_at(m, id) is None);
            if i < front.len() {
                assert(front[i] == indexed[i]);
                let k = choose|k: int| 0 <= k < before.len() && before[k] == id;
                assert(after[k] == id);
            } else {
                assert(after[before.len() as int] == id);
            }
        }
    }
}

/// A key that a vector index found gives the document that stands under it, with one
/// less the distance as its similarity, and nothing where there is none. What keys
/// give comes in their order.
pub proof fn law_keys_lead_to_their_documents(
    m: RowsModel,
    keys: Seq<u64>,
    distances: Seq<u32>,
    n: int,
)
    requires
        0 <= n < keys.len(),
        keys.len() == distances.len(),
    ensures
        resolved(m, keys, distances, 0).len() == 0,
        m.docs.contains_key(keys[n]) ==> resolved(m, keys, distances, n + 1) == resolved(
            m,
            keys,
            distances,
            n,
        ).push((m.docs[keys[n]], similarity_at(distances[n]))),
        !m.docs.contains_key(keys[n]) ==> resolved(m, keys, distances, n + 1) == resolved(
            m,
            keys,
            distances,
            n,
        ),
{
}

/// The documents of a domain are counted.
pub proof fn law_domain_is_counted(docs: Seq<DocumentModel>, domain: Seq<char>)
    ensures
        count_domain(docs, domain) == tally(docs.len(), |i: int| docs[i].domain == domain),
    decreases docs.len(),
{
    if docs.len() > 0 {
        let front = docs.drop_last();
        law_domain_is_counted(front, domain);
        lemma_tally_front(docs, domain, front.len());
    }
}

proof fn lemma_tally_front(docs: Seq<DocumentModel>, domain: Seq<char>, n: nat)
    requires
        n < docs.len(),
    ensures
        tally(n, |i: int| docs.drop_last()[i].domain == domain) == tally(
            n,
            |i: int| docs[i].domain == domain,
        ),
    decreases n,
{
    if n > 0 {
        lemma_tally_front(docs, domain, (n - 1) as nat);
        let f = |i: int| docs.drop_last()[i].domain == domain;
        let g = |i: int| docs[i].domain == domain;
        assert(f(n - 1) == g(n - 1));
    }
}

/// The bytes of one more document are those of its title and its body.
pub proof fn law_title_and_body_are_measured(docs: Seq<DocumentModel>, d: DocumentModel)
    ensures
        text_bytes(Seq::empty()) == 0,
        text_bytes(docs.push(d)) == text_bytes(docs) + byte_len(d.title) + byte_len(d.body),
{
    assert(docs.push(d).drop_last() =~= docs);
}

/// A document is embedded by its title, a line end and its body.
pub proof fn law_document_is_embedded_whole(d: DocumentModel)
    ensures
        embedded_text(d).len() == d.title.len() + 1 + d.body.len(),
        embedded_text(d).take(d.title.len() as int) == d.title,
        embedded_text(d)[d.title.len() as int] == '\n',
        embedded_text(d).skip((d.title.len() + 1) as int) == d.body,
{
    reveal_strlit("\n");
    let t = embedded_text(d);
    assert(t.take(d.title.len() as int) =~= d.title);
    assert(t.skip((d.title.len() + 1) as int) =~= d.body);
}

/// Capacity is reserved exactly for a key that lies beyond what is reserved, twice as
/// much as there was.
pub proof fn law_reserve_doubles(m: RowsModel, key: u64)
    requires
        2 * m.reserved <= usize::MAX,
    ensures
        growth(m, key) is None <==> (key as usize) < m.reserved,
        growth(m, key) matches Some(n) ==> n == 2 * m.reserved,
{
}

/// A document is indexed exactly where it has an identifier and is a note, or a chat
/// where those are taken too.
pub proof fn law_notes_with_identifiers_are_indexed(edition: Edition, d: DocumentModel)
    ensures
        index_error(edition, d) is None <==> d.doc_id.len() > 0 && (d.domain == "note"@ || edition
            == Edition::Semantic && d.domain == "chat"@),
{
}

/// Notes and chats are counted apart, with the bytes of all titles and bodies.
pub proof fn law_statistics_count_notes_and_chats(docs: Seq<DocumentModel>, ago: u64)
    requires
        docs.len() <= u64::MAX,
        text_bytes(docs) <= u64::MAX,
    ensures
        stats_of(docs, ago).note_count == tally(docs.len(), |i: int| docs[i].domain == "note"@),
        stats_of(docs, ago).chat_count == tally(docs.len(), |i: int| docs[i].domain == "chat"@),
        stats_of(docs, ago).index_size_bytes == text_bytes(docs),
        stats_of(docs, ago).last_flush_ms_ago == ago,
{
    law_domain_is_counted(docs, "note"@);
    law_domain_is_counted(docs, "chat"@);
    lemma_count_bound(docs, "note"@);
    lemma_count_bound(docs, "chat"@);
}

proof fn lemma_count_bound(docs: Seq<DocumentModel>, domain: Seq<char>)
    ensures
        count_domain(docs, domain) <= docs.len(),
    decreases docs.len(),
{
    if docs.len() > 0 {
        lemma_count_bound(docs.drop_last(), domain);
    }
}

/// Listed documents without an identifier are passed over, and all others stay in
/// their order.
pub proof fn law_documents_without_identifier_are_passed_over(
    pairs: Seq<(String, String)>,
    p: (String, String),
)
    ensures
        named_pairs(Seq::empty()).len() == 0,
        p.0@.len() == 0 ==> named_pairs(pairs.push(p)) == named_pairs(pairs),
        p.0@.len() > 0 ==> named_pairs(pairs.push(p)) == named_pairs(pairs).push((p.0@, p.1@)),
{
    assert(pairs.push(p).drop_last() =~= pairs);
}

/// There is nothing to search for exactly if the query is blank or nothing is asked
/// for.
pub proof fn law_blank_query_asks_nothing(query: Seq<char>, limit: usize)
    ensures
        asks_nothing(query, limit) <==> limit == 0 || forall|i: int|
            0 <= i < query.len() ==> is_whitespace(#[trigger] query[i]),
{
    let n = query.len() as int;
    lemma_first_text(query, 0, n);
    let lo = first_text(query, 0, n);
    lemma_last_text(query, lo, n);
    let hi = last_text(query, lo, n);
    if lo < n {
        assert(!is_whitespace(query[lo]));
        assert(hi > lo);
    }
}

/// A document is taken exactly if it has an identifier and is a note, or a chat where
/// there are vectors too.
pub proof fn law_notes_and_chats_are_taken(edition: Edition, d: DocumentModel)
    ensures
        insert_error(edition, d) is None <==> d.doc_id.len() > 0 && (d.domain == "note"@ || edition
            == Edition::Semantic && d.domain == "chat"@),
{
}

/// A document meets words if there are some and it holds each of them.
pub proof fn law_every_word_is_held(
    d: (Seq<char>, Seq<char>, Seq<char>, Seq<char>),
    terms: Seq<Seq<char>>,
    term: Seq<char>,
)
    ensures
        !has_all(d, Seq::empty()),
        has_all(d, seq![term]) <==> holds_word(d.3, term),
        terms.len() > 0 ==> (has_all(d, terms.push(term)) <==> has_all(d, terms) && holds_word(
            d.3,
            term,
        )),
{
    assert(seq![term][0] == term);
    let more = terms.push(term);
    assert(more[terms.len() as int] == term);
    if terms.len() > 0 && has_all(d, more) {
        assert forall|k: int| 0 <= k < terms.len() implies holds_word(d.3, #[trigger] terms[k]) by {
            assert(more[k] == terms[k]);
        }
    }
}

} // verus!
