//! What the engine in memory finds, which hits it keeps, and what an excerpt
//! shows.

use vstd::prelude::*;

use super::documents::{DocumentModel, ShadowHitModel};
use super::laws::stored_hit;
use super::matching::{
    ceil_index, excerpt, excerpt_end, excerpt_start, law_find_is_first, lemma_ceil_index,
    lemma_excerpt_bounds, lowercase, occurs_at,
};
use super::memory::{best_hits, hit_candidates};
use crate::order::{lemma_first_ranked, outranks, ranked};
use crate::semantic::blocks::{floor_index, lemma_floor_index};
use crate::semantic::channel::total_order_key;
use crate::text::{byte_len, byte_off, lemma_byte_off_mono, text_lt};

verus! {

/// Whether a text stands somewhere in another.
pub open spec fn holds(s: Seq<char>, q: Seq<char>) -> bool {
    exists|i: int| occurs_at(s, q, i)
}

/// A document is found exactly where its title or its body holds the query,
/// whatever the case of its letters. It is found as it is, with an excerpt round
/// the first place in the body at which the query stands.
pub proof fn law_title_or_body_holds_the_query(d: DocumentModel, query_lower: Seq<char>)
    ensures
        stored_hit(d, query_lower) is Some <==> holds(lowercase(d.title), query_lower) || holds(
            lowercase(d.body),
            query_lower,
        ),
        stored_hit(d, query_lower) matches Some(h) ==> h.doc_id == d.doc_id && h.title == d.title
            && h.origin_vault_key == d.origin_vault_key,
        forall|i: int|
            #![trigger occurs_at(lowercase(d.body), query_lower, i)]
            occurs_at(lowercase(d.body), query_lower, i) && (forall|j: int|
                0 <= j < i ==> !#[trigger] occurs_at(lowercase(d.body), query_lower, j))
                ==> stored_hit(d, query_lower)->0.snippet == excerpt(
                d.body,
                byte_off(lowercase(d.body), i),
            ),
{
    let t = lowercase(d.title);
    let b = lowercase(d.body);
    law_find_is_first(t, query_lower);
    law_find_is_first(b, query_lower);
    assert forall|i: int|
        #![trigger occurs_at(b, query_lower, i)]
        occurs_at(b, query_lower, i) && (forall|j: int|
            0 <= j < i ==> !#[trigger] occurs_at(b, query_lower, j)) implies stored_hit(
        d,
        query_lower,
    )->0.snippet == excerpt(d.body, byte_off(b, i)) by {
        let k = super::matching::find(b, query_lower)->0;
        if k < i {
            assert(occurs_at(b, query_lower, k));
        }
        if i < k {
            assert(!occurs_at(b, query_lower, i));
        }
    }
}

/// A search keeps the best hits: as many as asked for, as far as there are so many,
/// and none is left out for one that it comes before, by a greater score or, of
/// equal scores, by a smaller identifier.
pub proof fn law_best_hits_are_kept(hits: Seq<ShadowHitModel>, limit: int, j: int)
    requires
        0 <= limit,
        hits.len() <= usize::MAX,
        0 <= j < hits.len(),
    ensures
        ({
            let out = best_hits(hits, limit);
            &&& out.len() == if limit < hits.len() {
                limit
            } else {
                hits.len() as int
            }
            &&& out.contains(hits[j]) || forall|i: int|
                0 <= i < out.len() ==> total_order_key((#[trigger] out[i]).score_bits)
                    > total_order_key(hits[j].score_bits) || total_order_key(out[i].score_bits)
                    == total_order_key(hits[j].score_bits) && (out[i].doc_id == hits[j].doc_id
                    || text_lt(out[i].doc_id, hits[j].doc_id))
        }),
{
    let cs = hit_candidates(hits);
    let order = ranked(cs);
    let out = best_hits(hits, limit);
    lemma_first_ranked(cs, out.len() as int);
    assert(cs[j].index == j);
    if exists|i: int| 0 <= i < out.len() && (#[trigger] order[i]).index == j {
        let i = choose|i: int| 0 <= i < out.len() && (#[trigger] order[i]).index == j;
        assert(out[i] == hits[j]);
    } else {
        assert forall|i: int| 0 <= i < out.len() implies total_order_key(
            (#[trigger] out[i]).score_bits,
        ) > total_order_key(hits[j].score_bits) || total_order_key(out[i].score_bits)
            == total_order_key(hits[j].score_bits) && (out[i].doc_id == hits[j].doc_id || text_lt(
            out[i].doc_id,
            hits[j].doc_id,
        )) by {
            assert(outranks(order[i], cs[j]));
            assert(order[i] == cs[order[i].index as int]);
        }
    }
}

/// An excerpt shows the place that it lies round: it is the part of the body from a
/// character on that starts no later than the place, and eighty bytes before it,
/// to one that ends eighty bytes behind it, as far as the body reaches.
pub proof fn law_excerpt_shows_the_place(body: Seq<char>, center: nat) -> (r: (int, int))
    requires
        center <= byte_len(body),
    ensures
        0 <= r.0 <= r.1 <= body.len(),
        excerpt(body, center) == body.subrange(r.0, r.1),
        byte_off(body, r.0) <= center,
        r.0 == 0 || byte_off(body, r.0) <= center - 80,
        center <= byte_off(body, r.1),
        r.1 == body.len() || center + 80 <= byte_off(body, r.1),
{
    if byte_len(body) <= 160 {
        assert(body.subrange(0, body.len() as int) =~= body);
        lemma_byte_off_mono(body, 0, body.len() as int);
        (0, body.len() as int)
    } else {
        let lo = excerpt_start(center);
        let hi = excerpt_end(body, center);
        let a = floor_index(body, 0, body.len() as int, lo);
        let b = ceil_index(body, 0, hi);
        lemma_excerpt_bounds(body, center);
        lemma_floor_index(body, 0, body.len() as int, lo);
        lemma_ceil_index(body, 0, hi);
        lemma_byte_off_mono(body, 0, a);
        lemma_byte_off_mono(body, b, body.len() as int);
        (a, b)
    }
}

} // verus!
