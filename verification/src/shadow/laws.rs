//! What holds of searches of the engine in memory as a whole.

use vstd::prelude::*;

use super::documents::{
    law_put_then_get, law_removed_key_is_gone, with_document, without_document, DocumentModel,
    ShadowHitModel,
};
use super::matching::{find, has_word, is_word_at, law_find_is_first, lowercase, occurs_at};
use super::memory::{
    best_hits, find_byte, hit_candidates, hit_for, hits_among, match_score, nearness, state_ok,
    StateModel,
};
use crate::float::{is_number, quotient, rounded, single_bits, sum, two_to, Number};
use crate::keys::{has_key, lemma_has_key, lemma_place, place};
use crate::order::{law_ranked_is_in_order, lemma_ranked_places, outranks, ranked};
use crate::rounding::{
    at_most_one, lemma_integer_range, lemma_one_minus, lemma_quotient_at_most_one,
    lemma_rounding_is_monotone, lemma_sum_grows, lemma_sum_is_more, no_greater,
};
use crate::semantic::channel::total_order_key;
use crate::text::{byte_len, byte_off, lemma_byte_off_mono};

verus! {

/// The hit of a stored document for a lower-case query.
pub open spec fn stored_hit(d: DocumentModel, query_lower: Seq<char>) -> Option<ShadowHitModel> {
    hit_for(d, lowercase(d.title), lowercase(d.body), query_lower)
}

/// Every hit is the hit of a document of the searched domain, and every such
/// document that matches gives a hit.
pub proof fn law_hits_are_the_matches(
    docs: Seq<DocumentModel>,
    domain: Seq<char>,
    query_lower: Seq<char>,
)
    ensures
        forall|h: ShadowHitModel| #[trigger]
            hits_among(docs, domain, query_lower).contains(h) <==> exists|i: int|
                0 <= i < docs.len() && (#[trigger] docs[i]).domain == domain && stored_hit(
                    docs[i],
                    query_lower,
                ) == Some(h),
    decreases docs.len(),
{
    let hits = hits_among(docs, domain, query_lower);
    if docs.len() > 0 {
        let front = docs.drop_last();
        let before = hits_among(front, domain, query_lower);
        law_hits_are_the_matches(front, domain, query_lower);
        let last = docs.len() - 1;
        assert forall|h: ShadowHitModel| #[trigger] hits.contains(h) <==> exists|i: int|
            0 <= i < docs.len() && (#[trigger] docs[i]).domain == domain && stored_hit(
                docs[i],
                query_lower,
            ) == Some(h) by {
            if hits.contains(h) {
                let k = choose|k: int| 0 <= k < hits.len() && hits[k] == h;
                if k < before.len() {
                    assert(before[k] == h);
                    assert(before.contains(h));
                    let i = choose|i: int|
                        0 <= i < front.len() && (#[trigger] front[i]).domain == domain
                            && stored_hit(front[i], query_lower) == Some(h);
                    assert(docs[i] == front[i]);
                } else {
                    assert(docs[last].domain == domain);
                }
            }
            if exists|i: int|
                0 <= i < docs.len() && (#[trigger] docs[i]).domain == domain && stored_hit(
                    docs[i],
                    query_lower,
                ) == Some(h) {
                let i = choose|i: int|
                    0 <= i < docs.len() && (#[trigger] docs[i]).domain == domain && stored_hit(
                        docs[i],
                        query_lower,
                    ) == Some(h);
                if i < last {
                    assert(front[i] == docs[i]);
                    assert(before.contains(h));
                    let k = choose|k: int| 0 <= k < before.len() && before[k] == h;
                    assert(hits[k] == h);
                } else {
                    assert(hits[hits.len() - 1] == h);
                }
            }
        }
    }
}

/// A search gives no more hits than asked for, each of them a match, and none
/// scores less than one behind it. Where it gives fewer than asked for, it
/// gives every match.
pub proof fn law_best_hits_are_the_first(hits: Seq<ShadowHitModel>, limit: int)
    requires
        0 <= limit,
        hits.len() <= usize::MAX,
    ensures
        best_hits(hits, limit).len() <= limit,
        best_hits(hits, limit).len() <= hits.len(),
        forall|h: ShadowHitModel| #[trigger]
            best_hits(hits, limit).contains(h) ==> hits.contains(h),
        forall|i: int, j: int|
            0 <= i < j < best_hits(hits, limit).len() ==> total_order_key(
                (#[trigger] best_hits(hits, limit)[i]).score_bits,
            ) >= total_order_key((#[trigger] best_hits(hits, limit)[j]).score_bits),
        best_hits(hits, limit).len() < limit ==> forall|h: ShadowHitModel| #[trigger]
            hits.contains(h) ==> best_hits(hits, limit).contains(h),
{
    let cs = hit_candidates(hits);
    let order = ranked(cs);
    let best = best_hits(hits, limit);
    lemma_ranked_places(cs);
    law_ranked_is_in_order(cs);
    assert forall|h: ShadowHitModel| #[trigger] best.contains(h) implies hits.contains(h) by {
        let k = choose|k: int| 0 <= k < best.len() && best[k] == h;
        assert(order[k].index < cs.len());
        assert(hits[order[k].index as int] == h);
    }
    assert forall|i: int, j: int| 0 <= i < j < best.len() implies total_order_key(
        (#[trigger] best[i]).score_bits,
    ) >= total_order_key((#[trigger] best[j]).score_bits) by {
        assert(order[i] == cs[order[i].index as int]);
        assert(order[j] == cs[order[j].index as int]);
        assert(!outranks(order[j], order[i]));
    }
    if best.len() < limit {
        assert forall|h: ShadowHitModel| #[trigger] hits.contains(h) implies best.contains(h) by {
            broadcast use vstd::seq_lib::group_to_multiset_ensures;

            let m = choose|m: int| 0 <= m < hits.len() && hits[m] == h;
            assert(cs.contains(cs[m]));
            assert(order.to_multiset().count(cs[m]) > 0);
            assert(order.contains(cs[m]));
            let k = choose|k: int| 0 <= k < order.len() && order[k] == cs[m];
            assert(order[k].index == m);
            assert(best[k] == h);
        }
    }
}

/// A document that was inserted, and that matches, is among the hits.
pub proof fn law_inserted_document_is_found(
    s: StateModel,
    d: DocumentModel,
    query_lower: Seq<char>,
)
    requires
        state_ok(s),
        stored_hit(d, query_lower) is Some,
    ensures
        hits_among(with_document(s.documents, d.doc_id, d).docs, d.domain, query_lower).contains(
            stored_hit(d, query_lower)->0,
        ),
{
    let m = with_document(s.documents, d.doc_id, d);
    law_put_then_get(s.documents, d.doc_id, d, d.doc_id);
    law_hits_are_the_matches(m.docs, d.domain, query_lower);
    let at = place(m.keys, d.doc_id);
    lemma_place(m.keys, d.doc_id);
    assert(m.docs[at] == d);
}

/// No hit has the identifier of a document that was removed.
pub proof fn law_removed_document_is_not_found(
    s: StateModel,
    doc_id: Seq<char>,
    domain: Seq<char>,
    query_lower: Seq<char>,
    h: ShadowHitModel,
)
    requires
        state_ok(s),
        hits_among(without_document(s.documents, doc_id).docs, domain, query_lower).contains(h),
    ensures
        h.doc_id != doc_id,
{
    let m = without_document(s.documents, doc_id);
    law_removed_key_is_gone(s.documents, doc_id, doc_id);
    law_hits_are_the_matches(m.docs, domain, query_lower);
    let i = choose|i: int|
        0 <= i < m.docs.len() && (#[trigger] m.docs[i]).domain == domain && stored_hit(
            m.docs[i],
            query_lower,
        ) == Some(h);
    let at = place(s.documents.keys, doc_id);
    lemma_place(s.documents.keys, doc_id);
    let x = if has_key(s.documents.keys, doc_id) && i >= at {
        i + 1
    } else {
        i
    };
    assert(m.docs[i] == s.documents.docs[x]);
    assert(m.keys[i] == s.documents.keys[x]);
    assert(m.keys[i] == m.docs[i].doc_id);
    lemma_has_key(m.keys, doc_id);
    if h.doc_id == doc_id {
        assert(m.keys.contains(doc_id));
    }
}

/// The bits of a number that is neither too large nor too small.
proof fn lemma_bits_in_range(a: Number)
    requires
        is_number(24, a),
        a.m != 0 ==> -149 <= a.e <= 100,
    ensures
        0 <= single_bits(a) <= u32::MAX,
        a.m > 0 ==> (a.e + 150) * 0x80_0000 <= single_bits(a) < (a.e + 151) * 0x80_0000,
        a.m >= 0 ==> single_bits(a) < 0x8000_0000,
        a.m < 0 ==> single_bits(a) >= 0x8000_0000,
{
    crate::float::lemma_pow2_values();
}

/// What the nearness of a place adds is at most one, and is not negative where
/// the place is in the body.
proof fn lemma_nearness(at: nat, len: nat)
    requires
        at <= u64::MAX,
        len <= u64::MAX,
    ensures
        is_number(24, nearness(at, len)),
        at_most_one(24, nearness(at, len)),
        at <= len ==> nearness(at, len).m >= 0,
        nearness(at, len).m != 0 ==> -149 <= nearness(at, len).e <= 90,
{
    crate::float::lemma_pow2_values();
    let size: nat = if len == 0 {
        1
    } else {
        len
    };
    lemma_integer_range(24, size);
    let y = rounded(24, size as int, 1);
    if at == 0 {
        let x = rounded(24, 0, 1);
        let q = quotient(24, x, y);
        assert(q == Number { m: 0, e: 0 });
        lemma_one_minus(24, q);
    } else {
        lemma_integer_range(24, at);
        let x = rounded(24, at as int, 1);
        lemma_quotient_at_most_one(24, x, y);
        if at <= size {
            lemma_rounding_is_monotone(24, at, size);
        }
        lemma_one_minus(24, quotient(24, x, y));
    }
}

/// A title that holds the query outranks a body alone: its document scores
/// more. The place of the query in the lower case of its own body, if there is
/// one, must not lie behind the end of the body.
pub proof fn law_title_outranks_body(a: DocumentModel, b: DocumentModel, query_lower: Seq<char>)
    requires
        byte_len(a.body) <= u64::MAX,
        byte_len(b.body) <= u64::MAX,
        byte_len(lowercase(b.body)) <= u64::MAX,
        find(lowercase(a.title), query_lower) is Some,
        find_byte(lowercase(a.body), query_lower) matches Some(at) ==> at <= byte_len(a.body),
        find(lowercase(b.title), query_lower) is None,
        find(lowercase(b.body), query_lower) is Some,
    ensures
        stored_hit(a, query_lower) is Some,
        stored_hit(b, query_lower) is Some,
        total_order_key(stored_hit(a, query_lower)->0.score_bits) > total_order_key(
            stored_hit(b, query_lower)->0.score_bits,
        ),
{
    crate::float::lemma_pow2_values();
    let zero = Number { m: 0, e: 0 };
    let two = two_to(24, 1);
    let half = two_to(24, -1);
    let word = has_word(lowercase(a.title), query_lower);
    let body_at = find_byte(lowercase(a.body), query_lower);
    let first = match body_at {
        Some(at) => {
            lemma_nearness(at, byte_len(a.body));
            lemma_sum_grows(24, two, nearness(at, byte_len(a.body)));
            sum(24, two, nearness(at, byte_len(a.body)))
        },
        None => two,
    };
    let score = match_score(true, body_at, byte_len(a.body), word);
    if word {
        lemma_sum_grows(24, first, half);
        assert(score == sum(24, first, half));
    } else {
        assert(score == first);
    }
    lemma_bits_in_range(score);
    assert(single_bits(score) >= 128 * 0x80_0000);

    law_find_is_first(lowercase(b.title), query_lower);
    assert(!has_word(lowercase(b.title), query_lower)) by {
        if has_word(lowercase(b.title), query_lower) {
            let i = choose|i: int| is_word_at(lowercase(b.title), query_lower, i);
            assert(occurs_at(lowercase(b.title), query_lower, i));
        }
    }
    let lower = lowercase(b.body);
    law_find_is_first(lower, query_lower);
    let at = byte_off(lower, find(lower, query_lower)->0);
    lemma_byte_off_mono(lower, find(lower, query_lower)->0, lower.len() as int);
    lemma_nearness(at, byte_len(b.body));
    let other = match_score(false, Some(at), byte_len(b.body), false);
    assert(other == nearness(at, byte_len(b.body)));
    lemma_bits_in_range(other);
    if other.m > 0 {
        assert(single_bits(other) <= 127 * 0x80_0000);
    }
}

/// A match at the start of a body is as near as can be, which counts one, and no
/// match counts more. A match at the end of it counts nothing.
pub proof fn law_match_at_the_start_counts_most(at: nat, len: nat)
    requires
        at <= u64::MAX,
        0 < len <= u64::MAX,
    ensures
        nearness(0, len) == two_to(24, 0),
        at_most_one(24, nearness(at, len)),
        nearness(len, len).m == 0,
{
    crate::float::lemma_pow2_values();
    lemma_nearness(at, len);
    lemma_integer_range(24, len);
    let y = rounded(24, len as int, 1);
    assert(quotient(24, rounded(24, 0, 1), y) == (Number { m: 0, e: 0 }));
    crate::rounding::lemma_quotient_is(24, y, y);
    let low = vstd::arithmetic::power2::pow2(23);
    let m = y.m as nat;
    assert(m * low == low * m + 0) by (nonlinear_arith);
    vstd::arithmetic::div_mod::lemma_fundamental_div_mod_converse(
        (m * low) as int,
        m as int,
        low as int,
        0,
    );
    assert(crate::float::nearest_even(m * low, m) == low);
    assert(quotient(24, y, y) == two_to(24, 0));
    let one = two_to(24, 0);
    assert(one.m * 1 + (-one.m) * 1 == 0);
}

/// A title that holds the query as a whole word scores more than one that holds it
/// only as a part, all else being the same.
pub proof fn law_whole_word_scores_more(body_at: Option<nat>, body_len: nat)
    requires
        body_len <= u64::MAX,
        body_at matches Some(at) ==> at <= body_len,
    ensures
        !no_greater(
            match_score(true, body_at, body_len, true),
            match_score(true, body_at, body_len, false),
        ),
{
    crate::float::lemma_pow2_values();
    let two = two_to(24, 1);
    let half = two_to(24, -1);
    let first = match_score(true, body_at, body_len, false);
    if let Some(at) = body_at {
        lemma_nearness(at, body_len);
        lemma_sum_grows(24, two, nearness(at, body_len));
        let x = nearness(at, body_len);
        assert(x.m > 0 ==> x.e <= -23);
    }
    lemma_sum_is_more(24, first, half);
}

} // verus!
