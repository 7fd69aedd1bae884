//! What holds of the rankings that recall fuses.

use vstd::prelude::*;

use super::channels::{first_ids, title_candidates, title_level, vector_candidates};
use crate::order::{
    law_greater_key_comes_first, law_ranked_is_in_order, lemma_ranked_holds, lemma_ranked_members,
    ranked, CandidateModel,
};
use crate::semantic::channel::total_order_key;
use crate::shadow::documents::DocumentModel;
use crate::shadow::matching::{law_find_is_first, lowercase, occurs_at};
use crate::text::trim;

verus! {

/// Whether no two documents have one identifier.
pub open spec fn have_own_ids(docs: Seq<DocumentModel>) -> bool {
    forall|i: int, j: int|
        0 <= i < j < docs.len() ==> (#[trigger] docs[i]).doc_id != (#[trigger] docs[j]).doc_id
}

/// Whether a title holds the query somewhere, whatever the case of the letters and
/// the white space round the query.
pub open spec fn title_holds(d: DocumentModel, query: Seq<char>) -> bool {
    exists|i: int| occurs_at(lowercase(d.title), lowercase(trim(query)), i)
}

/// Whether a title starts with the query.
pub open spec fn title_starts(d: DocumentModel, query: Seq<char>) -> bool {
    occurs_at(lowercase(d.title), lowercase(trim(query)), 0)
}

/// Whether a title is the query.
pub open spec fn title_is(d: DocumentModel, query: Seq<char>) -> bool {
    lowercase(d.title) == lowercase(trim(query))
}

/// Whether a title answers a query better than another: it is the query, starts
/// with it or holds it, where the other does not.
pub open spec fn answers_better(a: DocumentModel, b: DocumentModel, query: Seq<char>) -> bool {
    ||| title_is(a, query) && !title_is(b, query)
    ||| title_starts(a, query) && !title_starts(b, query)
    ||| title_holds(a, query) && !title_holds(b, query)
}

/// Whether an identifier is that of a document at some place.
pub open spec fn is_id_of(docs: Seq<DocumentModel>, id: Seq<char>, a: int) -> bool {
    0 <= a < docs.len() && docs[a].doc_id == id
}

/// Whether candidates are those documents of which something holds, with keys.
spec fn are_candidates(
    cs: Seq<CandidateModel>,
    docs: Seq<DocumentModel>,
    key: spec_fn(int) -> Option<int>,
) -> bool {
    &&& cs.len() <= docs.len()
    &&& forall|c: int|
        0 <= c < cs.len() ==> is_id_of(docs, (#[trigger] cs[c]).id, cs[c].index as int) && key(
            cs[c].index as int,
        ) == Some(cs[c].key as int)
    &&& forall|a: int|
        #![trigger key(a)]
        0 <= a < docs.len() && key(a) is Some ==> exists|c: int|
            0 <= c < cs.len() && (#[trigger] cs[c]).index == a
}

/// What holds of the first identifiers of candidates.
proof fn lemma_first_ids(
    cs: Seq<CandidateModel>,
    docs: Seq<DocumentModel>,
    key: spec_fn(int) -> Option<int>,
    pool: int,
)
    requires
        are_candidates(cs, docs, key),
        have_own_ids(docs),
        0 <= pool,
    ensures
        first_ids(cs, pool).len() <= pool,
        forall|i: int|
            0 <= i < first_ids(cs, pool).len() ==> exists|a: int|
                is_id_of(docs, #[trigger] first_ids(cs, pool)[i], a) && #[trigger] key(a) is Some,
        forall|a: int|
            #![trigger key(a)]
            0 <= a < docs.len() && key(a) is Some ==> first_ids(cs, pool).contains(docs[a].doc_id)
                || first_ids(cs, pool).len() == pool && pool < docs.len(),
        forall|i: int, a: int, b: int|
            0 <= i < first_ids(cs, pool).len() && #[trigger] is_id_of(
                docs,
                first_ids(cs, pool)[i],
                a,
            ) && 0 <= b < docs.len() && (#[trigger] key(b)) is Some && !first_ids(
                cs,
                pool,
            ).take(i).contains(docs[b].doc_id) ==> key(a) is Some && key(a)->0 >= key(b)->0,
{
    let order = ranked(cs);
    let out = first_ids(cs, pool);
    law_ranked_is_in_order(cs);
    assert forall|i: int| 0 <= i < order.len() implies is_id_of(
        docs,
        (#[trigger] order[i]).id,
        order[i].index as int,
    ) && key(order[i].index as int) == Some(order[i].key as int) by {
        lemma_ranked_members(cs, i);
        let c = choose|c: int| 0 <= c < cs.len() && cs[c] == order[i];
        assert(is_id_of(docs, cs[c].id, cs[c].index as int));
    }
    assert forall|i: int| 0 <= i < out.len() implies exists|a: int|
        is_id_of(docs, #[trigger] out[i], a) && #[trigger] key(a) is Some by {
        let a = order[i].index as int;
        assert(is_id_of(docs, out[i], a) && key(a) is Some);
    }
    assert forall|a: int|
        #![trigger key(a)]
        0 <= a < docs.len() && key(a) is Some implies out.contains(docs[a].doc_id) || out.len()
        == pool && pool < docs.len() by {
        let c = choose|c: int| 0 <= c < cs.len() && (#[trigger] cs[c]).index == a;
        let at = lemma_ranked_holds(cs, c);
        if at < out.len() {
            assert(out[at] == docs[a].doc_id);
        }
    }
    assert forall|i: int, a: int, b: int|
        0 <= i < out.len() && #[trigger] is_id_of(docs, out[i], a) && 0 <= b < docs.len() && (
        #[trigger] key(b)) is Some && !out.take(i).contains(docs[b].doc_id) implies key(a) is Some
        && key(a)->0 >= key(b)->0 by {
        let x = order[i].index as int;
        assert(is_id_of(docs, out[i], x));
        if x < a {
            assert(docs[x].doc_id != docs[a].doc_id);
        } else if a < x {
            assert(docs[a].doc_id != docs[x].doc_id);
        }
        let c = choose|c: int| 0 <= c < cs.len() && (#[trigger] cs[c]).index == b;
        let at = lemma_ranked_holds(cs, c);
        assert(order[at].id == docs[b].doc_id);
        assert(key(b) == Some(order[at].key as int));
        if at < i {
            assert(out.take(i)[at] == docs[b].doc_id);
        } else if i < at {
            law_greater_key_comes_first(cs, i, at);
        }
    }
}

spec fn title_key(docs: Seq<DocumentModel>, query: Seq<char>) -> spec_fn(int) -> Option<int> {
    |a: int|
        match title_level(lowercase(docs[a].title), lowercase(trim(query))) {
            Some(level) => Some(level as int),
            None => None,
        }
}

proof fn lemma_title_candidates(docs: Seq<DocumentModel>, query: Seq<char>)
    requires
        docs.len() <= usize::MAX,
    ensures
        are_candidates(title_candidates(docs, query), docs, title_key(docs, query)),
    decreases docs.len(),
{
    if docs.len() > 0 {
        let front = docs.drop_last();
        let before = title_candidates(front, query);
        let after = title_candidates(docs, query);
        let f = title_key(front, query);
        let g = title_key(docs, query);
        lemma_title_candidates(front, query);
        assert forall|a: int| 0 <= a < front.len() implies f(a) == #[trigger] g(a) by {
            assert(front[a] == docs[a]);
        }
        lemma_more_candidates(before, after, docs, f, g);
    }
}

/// One more document keeps candidates what they are.
proof fn lemma_more_candidates(
    before: Seq<CandidateModel>,
    after: Seq<CandidateModel>,
    docs: Seq<DocumentModel>,
    f: spec_fn(int) -> Option<int>,
    g: spec_fn(int) -> Option<int>,
)
    requires
        0 < docs.len() <= usize::MAX,
        are_candidates(before, docs.drop_last(), f),
        forall|a: int| 0 <= a < docs.len() - 1 ==> f(a) == #[trigger] g(a),
        match g(docs.len() - 1) {
            Some(k) => i64::MIN <= k <= i64::MAX && after == before.push(
                CandidateModel {
                    key: k as i64,
                    id: docs.last().doc_id,
                    index: (docs.len() - 1) as usize,
                },
            ),
            None => after == before,
        },
    ensures
        are_candidates(after, docs, g),
{
    let front = docs.drop_last();
    assert forall|c: int| 0 <= c < after.len() implies is_id_of(
        docs,
        (#[trigger] after[c]).id,
        after[c].index as int,
    ) && g(after[c].index as int) == Some(after[c].key as int) by {
        if c < before.len() {
            assert(after[c] == before[c]);
            assert(is_id_of(front, before[c].id, before[c].index as int));
            assert(front[before[c].index as int] == docs[before[c].index as int]);
        }
    }
    assert forall|a: int|
        #![trigger g(a)]
        0 <= a < docs.len() && g(a) is Some implies exists|c: int|
        0 <= c < after.len() && (#[trigger] after[c]).index == a by {
        if a < front.len() {
            assert(f(a) == g(a));
            let c = choose|c: int| 0 <= c < before.len() && (#[trigger] before[c]).index == a;
            assert(after[c] == before[c]);
        } else {
            assert(after[after.len() - 1].index == a);
        }
    }
}

proof fn lemma_title_level(d: DocumentModel, query: Seq<char>)
    ensures
        ({
            let level = title_level(lowercase(d.title), lowercase(trim(query)));
            &&& level is Some <==> title_holds(d, query)
            &&& title_is(d, query) ==> title_starts(d, query)
            &&& title_starts(d, query) ==> title_holds(d, query)
            &&& level matches Some(k) ==> (k >= 3 <==> title_is(d, query)) && (k >= 2
                <==> title_starts(d, query)) && 1 <= k <= 3
        }),
{
    let t = lowercase(d.title);
    let q = lowercase(trim(query));
    law_find_is_first(t, q);
    if t == q {
        assert(t.subrange(0, t.len() as int) =~= t);
        assert(occurs_at(t, q, 0));
    }
    if occurs_at(t, q, 0) {
        assert(exists|i: int| occurs_at(t, q, i));
    }
}

/// The ranking of titles names documents whose titles hold the query, and names
/// every one of them unless it is full. A document stands before all whose titles
/// answer the query less well, in the ranking or left out of it.
pub proof fn law_titles_are_ranked(docs: Seq<DocumentModel>, query: Seq<char>, pool: int)
    requires
        docs.len() <= usize::MAX,
        have_own_ids(docs),
        0 <= pool,
    ensures
        ({
            let out = first_ids(title_candidates(docs, query), pool);
            &&& out.len() <= pool
            &&& forall|i: int|
                0 <= i < out.len() ==> exists|a: int|
                    #![trigger docs[a]]
                    is_id_of(docs, #[trigger] out[i], a) && title_holds(docs[a], query)
            &&& forall|a: int|
                0 <= a < docs.len() && title_holds(#[trigger] docs[a], query) ==> out.contains(
                    docs[a].doc_id,
                ) || out.len() == pool && pool < docs.len()
            &&& forall|i: int, a: int, b: int|
                0 <= i < out.len() && #[trigger] is_id_of(docs, out[i], a) && 0 <= b < docs.len()
                    && !out.take(i).contains(docs[b].doc_id) ==> !#[trigger] answers_better(
                    docs[b],
                    docs[a],
                    query,
                )
        }),
{
    let out = first_ids(title_candidates(docs, query), pool);
    let key = title_key(docs, query);
    lemma_title_candidates(docs, query);
    lemma_first_ids(title_candidates(docs, query), docs, key, pool);
    assert forall|i: int| 0 <= i < out.len() implies exists|a: int|
        #![trigger docs[a]]
        is_id_of(docs, #[trigger] out[i], a) && title_holds(docs[a], query) by {
        let a = choose|a: int| is_id_of(docs, out[i], a) && #[trigger] key(a) is Some;
        lemma_title_level(docs[a], query);
        assert(is_id_of(docs, out[i], a) && title_holds(docs[a], query));
    }
    assert forall|a: int|
        0 <= a < docs.len() && title_holds(#[trigger] docs[a], query) implies out.contains(
        docs[a].doc_id,
    ) || out.len() == pool && pool < docs.len() by {
        lemma_title_level(docs[a], query);
        assert(key(a) is Some);
    }
    assert forall|i: int, a: int, b: int|
        0 <= i < out.len() && #[trigger] is_id_of(docs, out[i], a) && 0 <= b < docs.len()
            && !out.take(i).contains(docs[b].doc_id) implies !#[trigger] answers_better(
        docs[b],
        docs[a],
        query,
    ) by {
        lemma_title_level(docs[a], query);
        lemma_title_level(docs[b], query);
        if key(b) is Some {
            assert(key(a)->0 >= key(b)->0);
        }
    }
}

spec fn vector_key(similarity: Seq<u32>) -> spec_fn(int) -> Option<int> {
    |a: int|
        if 0 < similarity[a] <= 0x7f80_0000 {
            Some(total_order_key(similarity[a]) as int)
        } else {
            None
        }
}

proof fn lemma_vector_candidates(docs: Seq<DocumentModel>, similarity: Seq<u32>)
    requires
        docs.len() <= usize::MAX,
    ensures
        are_candidates(vector_candidates(docs, similarity), docs, vector_key(similarity)),
    decreases docs.len(),
{
    if docs.len() > 0 {
        let front = docs.drop_last();
        let f = vector_key(similarity);
        lemma_vector_candidates(front, similarity);
        lemma_more_candidates(
            vector_candidates(front, similarity),
            vector_candidates(docs, similarity),
            docs,
            f,
            f,
        );
    }
}

/// The ranking of similarities names documents whose similarity is greater than
/// zero, and names every one of them unless it is full. A document stands before
/// all that are less similar, in the ranking or left out of it.
pub proof fn law_similarities_are_ranked(
    docs: Seq<DocumentModel>,
    similarity: Seq<u32>,
    pool: int,
)
    requires
        docs.len() <= usize::MAX,
        have_own_ids(docs),
        0 <= pool,
    ensures
        ({
            let out = first_ids(vector_candidates(docs, similarity), pool);
            &&& out.len() <= pool
            &&& forall|i: int|
                0 <= i < out.len() ==> exists|a: int|
                    #![trigger docs[a]]
                    is_id_of(docs, #[trigger] out[i], a) && 0 < similarity[a] <= 0x7f80_0000
            &&& forall|a: int|
                0 <= a < docs.len() && 0 < similarity[a] <= 0x7f80_0000 ==> out.contains(
                    (#[trigger] docs[a]).doc_id,
                ) || out.len() == pool && pool < docs.len()
            &&& forall|i: int, a: int, b: int|
                0 <= i < out.len() && #[trigger] is_id_of(docs, out[i], a) && 0 <= b < docs.len()
                    && 0 < similarity[b] <= 0x7f80_0000 && !out.take(i).contains(
                    (#[trigger] docs[b]).doc_id,
                ) ==> similarity[a] >= similarity[b]
        }),
{
    let out = first_ids(vector_candidates(docs, similarity), pool);
    let key = vector_key(similarity);
    lemma_vector_candidates(docs, similarity);
    lemma_first_ids(vector_candidates(docs, similarity), docs, key, pool);
    assert forall|i: int| 0 <= i < out.len() implies exists|a: int|
        #![trigger docs[a]]
        is_id_of(docs, #[trigger] out[i], a) && 0 < similarity[a] <= 0x7f80_0000 by {
        let a = choose|a: int| is_id_of(docs, out[i], a) && #[trigger] key(a) is Some;
        assert(is_id_of(docs, out[i], a) && docs[a] == docs[a]);
    }
    assert forall|a: int| 0 <= a < docs.len() && 0 < similarity[a] <= 0x7f80_0000 implies (
    out.contains((#[trigger] docs[a]).doc_id) || out.len() == pool && pool < docs.len()) by {
        assert(key(a) is Some);
    }
    assert forall|i: int, a: int, b: int|
        0 <= i < out.len() && #[trigger] is_id_of(docs, out[i], a) && 0 <= b < docs.len() && 0
            < similarity[b] <= 0x7f80_0000 && !out.take(i).contains(
            (#[trigger] docs[b]).doc_id,
        ) implies similarity[a] >= similarity[b] by {
        assert(key(b) is Some);
        assert(key(a)->0 >= key(b)->0);
    }
}

} // verus!
