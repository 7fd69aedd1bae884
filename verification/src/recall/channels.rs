//! The rankings that recall fuses: titles, and similarity of trigram vectors.

use vstd::prelude::*;

use crate::order::{
    candidate_models, law_ranked_is_in_order, rank_candidates, ranked, Candidate, CandidateModel,
};
use crate::semantic::channel::{bits_order_key, total_order_key};
use crate::shadow::documents::{DocumentMap, DocumentModel, ShadowDocument};
use crate::shadow::matching::{
    find, find_chars, lemma_find_from, lower_text, lowercase, occurs_at,
};
use crate::text::{chars_of, trim, trim_string};

verus! {

/// How well a title answers a query, both in lower case: three if it is the
/// query, two if it starts with it, one if it holds it.
pub open spec fn title_level(title: Seq<char>, query: Seq<char>) -> Option<i64> {
    if title == query {
        Some(3)
    } else if occurs_at(title, query, 0) {
        Some(2)
    } else if find(title, query) is Some {
        Some(1)
    } else {
        None
    }
}

/// How well a title answers a query, both in lower case.
pub fn title_score(title_lower: &str, query_lower: &str) -> (r: Option<i64>)
    ensures
        r == title_level(title_lower@, query_lower@),
{
    let title: Vec<char> = chars_of(title_lower);
    let query: Vec<char> = chars_of(query_lower);
    proof {
        if title@ == query@ {
            assert(title@.subrange(0, title@.len() as int) =~= title@);
            assert(occurs_at(title@, query@, 0));
        }
        lemma_find_from(title@, query@, 0);
        assert(occurs_at(title@, query@, 0) ==> find(title@, query@) == Some(0int));
    }
    match find_chars(&title, &query) {
        None => None,
        Some(i) => {
            if i != 0 {
                Some(1)
            } else if title.len() == query.len() {
                assert(title@.subrange(0, title@.len() as int) =~= title@);
                Some(3)
            } else {
                Some(2)
            }
        },
    }
}

/// The titles that answer a query, as candidates.
pub open spec fn title_candidates(docs: Seq<DocumentModel>, query: Seq<char>) -> Seq<CandidateModel>
    decreases docs.len(),
{
    if docs.len() == 0 {
        Seq::empty()
    } else {
        let before = title_candidates(docs.drop_last(), query);
        let d = docs.last();
        match title_level(lowercase(d.title), lowercase(trim(query))) {
            Some(level) => before.push(
                CandidateModel { key: level, id: d.doc_id, index: (docs.len() - 1) as usize },
            ),
            None => before,
        }
    }
}

/// Whether the bits are those of a number greater than zero.
pub open spec fn is_positive_bits(bits: u32) -> bool {
    0 < bits <= 0x7f80_0000
}

/// The documents with a positive similarity, as candidates.
pub open spec fn vector_candidates(docs: Seq<DocumentModel>, similarity: Seq<u32>) -> Seq<
    CandidateModel,
>
    decreases docs.len(),
{
    if docs.len() == 0 {
        Seq::empty()
    } else {
        let at = docs.len() - 1;
        let before = vector_candidates(docs.drop_last(), similarity);
        if is_positive_bits(similarity[at]) {
            before.push(
                CandidateModel {
                    key: total_order_key(similarity[at]) as i64,
                    id: docs[at].doc_id,
                    index: at as usize,
                },
            )
        } else {
            before
        }
    }
}

/// The identifiers of the first candidates in order.
pub open spec fn first_ids(cs: Seq<CandidateModel>, pool: int) -> Seq<Seq<char>> {
    let order = ranked(cs);
    let n = if pool < order.len() {
        pool as nat
    } else {
        order.len()
    };
    Seq::new(n, |i: int| order[i].id)
}

pub open spec fn id_views(v: Seq<String>) -> Seq<Seq<char>> {
    v.map_values(|s: String| s@)
}

fn take_ids(cs: Vec<Candidate>, pool: usize) -> (r: Vec<String>)
    ensures
        id_views(r@) == first_ids(candidate_models(cs@), pool as int),
{
    let ghost models = candidate_models(cs@);
    let order: Vec<Candidate> = rank_candidates(cs);
    proof {
        law_ranked_is_in_order(models);
    }
    let len: usize = order.len();
    let n: usize = if pool < len {
        pool
    } else {
        len
    };
    let mut out: Vec<String> = Vec::new();
    let mut i: usize = 0;
    while i < n
        invariant
            i <= n <= len == order@.len(),
            candidate_models(order@) == ranked(models),
            n == first_ids(models, pool as int).len(),
            id_views(out@) =~= first_ids(models, pool as int).take(i as int),
        decreases n - i,
    {
        let ghost before = id_views(out@);
        assert(candidate_models(order@)[i as int] == order@[i as int]@);
        let id: String = order[i].id.clone();
        out.push(id);
        assert(id_views(out@) =~= before.push(id@));
        i += 1;
    }
    assert(first_ids(models, pool as int).take(n as int) =~= first_ids(models, pool as int));
    out
}

/// The documents whose titles answer a query: the best answers first, of equal
/// answers the smaller identifier, no more than `pool`.
pub fn rank_titles(documents: &DocumentMap, query: &str, pool: usize) -> (r: Vec<String>)
    ensures
        id_views(r@) == first_ids(title_candidates(documents@.docs, query@), pool as int),
{
    let ghost docs = documents@.docs;
    let trimmed: String = trim_string(query);
    let query_lower: String = lower_text(trimmed.as_str());
    let len: usize = documents.len();
    let mut cs: Vec<Candidate> = Vec::new();
    let mut i: usize = 0;
    assert(docs.take(0) =~= Seq::empty());
    assert(candidate_models(cs@) =~= Seq::empty());
    while i < len
        invariant
            i <= len == docs.len(),
            docs == documents@.docs,
            query_lower@ == lowercase(trim(query@)),
            candidate_models(cs@) == title_candidates(docs.take(i as int), query@),
        decreases len - i,
    {
        proof {
            assert(docs.take(i + 1).drop_last() =~= docs.take(i as int));
            assert(docs.take(i + 1).last() == docs[i as int]);
        }
        let doc: &ShadowDocument = documents.document(i);
        let title_lower: String = lower_text(doc.title.as_str());
        if let Some(level) = title_score(title_lower.as_str(), query_lower.as_str()) {
            let ghost before = candidate_models(cs@);
            let c: Candidate = Candidate { key: level, id: doc.doc_id.clone(), index: i };
            cs.push(c);
            assert(candidate_models(cs@) =~= before.push(c@));
        }
        i += 1;
    }
    assert(docs.take(docs.len() as int) =~= docs);
    take_ids(cs, pool)
}

/// The documents with a positive similarity, given for each document as the
/// bits of a number: the greatest first, of equal ones the smaller identifier,
/// no more than `pool`.
pub fn rank_similarities(documents: &DocumentMap, similarity: &Vec<u32>, pool: usize) -> (r: Vec<
    String,
>)
    requires
        similarity@.len() == documents@.docs.len(),
    ensures
        id_views(r@) == first_ids(vector_candidates(documents@.docs, similarity@), pool as int),
{
    let ghost docs = documents@.docs;
    let len: usize = documents.len();
    let mut cs: Vec<Candidate> = Vec::new();
    let mut i: usize = 0;
    assert(docs.take(0) =~= Seq::empty());
    assert(candidate_models(cs@) =~= Seq::empty());
    while i < len
        invariant
            i <= len == docs.len(),
            docs == documents@.docs,
            similarity@.len() == len,
            candidate_models(cs@) == vector_candidates(docs.take(i as int), similarity@),
        decreases len - i,
    {
        proof {
            assert(docs.take(i + 1).drop_last() =~= docs.take(i as int));
            assert(docs.take(i + 1)[i as int] == docs[i as int]);
        }
        let bits: u32 = similarity[i];
        if 0 < bits && bits <= 0x7f80_0000 {
            let ghost before = candidate_models(cs@);
            let c: Candidate = Candidate {
                key: bits_order_key(bits),
                id: documents.document(i).doc_id.clone(),
                index: i,
            };
            cs.push(c);
            assert(candidate_models(cs@) =~= before.push(c@));
        }
        i += 1;
    }
    assert(docs.take(docs.len() as int) =~= docs);
    take_ids(cs, pool)
}

} // verus!
