//! The engine for notes over the full-text index.

use vstd::multiset::Multiset;
use vstd::prelude::*;

use super::backend::{
    asks_nothing, found_hit, index_error, match_models, note_hits, stale, stale_ids,
    BackendDocuments, BackendModel, IndexMatch, MatchModel,
};
use super::documents::{
    document_at, documents_ok, hit_models, law_put_then_get, law_removed_key_is_gone,
    with_document, without_document, DocumentMap, DocumentModel, DocumentsModel, ShadowDocument,
    ShadowHit, ShadowHitModel,
};
use super::error::{ErrorModel, ShadowError};
use super::lexical::{
    are_hits, are_listed, finds_all_wanted, finds_only_wanted, is_answer, is_backend, is_insertion,
    is_removal, is_term, law_hits_are_wanted, law_wanted_document_is_found, lexical_models,
    listed_count, named_pairs, pair_models, stored, wanted, without_id, LexicalHit, LexicalIndex,
    LexicalModel, MAX_LEXICAL_HITS, MAX_LISTED_DOCUMENTS,
};
use super::matching::lowercase;
use super::memory::{
    best_hits, hits_among, insert_error, stats_of, Edition, ShadowState, ShadowStats,
};
use crate::keys::{has_key, lemma_has_key, place, string_views};
use crate::text::{lemma_byte_off_mono, trim};

verus! {

/// Whether a stored document is the one that a map has under its identifier.
pub open spec fn is_kept(
    m: DocumentsModel,
    d: (Seq<char>, Seq<char>, Seq<char>, Seq<char>),
) -> bool {
    document_at(m, d.0) is Some && stored(document_at(m, d.0)->0) == d
}

/// Whether an index holds each document of a map once, and nothing else.
pub open spec fn agrees(
    m: DocumentsModel,
    docs: Multiset<(Seq<char>, Seq<char>, Seq<char>, Seq<char>)>,
) -> bool {
    forall|d: (Seq<char>, Seq<char>, Seq<char>, Seq<char>)|
        #[trigger] docs.count(d) == if is_kept(m, d) {
            1nat
        } else {
            0
        }
}

/// What hits of the index say: identifiers and scores.
pub open spec fn as_matches(hits: Seq<LexicalModel>) -> Seq<MatchModel> {
    hits.map_values(|h: LexicalModel| MatchModel { doc_id: h.doc_id, score_bits: h.score_bits })
}

/// Whether hits may be the answer to a query: those of documents with which the
/// index answers among its notes.
pub open spec fn may_find(
    m: DocumentsModel,
    docs: Multiset<(Seq<char>, Seq<char>, Seq<char>, Seq<char>)>,
    query: Seq<char>,
    limit: nat,
    hits: Seq<ShadowHitModel>,
) -> bool {
    exists|found: Seq<LexicalModel>| #[trigger]
        is_answer(found, docs, query, "note"@, limit) && hits == note_hits(
            m,
            query,
            as_matches(found),
        )
}

/// An engine that keeps and searches documents.
pub trait ShadowBackend {
    fn insert_document(&mut self, doc: ShadowDocument) -> (r: Result<(), ShadowError>);

    fn remove_document(&mut self, doc_id: &str) -> (r: Result<(), ShadowError>);

    fn search_notes(&self, query: &str, limit: usize) -> (r: Result<Vec<ShadowHit>, ShadowError>)
        requires
            trim(query@).len() > 0 ==> limit <= MAX_LEXICAL_HITS,
    ;

    /// The statistics; how long ago the last flush was is for the caller to
    /// say.
    fn stats(&self, last_flush_ms_ago: u64) -> (r: Result<ShadowStats, ShadowError>);
}

/// The engine for notes: the full-text index, and the documents that it leads
/// to.
pub struct RealBackend {
    lexical: LexicalIndex,
    documents: BackendDocuments,
}

impl View for RealBackend {
    type V = BackendModel;

    closed spec fn view(&self) -> BackendModel {
        self.documents@
    }
}

fn matches_of(hits: &Vec<LexicalHit>) -> (r: Vec<IndexMatch>)
    ensures
        match_models(r@) == as_matches(lexical_models(hits@)),
{
    let ghost goal = as_matches(lexical_models(hits@));
    let mut out: Vec<IndexMatch> = Vec::new();
    let mut i: usize = 0;
    while i < hits.len()
        invariant
            i <= hits@.len(),
            goal == as_matches(lexical_models(hits@)),
            match_models(out@) =~= goal.take(i as int),
        decreases hits@.len() - i,
    {
        let ghost before = match_models(out@);
        let m: IndexMatch = IndexMatch {
            doc_id: hits[i].doc_id.clone(),
            score_bits: hits[i].score_bits,
        };
        out.push(m);
        assert(lexical_models(hits@)[i as int] == hits@[i as int]@);
        assert(match_models(out@) =~= before.push(m@));
        i += 1;
    }
    out
}

impl RealBackend {
    /// The documents that the index shows.
    pub closed spec fn indexed(&self) -> Multiset<(Seq<char>, Seq<char>, Seq<char>, Seq<char>)> {
        self.lexical.docs()
    }

    /// The documents that the next write of the index starts from.
    pub closed spec fn pending(&self) -> Multiset<(Seq<char>, Seq<char>, Seq<char>, Seq<char>)> {
        self.lexical.pending()
    }

    /// Whether the index holds the documents that are kept, and no write has
    /// failed.
    pub open spec fn in_step(&self) -> bool {
        agrees(self@.documents, self.indexed()) && self.pending() == self.indexed()
    }

    /// An engine in memory, without documents.
    pub fn new() -> (r: Result<Self, ShadowError>)
        ensures
            match r {
                Ok(x) => x@ == (BackendModel {
                    edition: Edition::FreeLexical,
                    documents: DocumentsModel { keys: Seq::empty(), docs: Seq::empty() },
                }) && x.in_step(),
                Err(e) => is_backend(e@),
            },
    {
        let lexical: LexicalIndex = match LexicalIndex::new() {
            Ok(x) => x,
            Err(e) => {
                return Err(e);
            },
        };
        let documents: BackendDocuments = BackendDocuments::new(Edition::FreeLexical);
        let r: RealBackend = RealBackend { lexical, documents };
        proof {
            lemma_empty_agrees(r@.documents);
        }
        Ok(r)
    }

    /// An engine over an index and the documents that were kept for it. The
    /// index is made to hold these documents.
    pub fn restore(lexical: LexicalIndex, documents: DocumentMap) -> (r: Result<Self, ShadowError>)
        ensures
            match r {
                Ok(x) => x@ == (BackendModel {
                    edition: Edition::FreeLexical,
                    documents: documents@,
                }) && (can_converge(documents@, lexical) ==> x.in_step()),
                Err(e) => is_backend(e@),
            },
    {
        let ghost m = documents@;
        let ghost start = lexical.docs();
        let ghost sound = can_converge(m, lexical);
        let len: usize = documents.len();
        let mut index: LexicalIndex = lexical;
        let pairs: Vec<(String, String)> = match index.iter_doc_ids() {
            Ok(x) => x,
            Err(e) => {
                return Err(e);
            },
        };
        let gone: Vec<String> = stale_ids(&documents, &pairs);
        let ghost ids = string_views(gone@);
        let mut i: usize = 0;
        while i < gone.len()
            invariant
                i <= gone@.len(),
                ids == string_views(gone@),
                sound ==> are_terms(start) && index.pending() == index.docs()
                    && index.docs().subset_of(start) && none_of(index.docs(), ids, i as int),
            decreases gone@.len() - i,
        {
            let ghost before = index.docs();
            assert(ids[i as int] == gone@[i as int]@);
            match index.remove(gone[i].as_str()) {
                Ok(()) => {},
                Err(e) => {
                    return Err(e);
                },
            }
            proof {
                if sound {
                    lemma_removed(before, index.docs(), start, ids, i as int);
                }
            }
            i += 1;
        }
        proof {
            if sound {
                lemma_rest_has_keys(m, start, index.docs(), pairs@);
            }
        }
        let mut k: usize = 0;
        while k < len
            invariant
                k <= len == m.docs.len(),
                m == documents@,
                documents_ok(m),
                sound ==> is_sound(m) && index.pending() == index.docs() && all_have_keys(
                    m,
                    index.docs(),
                ) && first_agree(m, index.docs(), k as int),
            decreases len - k,
        {
            let ghost before = index.docs();
            let doc: &ShadowDocument = documents.document(k);
            match index.insert(doc) {
                Ok(()) => {},
                Err(e) => {
                    return Err(e);
                },
            }
            proof {
                if sound {
                    lemma_inserted(m, before, index.docs(), k as int);
                }
            }
            k += 1;
        }
        proof {
            if sound {
                lemma_all_agree(m, index.docs());
            }
        }
        let kept: BackendDocuments = BackendDocuments::with_documents(
            Edition::FreeLexical,
            documents,
        );
        Ok(RealBackend { lexical: index, documents: kept })
    }

    /// The documents that are kept.
    pub fn documents(&self) -> (r: &DocumentMap)
        ensures
            r@ == self@.documents,
    {
        self.documents.documents()
    }
}

impl ShadowBackend for RealBackend {
    /// Takes a note into the index, and then keeps it.
    fn insert_document(&mut self, doc: ShadowDocument) -> (r: Result<(), ShadowError>)
        ensures
            final(self)@.edition == old(self)@.edition,
            match index_error(old(self)@.edition, doc@) {
                Some(x) => r is Err && (r->Err_0)@ == x && *final(self) == *old(self),
                None => match r {
                    Ok(_) => final(self)@.documents == with_document(
                        old(self)@.documents,
                        doc@.doc_id,
                        doc@,
                    ) && is_insertion(old(self).pending(), final(self).indexed(), doc@) && final(
                        self).pending() == final(self).indexed(),
                    Err(e) => is_backend(e@) && final(self)@ == old(self)@ && final(self).indexed()
                        == old(self).indexed(),
                },
            },
            old(self).in_step() && r is Ok && is_term(doc@.doc_id) ==> final(self).in_step(),
    {
        match self.documents.check_document(&doc) {
            Ok(_) => {},
            Err(e) => {
                return Err(e);
            },
        }
        let ghost m = self@.documents;
        let ghost before = self.indexed();
        let _n: usize = self.documents.documents().len();
        let ghost d = doc@;
        let indexed: Result<(), ShadowError> = self.lexical.insert(&doc);
        proof {
            if agrees(m, before) && is_term(d.doc_id) && indexed is Ok && old(self).pending()
                == before {
                lemma_insert_agrees(m, before, d);
            }
        }
        self.documents.insert_document(doc, indexed)
    }

    /// Gives a document up, and then takes it out of the index.
    fn remove_document(&mut self, doc_id: &str) -> (r: Result<(), ShadowError>)
        ensures
            final(self)@.edition == old(self)@.edition,
            final(self)@.documents == without_document(old(self)@.documents, doc_id@),
            if document_at(old(self)@.documents, doc_id@) is None {
                r is Err && (r->Err_0)@ == (ErrorModel::NotFound { doc_id: doc_id@ }) && final(
                    self).indexed() == old(self).indexed() && final(self).pending()
                    == old(self).pending()
            } else {
                match r {
                    Ok(_) => is_removal(old(self).pending(), final(self).indexed(), doc_id@)
                        && final(self).pending() == final(self).indexed(),
                    Err(e) => is_backend(e@) && final(self).indexed() == old(self).indexed(),
                }
            },
            old(self).in_step() && r is Ok && is_term(doc_id@) ==> final(self).in_step(),
    {
        let ghost m = self@.documents;
        let ghost before = self.indexed();
        let _n: usize = self.documents.documents().len();
        match self.documents.remove_document(doc_id) {
            Ok(_) => {},
            Err(e) => {
                return Err(e);
            },
        }
        proof {
            if agrees(m, before) && is_term(doc_id@) {
                lemma_remove_agrees(m, before, doc_id@);
            }
        }
        self.lexical.remove(doc_id)
    }

    /// The notes that the index finds for a query, with an excerpt of each.
    fn search_notes(&self, query: &str, limit: usize) -> (r: Result<Vec<ShadowHit>, ShadowError>)
        ensures
            if asks_nothing(query@, limit) {
                r is Ok && (r->Ok_0)@.len() == 0
            } else {
                match r {
                    Ok(hits) => may_find(
                        self@.documents,
                        self.indexed(),
                        query@,
                        limit as nat,
                        hit_models(hits@),
                    ),
                    Err(e) => is_backend(e@),
                }
            },
    {
        let found: Vec<LexicalHit> = match self.lexical.search(query, "note", limit) {
            Ok(x) => x,
            Err(e) => {
                return Err(e);
            },
        };
        let matches: Vec<IndexMatch> = matches_of(&found);
        let hits: Vec<ShadowHit> = self.documents.search_notes(query, limit, &matches);
        proof {
            if !asks_nothing(query@, limit) {
                let models = lexical_models(found@);
                assert(is_answer(models, self.indexed(), query@, "note"@, limit as nat));
            }
            assert(hit_models(hits@).len() == hits@.len());
        }
        Ok(hits)
    }

    fn stats(&self, last_flush_ms_ago: u64) -> (r: Result<ShadowStats, ShadowError>)
        ensures
            r is Ok,
            self@.edition == Edition::FreeLexical ==> r->Ok_0 == (ShadowStats {
                note_count: self@.documents.docs.len() as u64,
                chat_count: 0,
                ..stats_of(self@.documents.docs, last_flush_ms_ago)
            }),
            self@.edition == Edition::Semantic ==> r->Ok_0 == stats_of(
                self@.documents.docs,
                last_flush_ms_ago,
            ),
    {
        Ok(self.documents.stats(last_flush_ms_ago))
    }
}

/// Whether documents stand under their identifiers, and these and all of the
/// index can be found and listed.
pub open spec fn can_converge(m: DocumentsModel, index: LexicalIndex) -> bool {
    &&& is_sound(m)
    &&& index.pending() == index.docs()
    &&& are_terms(index.docs())
    &&& index.docs().len() <= MAX_LISTED_DOCUMENTS
}

/// Whether every document stands under its identifier, and can be found by it.
pub open spec fn is_sound(m: DocumentsModel) -> bool {
    forall|i: int|
        0 <= i < m.keys.len() ==> (#[trigger] m.docs[i]).doc_id == m.keys[i] && is_term(m.keys[i])
}

/// Whether every stored document can be found by its identifier.
pub open spec fn are_terms(
    docs: Multiset<(Seq<char>, Seq<char>, Seq<char>, Seq<char>)>,
) -> bool {
    forall|d: (Seq<char>, Seq<char>, Seq<char>, Seq<char>)| #[trigger]
        docs.count(d) > 0 ==> is_term(d.0)
}

spec fn all_have_keys(
    m: DocumentsModel,
    docs: Multiset<(Seq<char>, Seq<char>, Seq<char>, Seq<char>)>,
) -> bool {
    forall|d: (Seq<char>, Seq<char>, Seq<char>, Seq<char>)| #[trigger]
        docs.count(d) > 0 ==> has_key(m.keys, d.0)
}

/// Whether no stored document has one of the first `n` identifiers.
spec fn none_of(
    docs: Multiset<(Seq<char>, Seq<char>, Seq<char>, Seq<char>)>,
    ids: Seq<Seq<char>>,
    n: int,
) -> bool {
    forall|d: (Seq<char>, Seq<char>, Seq<char>, Seq<char>), k: int|
        0 <= k < n && #[trigger] docs.count(d) > 0 ==> d.0 != #[trigger] ids[k]
}

/// Whether the index holds the first `n` documents, and no other under their
/// identifiers.
spec fn first_agree(
    m: DocumentsModel,
    docs: Multiset<(Seq<char>, Seq<char>, Seq<char>, Seq<char>)>,
    n: int,
) -> bool {
    forall|d: (Seq<char>, Seq<char>, Seq<char>, Seq<char>), j: int|
        0 <= j < n && d.0 == #[trigger] m.keys[j] ==> #[trigger] docs.count(d) == if d == stored(
            m.docs[j],
        ) {
            1nat
        } else {
            0
        }
}

proof fn lemma_empty_agrees(m: DocumentsModel)
    requires
        m == (DocumentsModel { keys: Seq::empty(), docs: Seq::empty() }),
    ensures
        agrees(m, Multiset::empty()),
{
    broadcast use vstd::multiset::group_multiset_axioms;

    assert forall|d: (Seq<char>, Seq<char>, Seq<char>, Seq<char>)| #[trigger]
        Multiset::<(Seq<char>, Seq<char>, Seq<char>, Seq<char>)>::empty().count(d) == if is_kept(
        m,
        d,
    ) {
        1nat
    } else {
        0
    } by {
        lemma_has_key(m.keys, d.0);
    }
}

proof fn lemma_insert_agrees(
    m: DocumentsModel,
    docs: Multiset<(Seq<char>, Seq<char>, Seq<char>, Seq<char>)>,
    d: DocumentModel,
)
    requires
        documents_ok(m),
        agrees(m, docs),
    ensures
        agrees(with_document(m, d.doc_id, d), without_id(docs, d.doc_id).insert(stored(d))),
{
    broadcast use vstd::multiset::group_multiset_axioms;

    let after = with_document(m, d.doc_id, d);
    let rest = without_id(docs, d.doc_id);
    assert forall|x: (Seq<char>, Seq<char>, Seq<char>, Seq<char>)| #[trigger]
        rest.insert(stored(d)).count(x) == if is_kept(after, x) {
        1nat
    } else {
        0
    } by {
        law_put_then_get(m, d.doc_id, d, x.0);
        assert(docs.count(x) == if is_kept(m, x) {
            1nat
        } else {
            0
        });
    }
}

proof fn lemma_remove_agrees(
    m: DocumentsModel,
    docs: Multiset<(Seq<char>, Seq<char>, Seq<char>, Seq<char>)>,
    id: Seq<char>,
)
    requires
        documents_ok(m),
        agrees(m, docs),
    ensures
        agrees(without_document(m, id), without_id(docs, id)),
{
    broadcast use vstd::multiset::group_multiset_axioms;

    let after = without_document(m, id);
    assert forall|x: (Seq<char>, Seq<char>, Seq<char>, Seq<char>)| #[trigger]
        without_id(docs, id).count(x) == if is_kept(after, x) {
        1nat
    } else {
        0
    } by {
        law_removed_key_is_gone(m, id, x.0);
        assert(docs.count(x) == if is_kept(m, x) {
            1nat
        } else {
            0
        });
    }
}

proof fn lemma_removed(
    before: Multiset<(Seq<char>, Seq<char>, Seq<char>, Seq<char>)>,
    after: Multiset<(Seq<char>, Seq<char>, Seq<char>, Seq<char>)>,
    start: Multiset<(Seq<char>, Seq<char>, Seq<char>, Seq<char>)>,
    ids: Seq<Seq<char>>,
    i: int,
)
    requires
        0 <= i < ids.len(),
        are_terms(start),
        before.subset_of(start),
        none_of(before, ids, i),
        is_removal(before, after, ids[i]),
    ensures
        after.subset_of(start),
        none_of(after, ids, i + 1),
{
    broadcast use vstd::multiset::group_multiset_axioms;

    assert forall|d: (Seq<char>, Seq<char>, Seq<char>, Seq<char>), k: int|
        0 <= k < i + 1 && #[trigger] after.count(d) > 0 implies d.0 != #[trigger] ids[k] by {
        assert(after.count(d) <= before.count(d));
        assert(before.count(d) <= start.count(d));
        if k == i {
            assert(is_term(d.0));
        }
    }
    assert forall|d: (Seq<char>, Seq<char>, Seq<char>, Seq<char>)| #[trigger]
        after.count(d) <= start.count(d) by {
        assert(after.count(d) <= before.count(d));
        assert(before.count(d) <= start.count(d));
    }
}

proof fn lemma_inserted(
    m: DocumentsModel,
    before: Multiset<(Seq<char>, Seq<char>, Seq<char>, Seq<char>)>,
    after: Multiset<(Seq<char>, Seq<char>, Seq<char>, Seq<char>)>,
    k: int,
)
    requires
        documents_ok(m),
        is_sound(m),
        0 <= k < m.docs.len(),
        all_have_keys(m, before),
        first_agree(m, before, k),
        is_insertion(before, after, m.docs[k]),
    ensures
        all_have_keys(m, after),
        first_agree(m, after, k + 1),
{
    broadcast use vstd::multiset::group_multiset_axioms;

    let x = m.docs[k];
    assert(x.doc_id == m.keys[k] && is_term(m.keys[k]));
    assert forall|d: (Seq<char>, Seq<char>, Seq<char>, Seq<char>)| #[trigger]
        after.count(d) > 0 implies has_key(m.keys, d.0) by {
        lemma_has_key(m.keys, d.0);
        if d != stored(x) {
            assert(before.count(d) > 0);
        } else {
            assert(m.keys.contains(d.0));
        }
    }
    assert forall|d: (Seq<char>, Seq<char>, Seq<char>, Seq<char>), j: int|
        0 <= j < k + 1 && d.0 == #[trigger] m.keys[j] implies #[trigger] after.count(d) == if d
        == stored(m.docs[j]) {
        1nat
    } else {
        0
    } by {
        lemma_has_key(m.keys, d.0);
        if j < k {
            assert(m.keys[k] != d.0);
            assert(before.count(d) == if d == stored(m.docs[j]) {
                1nat
            } else {
                0
            });
        }
    }
}

proof fn lemma_all_agree(
    m: DocumentsModel,
    docs: Multiset<(Seq<char>, Seq<char>, Seq<char>, Seq<char>)>,
)
    requires
        documents_ok(m),
        is_sound(m),
        all_have_keys(m, docs),
        first_agree(m, docs, m.docs.len() as int),
    ensures
        agrees(m, docs),
{
    assert forall|d: (Seq<char>, Seq<char>, Seq<char>, Seq<char>)| #[trigger]
        docs.count(d) == if is_kept(m, d) {
        1nat
    } else {
        0
    } by {
        lemma_has_key(m.keys, d.0);
        if has_key(m.keys, d.0) {
            let j = place(m.keys, d.0);
            crate::keys::lemma_place(m.keys, d.0);
            assert(d.0 == m.keys[j]);
        }
    }
}

/// A part of a collection with as many elements is all of it.
proof fn lemma_whole_part<T>(part: Multiset<T>, whole: Multiset<T>)
    requires
        part.subset_of(whole),
        part.len() == whole.len(),
    ensures
        part == whole,
{
    broadcast use vstd::multiset::group_multiset_axioms;

    let rest = whole.sub(part);
    assert(rest.len() == 0);
    vstd::multiset::lemma_multiset_empty_len(rest);
    assert forall|x: T| #[trigger] part.count(x) == whole.count(x) by {
        assert(rest.count(x) == whole.count(x) - part.count(x));
    }
    assert(part =~= whole);
}

/// What is left once stale documents are gone has a key.
proof fn lemma_rest_has_keys(
    m: DocumentsModel,
    start: Multiset<(Seq<char>, Seq<char>, Seq<char>, Seq<char>)>,
    rest: Multiset<(Seq<char>, Seq<char>, Seq<char>, Seq<char>)>,
    pairs: Seq<(String, String)>,
)
    requires
        are_terms(start),
        start.len() <= MAX_LISTED_DOCUMENTS,
        rest.subset_of(start),
        exists|all: Seq<(String, String)>| #[trigger]
            are_listed(all, start, listed_count(start.len())) && pair_models(pairs) == named_pairs(
                all,
            ),
        none_of(rest, stale(m, pairs), stale(m, pairs).len() as int),
    ensures
        all_have_keys(m, rest),
{
    let all = choose|all: Seq<(String, String)>| #[trigger]
        are_listed(all, start, listed_count(start.len())) && pair_models(pairs) == named_pairs(all);
    let of = choose|of: Seq<(Seq<char>, Seq<char>, Seq<char>, Seq<char>)>|
        of.len() == start.len() && #[trigger] of.to_multiset().subset_of(start) && forall|i: int|
            0 <= i < start.len() ==> (#[trigger] all[i]).0@ == of[i].0 && all[i].1@ == of[i].1;
    of.to_multiset_ensures();
    lemma_whole_part(of.to_multiset(), start);
    assert forall|d: (Seq<char>, Seq<char>, Seq<char>, Seq<char>)| #[trigger]
        rest.count(d) > 0 implies has_key(m.keys, d.0) by {
        assert(rest.count(d) <= start.count(d));
        assert(of.to_multiset().count(d) > 0);
        assert(of.to_multiset().contains(d));
        assert(of.contains(d));
        let i = choose|i: int| 0 <= i < of.len() && of[i] == d;
        assert(all[i].0@ == d.0);
        assert(is_term(d.0));
        lemma_long_text(d.0);
        lemma_named(all, i);
        let named = named_pairs(all);
        let j = choose|j: int| 0 <= j < named.len() && #[trigger] named[j] == (d.0, all[i].1@);
        assert(pair_models(pairs)[j] == (pairs[j].0@, pairs[j].1@));
        if !has_key(m.keys, d.0) {
            lemma_is_stale(m, pairs, j);
            let ids = stale(m, pairs);
            let k = choose|k: int| 0 <= k < ids.len() && #[trigger] ids[k] == d.0;
            assert(d.0 != ids[k]);
        }
    }
}

proof fn lemma_long_text(s: Seq<char>)
    requires
        is_term(s),
    ensures
        s.len() > 0,
{
    crate::text::lemma_byte_off_mono(s, 0, s.len() as int);
}

proof fn lemma_named(all: Seq<(String, String)>, i: int)
    requires
        0 <= i < all.len(),
        all[i].0@.len() > 0,
    ensures
        exists|j: int|
            0 <= j < named_pairs(all).len() && #[trigger] named_pairs(all)[j] == (
                all[i].0@,
                all[i].1@,
            ),
    decreases all.len(),
{
    let before = named_pairs(all.drop_last());
    if i == all.len() - 1 {
        assert(named_pairs(all)[before.len() as int] == (all[i].0@, all[i].1@));
    } else {
        lemma_named(all.drop_last(), i);
        let j = choose|j: int|
            0 <= j < before.len() && #[trigger] before[j] == (all[i].0@, all[i].1@);
        assert(named_pairs(all)[j] == before[j]);
    }
}

proof fn lemma_is_stale(m: DocumentsModel, pairs: Seq<(String, String)>, j: int)
    requires
        0 <= j < pairs.len(),
        !has_key(m.keys, pairs[j].0@),
    ensures
        exists|k: int| 0 <= k < stale(m, pairs).len() && #[trigger] stale(m, pairs)[k] == pairs[j].0@,
    decreases pairs.len(),
{
    let before = stale(m, pairs.drop_last());
    if j == pairs.len() - 1 {
        assert(stale(m, pairs)[before.len() as int] == pairs[j].0@);
    } else {
        lemma_is_stale(m, pairs.drop_last(), j);
        let k = choose|k: int| 0 <= k < before.len() && #[trigger] before[k] == pairs[j].0@;
        assert(stale(m, pairs)[k] == before[k]);
    }
}

/// Where index and documents agree, every hit of the index has a document.
pub proof fn law_found_documents_are_kept(
    m: DocumentsModel,
    docs: Multiset<(Seq<char>, Seq<char>, Seq<char>, Seq<char>)>,
    found: Seq<LexicalModel>,
    limit: nat,
    i: int,
)
    requires
        agrees(m, docs),
        are_hits(found, docs, "note"@, limit),
        0 <= i < found.len(),
    ensures
        document_at(m, found[i].doc_id) is Some,
        document_at(m, found[i].doc_id)->0.title == found[i].title,
        document_at(m, found[i].doc_id)->0.body == found[i].body,
        document_at(m, found[i].doc_id)->0.domain == "note"@,
{
    broadcast use vstd::multiset::group_multiset_axioms;

    let of = super::lexical::found_docs(found, "note"@);
    of.to_multiset_ensures();
    let d = (found[i].doc_id, "note"@, found[i].title, found[i].body);
    assert(of[i] == d);
    assert(of.contains(d));
    assert(of.to_multiset().contains(d));
    assert(of.to_multiset().count(d) <= docs.count(d));
    assert(is_kept(m, d));
}

proof fn lemma_each_is_a_hit(m: DocumentsModel, query: Seq<char>, found: Seq<LexicalModel>)
    requires
        forall|i: int|
            0 <= i < found.len() ==> document_at(m, (#[trigger] found[i]).doc_id) is Some,
    ensures
        note_hits(m, query, as_matches(found)).len() == found.len(),
        forall|i: int|
            #![trigger note_hits(m, query, as_matches(found))[i]]
            0 <= i < found.len() ==> note_hits(m, query, as_matches(found))[i] == found_hit(
                document_at(m, found[i].doc_id)->0,
                query,
                found[i].score_bits,
                "lexical"@,
            ),
    decreases found.len(),
{
    if found.len() > 0 {
        let front = found.drop_last();
        lemma_each_is_a_hit(m, query, front);
        assert(as_matches(found).drop_last() =~= as_matches(front));
        assert(found.last() == found[found.len() - 1]);
    }
}

/// Where index and documents agree, a note that a query wants is among fewer
/// hits than were asked for.
pub proof fn law_wanted_note_is_found(
    m: DocumentsModel,
    docs: Multiset<(Seq<char>, Seq<char>, Seq<char>, Seq<char>)>,
    query: Seq<char>,
    limit: nat,
    hits: Seq<ShadowHitModel>,
    id: Seq<char>,
)
    requires
        documents_ok(m),
        agrees(m, docs),
        is_sound(m),
        may_find(m, docs, query, limit, hits),
        hits.len() < limit,
        finds_all_wanted(query),
        document_at(m, id) is Some,
        document_at(m, id)->0.domain == "note"@,
        wanted(query, "note"@)(stored(document_at(m, id)->0)),
    ensures
        exists|i: int|
            0 <= i < hits.len() && (#[trigger] hits[i]).doc_id == id && hits[i].title
                == document_at(m, id)->0.title,
{
    let d = document_at(m, id)->0;
    let found = choose|found: Seq<LexicalModel>| #[trigger]
        is_answer(found, docs, query, "note"@, limit) && hits == note_hits(
            m,
            query,
            as_matches(found),
        );
    assert forall|i: int| 0 <= i < found.len() implies document_at(
        m,
        (#[trigger] found[i]).doc_id,
    ) is Some by {
        law_found_documents_are_kept(m, docs, found, limit, i);
    }
    lemma_each_is_a_hit(m, query, found);
    lemma_has_key(m.keys, id);
    assert(d.doc_id == id);
    assert(is_kept(m, stored(d)));
    assert(docs.count(stored(d)) == 1);
    lemma_note_is_term();
    law_wanted_document_is_found(found, docs, query, limit, stored(d));
    let i = choose|i: int| 0 <= i < found.len() && (#[trigger] found[i]).doc_id == d.doc_id;
    assert(hits[i].doc_id == id);
}

/// Where index and documents agree, every hit of a query that finds nothing else
/// is a note that it wants.
pub proof fn law_found_notes_are_wanted(
    m: DocumentsModel,
    docs: Multiset<(Seq<char>, Seq<char>, Seq<char>, Seq<char>)>,
    query: Seq<char>,
    limit: nat,
    hits: Seq<ShadowHitModel>,
    i: int,
)
    requires
        documents_ok(m),
        agrees(m, docs),
        is_sound(m),
        may_find(m, docs, query, limit, hits),
        finds_only_wanted(query),
        0 <= i < hits.len(),
    ensures
        document_at(m, hits[i].doc_id) is Some,
        wanted(query, "note"@)(stored(document_at(m, hits[i].doc_id)->0)),
{
    let found = choose|found: Seq<LexicalModel>| #[trigger]
        is_answer(found, docs, query, "note"@, limit) && hits == note_hits(
            m,
            query,
            as_matches(found),
        );
    assert forall|k: int| 0 <= k < found.len() implies document_at(
        m,
        (#[trigger] found[k]).doc_id,
    ) is Some by {
        law_found_documents_are_kept(m, docs, found, limit, k);
    }
    lemma_each_is_a_hit(m, query, found);
    law_found_documents_are_kept(m, docs, found, limit, i);
    let id = found[i].doc_id;
    lemma_has_key(m.keys, id);
    assert(document_at(m, id)->0.doc_id == id);
    assert(hits[i].doc_id == id);
    lemma_note_is_term();
    law_hits_are_wanted(found, docs, query, "note"@, limit, i);
    assert(stored(document_at(m, id)->0) == (id, "note"@, found[i].title, found[i].body));
}

proof fn lemma_note_is_term()
    ensures
        is_term("note"@),
{
    reveal_strlit("note");
    lemma_byte_off_mono("note"@, 0, 4);
}

impl ShadowBackend for ShadowState {
    fn insert_document(&mut self, doc: ShadowDocument) -> (r: Result<(), ShadowError>)
        ensures
            final(self)@.edition == old(self)@.edition,
            match r {
                Ok(()) => insert_error(old(self)@.edition, doc@) is None && final(self)@.documents
                    == with_document(old(self)@.documents, doc@.doc_id, doc@),
                Err(e) => insert_error(old(self)@.edition, doc@) == Some(e@) && final(self)@
                    == old(self)@,
            },
    {
        ShadowState::insert_document(self, doc)
    }

    fn remove_document(&mut self, doc_id: &str) -> (r: Result<(), ShadowError>)
        ensures
            final(self)@.edition == old(self)@.edition,
            final(self)@.documents == without_document(old(self)@.documents, doc_id@),
            match r {
                Ok(()) => document_at(old(self)@.documents, doc_id@) is Some,
                Err(e) => document_at(old(self)@.documents, doc_id@) is None && e@ == (
                ErrorModel::NotFound { doc_id: doc_id@ }),
            },
    {
        ShadowState::remove_document(self, doc_id)
    }

    fn search_notes(&self, query: &str, limit: usize) -> (r: Result<Vec<ShadowHit>, ShadowError>)
        ensures
            r is Ok && hit_models((r->Ok_0)@) == if trim(lowercase(query@)).len() == 0 {
                Seq::empty()
            } else {
                best_hits(
                    hits_among(self@.documents.docs, "note"@, lowercase(query@)),
                    limit as int,
                )
            },
    {
        ShadowState::search(self, query, "note", limit)
    }

    fn stats(&self, last_flush_ms_ago: u64) -> (r: Result<ShadowStats, ShadowError>)
        ensures
            r is Ok && r->Ok_0 == stats_of(self@.documents.docs, last_flush_ms_ago),
    {
        ShadowState::stats(self, last_flush_ms_ago)
    }
}

} // verus!
