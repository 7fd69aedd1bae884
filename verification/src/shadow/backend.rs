//! The engine over a full-text index and, in one edition, a vector index: what
//! it keeps of documents, and what it makes of the identifiers that the
//! indices find.

use vstd::prelude::*;

use super::documents::{
    document_at, documents_ok, hit_models, with_document, without_document, DocumentMap,
    DocumentModel, DocumentsModel, ShadowDocument, ShadowHit, ShadowHitModel,
};
use super::error::{ErrorModel, ShadowError};
use super::matching::{excerpt, excerpt_of, find_chars, lower_text, lowercase};
use super::memory::{document_stats, find_byte, stats_of, Edition, ShadowStats};
use crate::keys::{has_key, string_views};
use crate::text::{
    char_offsets, chars_of, clone_opt_text, concat2, decimal, decimal_string, str_byte_len, text_eq,
    trim, trim_range,
};

verus! {

/// The number of components of an embedding.
pub const EMBED_DIM: usize = 256;

/// The most bytes of the derived documents that are read back.
pub const MAX_DERIVED_DOCS_BYTES: u64 = 32 * 1024 * 1024;

/// The most derived documents that are kept.
pub const MAX_DERIVED_DOCUMENTS: usize = 10_000;

/// What is wrong with a document to be indexed.
pub open spec fn index_error(edition: Edition, d: DocumentModel) -> Option<ErrorModel> {
    if d.doc_id.len() == 0 {
        Some(ErrorModel::InvalidInput { detail: "doc_id was empty"@ })
    } else {
        match edition {
            Edition::FreeLexical => if d.domain != "note"@ {
                Some(
                    ErrorModel::InvalidInput {
                        detail: "Free lexical backend accepts note documents only"@,
                    },
                )
            } else {
                None
            },
            Edition::Semantic => if d.domain != "note"@ && d.domain != "chat"@ {
                Some(
                    ErrorModel::InvalidInput {
                        detail: "unknown domain '"@ + d.domain
                            + "' (expected 'note' or 'chat')"@,
                    },
                )
            } else {
                None
            },
        }
    }
}

/// The text that a document is embedded by.
pub open spec fn embedded_text(d: DocumentModel) -> Seq<char> {
    d.title + "\n"@ + d.body
}

pub fn embedding_text(doc: &ShadowDocument) -> (r: String)
    ensures
        r@ == embedded_text(doc@),
{
    let start: String = concat2(doc.title.as_str(), "\n");
    concat2(start.as_str(), doc.body.as_str())
}

/// Checks the number of components of an embedding.
pub fn check_embedding(len: usize) -> (r: Result<(), ShadowError>)
    ensures
        match r {
            Ok(_) => len == EMBED_DIM,
            Err(e) => len != EMBED_DIM && e@ == (ErrorModel::Backend {
                detail: "embedder returned "@ + decimal(len as nat) + " dims; expected "@
                    + decimal(EMBED_DIM as nat),
            }),
        },
{
    if len == EMBED_DIM {
        return Ok(());
    }
    let a: String = concat2("embedder returned ", decimal_string(len as u64).as_str());
    let b: String = concat2(a.as_str(), " dims; expected ");
    Err(
        ShadowError::Backend {
            detail: concat2(b.as_str(), decimal_string(EMBED_DIM as u64).as_str()),
        },
    )
}

/// What an index found: an identifier and the bits of its score.
pub struct IndexMatch {
    pub doc_id: String,
    pub score_bits: u32,
}

#[verifier::ext_equal]
pub struct MatchModel {
    pub doc_id: Seq<char>,
    pub score_bits: u32,
}

impl View for IndexMatch {
    type V = MatchModel;

    open spec fn view(&self) -> MatchModel {
        MatchModel { doc_id: self.doc_id@, score_bits: self.score_bits }
    }
}

pub open spec fn match_models(v: Seq<IndexMatch>) -> Seq<MatchModel> {
    v.map_values(|m: IndexMatch| m@)
}

/// The excerpt of a body round the query, from the lower case of the two.
pub open spec fn query_excerpt(
    body: Seq<char>,
    body_lower: Seq<char>,
    query_lower: Seq<char>,
) -> Seq<char> {
    excerpt(
        body,
        match find_byte(body_lower, query_lower) {
            Some(at) => at,
            None => 0,
        },
    )
}

/// The excerpt of a body round the query, from the lower case of the two.
pub fn excerpt_round(body: &str, body_lower: &str, query_lower: &str) -> (r: String)
    ensures
        r@ == query_excerpt(body@, body_lower@, query_lower@),
{
    let lower: Vec<char> = chars_of(body_lower);
    let query: Vec<char> = chars_of(query_lower);
    let center: usize = match find_chars(&lower, &query) {
        Some(i) => {
            let offs: Vec<usize> = char_offsets(body_lower, &lower);
            offs[i]
        },
        None => 0,
    };
    excerpt_of(body, center)
}

/// The excerpt of a body round a query. A body that is short enough to be
/// shown whole is not put into lower case.
pub fn build_snippet(body: &str, query: &str) -> (r: String)
    ensures
        r@ == query_excerpt(body@, lowercase(body@), lowercase(query@)),
{
    if str_byte_len(body) <= 160 {
        return body.to_owned();
    }
    let body_lower: String = lower_text(body);
    let query_lower: String = lower_text(query);
    excerpt_round(body, body_lower.as_str(), query_lower.as_str())
}

/// The hit of a document that an index found.
pub open spec fn found_hit(
    d: DocumentModel,
    query: Seq<char>,
    score_bits: u32,
    source: Seq<char>,
) -> ShadowHitModel {
    ShadowHitModel {
        doc_id: d.doc_id,
        title: d.title,
        snippet: query_excerpt(d.body, lowercase(d.body), lowercase(query)),
        score_bits,
        source,
        origin_vault_key: d.origin_vault_key,
    }
}

/// The hits of identifiers that the full-text index found; an identifier that
/// no document has gives none.
pub open spec fn note_hits(
    m: DocumentsModel,
    query: Seq<char>,
    found: Seq<MatchModel>,
) -> Seq<ShadowHitModel>
    decreases found.len(),
{
    if found.len() == 0 {
        Seq::empty()
    } else {
        let before = note_hits(m, query, found.drop_last());
        match document_at(m, found.last().doc_id) {
            Some(d) => before.push(
                found_hit(d, query, found.last().score_bits, "lexical"@),
            ),
            None => before,
        }
    }
}

/// Whether an identifier is among those found.
pub open spec fn was_found(found: Seq<MatchModel>, id: Seq<char>) -> bool {
    exists|i: int| 0 <= i < found.len() && (#[trigger] found[i]).doc_id == id
}

/// Where a fused identifier comes from.
pub open spec fn fused_source(
    dense: Seq<MatchModel>,
    lexical: Seq<MatchModel>,
    id: Seq<char>,
) -> Seq<char> {
    if was_found(dense, id) && !was_found(lexical, id) {
        "dense"@
    } else if !was_found(dense, id) && was_found(lexical, id) {
        "lexical"@
    } else {
        "rrf"@
    }
}

/// The hits of fused identifiers.
pub open spec fn fused_hits(
    m: DocumentsModel,
    query: Seq<char>,
    dense: Seq<MatchModel>,
    lexical: Seq<MatchModel>,
    fused: Seq<MatchModel>,
) -> Seq<ShadowHitModel>
    decreases fused.len(),
{
    if fused.len() == 0 {
        Seq::empty()
    } else {
        let before = fused_hits(m, query, dense, lexical, fused.drop_last());
        let id = fused.last().doc_id;
        match document_at(m, id) {
            Some(d) => before.push(
                found_hit(d, query, fused.last().score_bits, fused_source(dense, lexical, id)),
            ),
            None => before,
        }
    }
}

fn hit_of(doc: &ShadowDocument, query: &str, score_bits: u32, source: &str) -> (r: ShadowHit)
    ensures
        r@ == found_hit(doc@, query@, score_bits, source@),
{
    ShadowHit {
        doc_id: doc.doc_id.clone(),
        title: doc.title.clone(),
        snippet: build_snippet(doc.body.as_str(), query),
        score_bits,
        source: source.to_owned(),
        origin_vault_key: clone_opt_text(&doc.origin_vault_key),
    }
}

fn holds_id(found: &Vec<IndexMatch>, id: &str) -> (r: bool)
    ensures
        r == was_found(match_models(found@), id@),
{
    let ghost models = match_models(found@);
    let mut i: usize = 0;
    while i < found.len()
        invariant
            i <= found@.len(),
            models == match_models(found@),
            forall|k: int| 0 <= k < i ==> (#[trigger] models[k]).doc_id != id@,
        decreases found@.len() - i,
    {
        assert(models[i as int] == found@[i as int]@);
        if text_eq(found[i].doc_id.as_str(), id) {
            return true;
        }
        i += 1;
    }
    false
}

/// Whether there is anything to search for.
pub open spec fn asks_nothing(query: Seq<char>, limit: usize) -> bool {
    trim(query).len() == 0 || limit == 0
}

fn is_nothing(query: &str, limit: usize) -> (r: bool)
    ensures
        r == asks_nothing(query@, limit),
{
    let chars: Vec<char> = chars_of(query);
    let (lo, hi) = trim_range(&chars, 0, chars.len());
    lo == hi || limit == 0
}

/// What a backend keeps: its edition, and the documents that its indices lead
/// to.
#[verifier::ext_equal]
pub struct BackendModel {
    pub edition: Edition,
    pub documents: DocumentsModel,
}

/// The engine over its indices. The indices themselves are asked by the
/// caller, who hands over what they said.
pub struct BackendDocuments {
    edition: Edition,
    documents: DocumentMap,
}

impl View for BackendDocuments {
    type V = BackendModel;

    closed spec fn view(&self) -> BackendModel {
        BackendModel { edition: self.edition, documents: self.documents@ }
    }
}

/// What a search asks of the indices.
#[derive(Clone, Copy, Debug, PartialEq, Eq, Structural)]
pub enum SearchPlan {
    /// Nothing: there are no hits.
    Nothing,
    /// So many matches of each index.
    Ask(usize),
}

impl BackendDocuments {
    /// A backend without documents.
    pub fn new(edition: Edition) -> (r: Self)
        ensures
            r@ == (BackendModel {
                edition,
                documents: DocumentsModel { keys: Seq::empty(), docs: Seq::empty() },
            }),
    {
        BackendDocuments { edition, documents: DocumentMap::new() }
    }

    /// A backend with the documents that were kept for it.
    pub fn with_documents(edition: Edition, documents: DocumentMap) -> (r: Self)
        ensures
            r@ == (BackendModel { edition, documents: documents@ }),
    {
        BackendDocuments { edition, documents }
    }

    pub fn documents(&self) -> (r: &DocumentMap)
        ensures
            r@ == self@.documents,
    {
        &self.documents
    }

    /// Checks a document before the indices are given it.
    pub fn check_document(&self, doc: &ShadowDocument) -> (r: Result<(), ShadowError>)
        ensures
            match r {
                Ok(_) => index_error(self@.edition, doc@) is None,
                Err(e) => index_error(self@.edition, doc@) == Some(e@),
            },
    {
        if str_byte_len(doc.doc_id.as_str()) == 0 {
            proof {
                crate::text::lemma_byte_off_mono(doc.doc_id@, 0, doc.doc_id@.len() as int);
            }
            return Err(ShadowError::InvalidInput { detail: "doc_id was empty".to_owned() });
        }
        if text_eq(doc.domain.as_str(), "note") {
            return Ok(());
        }
        match self.edition {
            Edition::FreeLexical => Err(
                ShadowError::InvalidInput {
                    detail: "Free lexical backend accepts note documents only".to_owned(),
                },
            ),
            Edition::Semantic => {
                if text_eq(doc.domain.as_str(), "chat") {
                    return Ok(());
                }
                let start: String = concat2("unknown domain '", doc.domain.as_str());
                Err(
                    ShadowError::InvalidInput {
                        detail: concat2(start.as_str(), "' (expected 'note' or 'chat')"),
                    },
                )
            },
        }
    }

    /// Keeps a document, once it has been checked and the indices have it;
    /// what the indices said is `indexed`.
    pub fn insert_document(
        &mut self,
        doc: ShadowDocument,
        indexed: Result<(), ShadowError>,
    ) -> (r: Result<(), ShadowError>)
        ensures
            final(self)@.edition == old(self)@.edition,
            match index_error(old(self)@.edition, doc@) {
                Some(x) => r matches Err(e) && e@ == x && final(self)@ == old(self)@,
                None => match indexed {
                    Ok(_) => r is Ok && final(self)@.documents == with_document(
                        old(self)@.documents,
                        doc@.doc_id,
                        doc@,
                    ),
                    Err(e) => r == Err::<(), ShadowError>(e) && final(self)@ == old(self)@,
                },
            },
    {
        match self.check_document(&doc) {
            Ok(_) => {},
            Err(e) => {
                return Err(e);
            },
        }
        match indexed {
            Ok(_) => {
                let key: String = doc.doc_id.clone();
                self.documents.put(key.as_str(), doc);
                Ok(())
            },
            Err(e) => Err(e),
        }
    }

    /// Gives a document up; hands it out, so that the indices can be told.
    pub fn remove_document(&mut self, doc_id: &str) -> (r: Result<ShadowDocument, ShadowError>)
        ensures
            final(self)@.edition == old(self)@.edition,
            final(self)@.documents == without_document(old(self)@.documents, doc_id@),
            match r {
                Ok(d) => document_at(old(self)@.documents, doc_id@) == Some(d@),
                Err(e) => document_at(old(self)@.documents, doc_id@) is None && e@ == (
                ErrorModel::NotFound { doc_id: doc_id@ }),
            },
    {
        match self.documents.remove(doc_id) {
            Some(d) => Ok(d),
            None => Err(ShadowError::NotFound { doc_id: doc_id.to_owned() }),
        }
    }

    /// The notes that the full-text index found for a query.
    pub fn search_notes(&self, query: &str, limit: usize, found: &Vec<IndexMatch>) -> (r: Vec<
        ShadowHit,
    >)
        ensures
            hit_models(r@) == if asks_nothing(query@, limit) {
                Seq::empty()
            } else {
                note_hits(self@.documents, query@, match_models(found@))
            },
    {
        let ghost models = match_models(found@);
        let ghost m = self@.documents;
        let mut out: Vec<ShadowHit> = Vec::new();
        assert(hit_models(out@) =~= Seq::empty());
        if is_nothing(query, limit) {
            return out;
        }
        let len: usize = found.len();
        let mut i: usize = 0;
        assert(models.take(0) =~= Seq::empty());
        while i < len
            invariant
                i <= len == found@.len(),
                models == match_models(found@),
                m == self@.documents,
                m == self.documents@,
                hit_models(out@) == note_hits(m, query@, models.take(i as int)),
            decreases len - i,
        {
            assert(models.take(i + 1).drop_last() =~= models.take(i as int));
            assert(models.take(i + 1).last() == found@[i as int]@);
            if let Some(doc) = self.documents.get(found[i].doc_id.as_str()) {
                let ghost before = hit_models(out@);
                let h: ShadowHit = hit_of(doc, query, found[i].score_bits, "lexical");
                out.push(h);
                assert(hit_models(out@) =~= before.push(h@));
            }
            i += 1;
        }
        assert(models.take(len as int) =~= models);
        out
    }

    /// What a search of a domain asks of each index: twice as many matches as
    /// hits.
    pub fn plan_search(&self, query: &str, domain: &str, limit: usize) -> (r: Result<
        SearchPlan,
        ShadowError,
    >)
        requires
            (domain@ == "note"@ || domain@ == "chat"@) && !asks_nothing(query@, limit) ==> limit * 2
                <= usize::MAX,
        ensures
            match r {
                Ok(plan) => (domain@ == "note"@ || domain@ == "chat"@) && plan == if asks_nothing(
                    query@,
                    limit,
                ) {
                    SearchPlan::Nothing
                } else {
                    SearchPlan::Ask((limit * 2) as usize)
                },
                Err(e) => domain@ != "note"@ && domain@ != "chat"@ && e@ == (
                ErrorModel::InvalidInput {
                    detail: "unknown search domain '"@ + domain@
                        + "' (expected 'note' or 'chat')"@,
                }),
            },
    {
        if !text_eq(domain, "note") && !text_eq(domain, "chat") {
            let start: String = concat2("unknown search domain '", domain);
            return Err(
                ShadowError::InvalidInput {
                    detail: concat2(start.as_str(), "' (expected 'note' or 'chat')"),
                },
            );
        }
        if is_nothing(query, limit) {
            Ok(SearchPlan::Nothing)
        } else {
            Ok(SearchPlan::Ask(limit * 2))
        }
    }

    /// The hits of identifiers that were fused from a vector index and the
    /// full-text index.
    pub fn search(
        &self,
        query: &str,
        dense: &Vec<IndexMatch>,
        lexical: &Vec<IndexMatch>,
        fused: &Vec<IndexMatch>,
    ) -> (r: Vec<ShadowHit>)
        ensures
            hit_models(r@) == fused_hits(
                self@.documents,
                query@,
                match_models(dense@),
                match_models(lexical@),
                match_models(fused@),
            ),
    {
        let ghost models = match_models(fused@);
        let ghost m = self@.documents;
        let ghost a = match_models(dense@);
        let ghost b = match_models(lexical@);
        let mut out: Vec<ShadowHit> = Vec::new();
        assert(hit_models(out@) =~= Seq::empty());
        let len: usize = fused.len();
        let mut i: usize = 0;
        assert(models.take(0) =~= Seq::empty());
        while i < len
            invariant
                i <= len == fused@.len(),
                models == match_models(fused@),
                m == self@.documents,
                m == self.documents@,
                a == match_models(dense@),
                b == match_models(lexical@),
                hit_models(out@) == fused_hits(m, query@, a, b, models.take(i as int)),
            decreases len - i,
        {
            assert(models.take(i + 1).drop_last() =~= models.take(i as int));
            assert(models.take(i + 1).last() == fused@[i as int]@);
            let id: &str = fused[i].doc_id.as_str();
            if let Some(doc) = self.documents.get(id) {
                let ghost before = hit_models(out@);
                let in_dense: bool = holds_id(dense, id);
                let in_lexical: bool = holds_id(lexical, id);
                let source: &str = if in_dense && !in_lexical {
                    "dense"
                } else if !in_dense && in_lexical {
                    "lexical"
                } else {
                    "rrf"
                };
                let h: ShadowHit = hit_of(doc, query, fused[i].score_bits, source);
                out.push(h);
                assert(hit_models(out@) =~= before.push(h@));
            }
            i += 1;
        }
        assert(models.take(len as int) =~= models);
        out
    }

    /// The statistics. The notes-only edition counts every document as a note.
    pub fn stats(&self, last_flush_ms_ago: u64) -> (r: ShadowStats)
        ensures
            r == match self@.edition {
                Edition::FreeLexical => ShadowStats {
                    note_count: self@.documents.docs.len() as u64,
                    chat_count: 0,
                    ..stats_of(self@.documents.docs, last_flush_ms_ago)
                },
                Edition::Semantic => stats_of(self@.documents.docs, last_flush_ms_ago),
            },
    {
        let s: ShadowStats = document_stats(&self.documents, last_flush_ms_ago);
        match self.edition {
            Edition::FreeLexical => ShadowStats {
                note_count: self.documents.len() as u64,
                chat_count: 0,
                index_size_bytes: s.index_size_bytes,
                last_flush_ms_ago,
            },
            Edition::Semantic => s,
        }
    }
}

/// Whether the file of derived documents is too large to be read back.
pub fn is_oversized(size: Option<u64>) -> (r: bool)
    ensures
        r == (size is Some && size->0 > MAX_DERIVED_DOCS_BYTES),
{
    match size {
        Some(n) => n > MAX_DERIVED_DOCS_BYTES,
        None => false,
    }
}

/// A kept entry: a key and the document under it.
pub open spec fn entry_model(e: (String, ShadowDocument)) -> (Seq<char>, DocumentModel) {
    (e.0@, e.1@)
}

/// The notes among kept entries, each under its key; a later entry takes the
/// place of an earlier one with the same key.
pub open spec fn kept_notes(entries: Seq<(String, ShadowDocument)>) -> DocumentsModel
    decreases entries.len(),
{
    if entries.len() == 0 {
        DocumentsModel { keys: Seq::empty(), docs: Seq::empty() }
    } else {
        let before = kept_notes(entries.drop_last());
        let e = entry_model(entries.last());
        if e.1.domain == "note"@ {
            with_document(before, e.0, e.1)
        } else {
            before
        }
    }
}

/// The derived documents that are kept of those read back: the notes, and none
/// at all where there are too many documents. The flag says that there were
/// too many, so that the file is to be removed.
pub fn restore_notes(entries: &Vec<(String, ShadowDocument)>) -> (r: (DocumentMap, bool))
    ensures
        r.1 == (entries@.len() > MAX_DERIVED_DOCUMENTS),
        r.0@ == if entries@.len() > MAX_DERIVED_DOCUMENTS {
            DocumentsModel { keys: Seq::empty(), docs: Seq::empty() }
        } else {
            kept_notes(entries@)
        },
{
    let mut map: DocumentMap = DocumentMap::new();
    let len: usize = entries.len();
    if len > MAX_DERIVED_DOCUMENTS {
        return (map, true);
    }
    let mut i: usize = 0;
    assert(entries@.take(0) =~= Seq::empty());
    while i < len
        invariant
            i <= len == entries@.len(),
            map@ == kept_notes(entries@.take(i as int)),
        decreases len - i,
    {
        assert(entries@.take(i + 1).drop_last() =~= entries@.take(i as int));
        assert(entries@.take(i + 1).last() == entries@[i as int]);
        if text_eq(entries[i].1.domain.as_str(), "note") {
            map.put(entries[i].0.as_str(), entries[i].1.clone());
        }
        i += 1;
    }
    assert(entries@.take(len as int) =~= entries@);
    (map, false)
}

/// A document that the full-text index holds: its identifier and its domain.
pub open spec fn is_stale(m: DocumentsModel, e: (String, String)) -> bool {
    e.1@ != "note"@ || !has_key(m.keys, e.0@)
}

/// The identifiers that the full-text index is to forget.
pub open spec fn stale(m: DocumentsModel, indexed: Seq<(String, String)>) -> Seq<Seq<char>>
    decreases indexed.len(),
{
    if indexed.len() == 0 {
        Seq::empty()
    } else {
        let before = stale(m, indexed.drop_last());
        if is_stale(m, indexed.last()) {
            before.push(indexed.last().0@)
        } else {
            before
        }
    }
}

/// The identifiers that the full-text index is to forget: those of documents
/// that are no notes, and those that no kept document has.
pub fn stale_ids(documents: &DocumentMap, indexed: &Vec<(String, String)>) -> (r: Vec<String>)
    ensures
        string_views(r@) == stale(documents@, indexed@),
{
    let mut out: Vec<String> = Vec::new();
    let len: usize = indexed.len();
    let mut i: usize = 0;
    assert(indexed@.take(0) =~= Seq::empty());
    assert(string_views(out@) =~= Seq::empty());
    while i < len
        invariant
            i <= len == indexed@.len(),
            string_views(out@) == stale(documents@, indexed@.take(i as int)),
        decreases len - i,
    {
        assert(indexed@.take(i + 1).drop_last() =~= indexed@.take(i as int));
        assert(indexed@.take(i + 1).last() == indexed@[i as int]);
        let id: &str = indexed[i].0.as_str();
        let known: bool = documents.find(id).is_some();
        if !text_eq(indexed[i].1.as_str(), "note") || !known {
            let ghost before = string_views(out@);
            out.push(id.to_owned());
            assert(string_views(out@) =~= before.push(id@));
        }
        i += 1;
    }
    assert(indexed@.take(len as int) =~= indexed@);
    out
}

/// Every kept note is a note: what is read back never brings another domain
/// into the notes-only edition.
pub proof fn law_restored_documents_are_notes(entries: Seq<(String, ShadowDocument)>, i: int)
    requires
        0 <= i < kept_notes(entries).docs.len(),
    ensures
        documents_ok(kept_notes(entries)),
        kept_notes(entries).docs[i].domain == "note"@,
    decreases entries.len(),
{
    lemma_kept_notes(entries);
}

proof fn lemma_kept_notes(entries: Seq<(String, ShadowDocument)>)
    ensures
        documents_ok(kept_notes(entries)),
        forall|i: int|
            0 <= i < kept_notes(entries).docs.len() ==> (#[trigger] kept_notes(
                entries,
            ).docs[i]).domain == "note"@,
    decreases entries.len(),
{
    if entries.len() > 0 {
        let front = entries.drop_last();
        lemma_kept_notes(front);
        let before = kept_notes(front);
        let e = entry_model(entries.last());
        if e.1.domain == "note"@ {
            super::documents::law_put_then_get(before, e.0, e.1, e.0);
            crate::keys::lemma_place(before.keys, e.0);
            let at = crate::keys::place(before.keys, e.0);
            let after = with_document(before, e.0, e.1);
            assert forall|i: int| 0 <= i < after.docs.len() implies (
            #[trigger] after.docs[i]).domain == "note"@ by {
                if i != at {
                    if has_key(before.keys, e.0) || i < at {
                        assert(after.docs[i] == before.docs[i]);
                    } else {
                        assert(after.docs[i] == before.docs[i - 1]);
                    }
                }
            }
        }
    }
}

} // verus!
