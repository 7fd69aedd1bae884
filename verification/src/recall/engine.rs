//! The recall engine: a catalogue of documents, and the ranking of what its
//! channels found for a query.

use vstd::prelude::*;

use super::channels::{
    first_ids, id_views, rank_similarities, rank_titles, title_candidates, vector_candidates,
};
use super::fusion::{all_entries, fuse, fused, fused_models, Fused, FusedModel};
use super::similarity::{cosine, similarity_bits, text_vector, vectorize};
use super::snippet::{snippet, snippet_for};
use crate::order::{
    candidate_models, law_ranked_is_in_order, rank_candidates, ranked, Candidate, CandidateModel,
};
use crate::semantic::channel::{bits_order_key, total_order_key};
use crate::shadow::backend::{embedded_text, embedding_text, index_error};
use crate::shadow::documents::{
    document_at, hit_models, with_document, DocumentMap, DocumentModel, DocumentsModel,
    ShadowDocument, ShadowHit, ShadowHitModel,
};
use crate::shadow::error::{ErrorModel, ShadowError};
use crate::shadow::lexical::{is_backend, is_term, MAX_LEXICAL_HITS};
use crate::shadow::matching::lowercase;
use crate::shadow::notes::{may_find, RealBackend, ShadowBackend};
use crate::text::{chars_of, string_of, text_eq, trim, trim_range};

verus! {

/// How a query came about.
#[derive(Clone, Copy, Debug, PartialEq, Eq, Structural)]
pub enum RecallMode {
    /// It was typed to search.
    Sidebar,
    /// It is the text being written.
    Ambient,
}

/// A recalled document.
#[derive(Debug, PartialEq, Eq)]
pub struct RecallResult {
    pub doc_id: String,
    pub title: String,
    pub snippet: String,
    /// The fused score, as the bits of a single-precision number.
    pub score_bits: u32,
    /// The names of the rankings that found it, in alphabetical order.
    pub channels: Vec<String>,
    pub mode: RecallMode,
    pub elapsed_us: u128,
}

#[verifier::ext_equal]
pub struct RecallModel {
    pub doc_id: Seq<char>,
    pub title: Seq<char>,
    pub snippet: Seq<char>,
    pub score_bits: u32,
    pub channels: Seq<Seq<char>>,
    pub mode: RecallMode,
    pub elapsed_us: u128,
}

impl View for RecallResult {
    type V = RecallModel;

    open spec fn view(&self) -> RecallModel {
        RecallModel {
            doc_id: self.doc_id@,
            title: self.title@,
            snippet: self.snippet@,
            score_bits: self.score_bits,
            channels: id_views(self.channels@),
            mode: self.mode,
            elapsed_us: self.elapsed_us,
        }
    }
}

pub open spec fn recall_models(v: Seq<RecallResult>) -> Seq<RecallModel> {
    v.map_values(|x: RecallResult| x@)
}

pub open spec fn opt_view(s: Option<&str>) -> Option<Seq<char>> {
    match s {
        Some(t) => Some(t@),
        None => None,
    }
}

/// How many candidates each channel gives for so many results.
pub open spec fn pool_for(limit: nat) -> int {
    if limit * 6 <= 30 {
        30
    } else if limit * 6 <= usize::MAX {
        (limit * 6) as int
    } else {
        usize::MAX as int
    }
}

/// Whether there is anything to search for.
pub open spec fn is_search(query: Seq<char>, limit: nat) -> bool {
    trim(query).len() > 0 && limit > 0
}

/// How many candidates each channel is to give, and nothing where there is
/// nothing to search for.
pub fn search_pool(query: &str, limit: usize) -> (r: Option<usize>)
    ensures
        match r {
            Some(pool) => is_search(query@, limit as nat) && pool == pool_for(limit as nat),
            None => !is_search(query@, limit as nat),
        },
{
    let chars: Vec<char> = chars_of(query);
    let (lo, hi) = trim_range(&chars, 0, chars.len());
    if lo == hi || limit == 0 {
        return None;
    }
    if limit <= 5 {
        Some(30)
    } else if limit <= usize::MAX / 6 {
        Some(limit * 6)
    } else {
        Some(usize::MAX)
    }
}

/// The fewest characters of written text that anything is recalled for.
pub const MIN_AMBIENT_CHARS: usize = 12;

/// The most characters of written text that are looked at.
pub const MAX_AMBIENT_CHARS: usize = 600;

/// What is searched for while a text is being written: its last 600
/// characters, without white space at its ends. Text of fewer than twelve
/// characters asks for nothing.
pub open spec fn ambient_text(text: Seq<char>) -> Option<Seq<char>> {
    let t = trim(text);
    if t.len() < MIN_AMBIENT_CHARS {
        None
    } else if t.len() <= MAX_AMBIENT_CHARS {
        Some(t)
    } else {
        Some(t.subrange(t.len() - MAX_AMBIENT_CHARS, t.len() as int))
    }
}

/// What is searched for while a text is being written.
pub fn ambient_query(current_text: &str) -> (r: Option<String>)
    ensures
        match r {
            Some(q) => ambient_text(current_text@) == Some(q@),
            None => ambient_text(current_text@) is None,
        },
{
    let chars: Vec<char> = chars_of(current_text);
    let (lo, hi) = trim_range(&chars, 0, chars.len());
    if hi - lo < MIN_AMBIENT_CHARS {
        return None;
    }
    let start: usize = if hi - lo > MAX_AMBIENT_CHARS {
        hi - MAX_AMBIENT_CHARS
    } else {
        lo
    };
    let q: String = string_of(&chars, start, hi);
    assert(ambient_text(current_text@)->0 =~= q@);
    Some(q)
}

/// The names of the rankings that found an identifier.
pub open spec fn found_by(f: FusedModel) -> Seq<Seq<char>> {
    let a = if f.bm25 {
        seq!["bm25"@]
    } else {
        Seq::empty()
    };
    let b = if f.title {
        a.push("title"@)
    } else {
        a
    };
    if f.trigram_vector {
        b.push("trigram-vector"@)
    } else {
        b
    }
}

/// The excerpt that the full-text channel gave for an identifier, the last one
/// if there are several.
pub open spec fn lexical_snippet(lexical: Seq<ShadowHitModel>, id: Seq<char>) -> Option<Seq<char>>
    decreases lexical.len(),
{
    if lexical.len() == 0 {
        None
    } else if lexical.last().doc_id == id {
        Some(lexical.last().snippet)
    } else {
        lexical_snippet(lexical.drop_last(), id)
    }
}

/// What a query is answered from.
pub struct RecallInput {
    pub documents: DocumentsModel,
    pub query: Seq<char>,
    pub lexical: Seq<ShadowHitModel>,
    pub similarity: Seq<u32>,
    pub mode: RecallMode,
    pub elapsed_us: u128,
}

/// What becomes of a fused identifier.
#[verifier::ext_equal]
pub enum Shown {
    /// No document has it.
    Missing,
    /// Its document has no excerpt for the query.
    Broken,
    Result(RecallModel),
}

/// What becomes of a fused identifier: its document, with the excerpt of the
/// full-text channel or, without one, the excerpt round the query.
pub open spec fn shown(x: RecallInput, f: FusedModel) -> Shown {
    match document_at(x.documents, f.id) {
        None => Shown::Missing,
        Some(d) => {
            let text = match lexical_snippet(x.lexical, d.doc_id) {
                Some(t) => Some(t),
                None => snippet_for(d.body, lowercase(d.body), lowercase(x.query)),
            };
            match text {
                None => Shown::Broken,
                Some(t) => Shown::Result(
                    RecallModel {
                        doc_id: f.id,
                        title: d.title,
                        snippet: t,
                        score_bits: f.score_bits,
                        channels: found_by(f),
                        mode: x.mode,
                        elapsed_us: x.elapsed_us,
                    },
                ),
            }
        },
    }
}

/// What the fusion says of the identifiers that the channels name.
pub open spec fn fused_input(x: RecallInput, pool: int) -> Seq<FusedModel> {
    fused(
        all_entries(
            first_ids(title_candidates(x.documents.docs, x.query), pool),
            x.lexical.map_values(|h: ShadowHitModel| h.doc_id),
            first_ids(vector_candidates(x.documents.docs, x.similarity), pool),
        ),
    )
}

/// The fused identifiers but for the excluded one, as candidates.
pub open spec fn survivors(fs: Seq<FusedModel>, excluded: Option<Seq<char>>) -> Seq<CandidateModel>
    decreases fs.len(),
{
    if fs.len() == 0 {
        Seq::empty()
    } else {
        let before = survivors(fs.drop_last(), excluded);
        let f = fs.last();
        if excluded == Some(f.id) {
            before
        } else {
            before.push(
                CandidateModel {
                    key: total_order_key(f.score_bits) as i64,
                    id: f.id,
                    index: (fs.len() - 1) as usize,
                },
            )
        }
    }
}

/// The best of the fused identifiers.
pub open spec fn best_of(
    fs: Seq<FusedModel>,
    excluded: Option<Seq<char>>,
    limit: int,
) -> Seq<CandidateModel> {
    let order = ranked(survivors(fs, excluded));
    if limit < order.len() {
        order.take(limit)
    } else {
        order
    }
}

/// The results of the chosen identifiers, unless one has no excerpt.
pub open spec fn shown_all(
    x: RecallInput,
    fs: Seq<FusedModel>,
    order: Seq<CandidateModel>,
) -> Option<Seq<RecallModel>>
    decreases order.len(),
{
    if order.len() == 0 {
        Some(Seq::empty())
    } else {
        match shown_all(x, fs, order.drop_last()) {
            None => None,
            Some(before) => match shown(x, fs[order.last().index as int]) {
                Shown::Missing => Some(before),
                Shown::Broken => None,
                Shown::Result(m) => Some(before.push(m)),
            },
        }
    }
}

/// The answer to a query.
pub open spec fn answer(
    x: RecallInput,
    limit: nat,
    excluded: Option<Seq<char>>,
) -> Option<Seq<RecallModel>> {
    if !is_search(x.query, limit) {
        Some(Seq::empty())
    } else {
        let fs = fused_input(x, pool_for(limit));
        shown_all(x, fs, best_of(fs, excluded, limit as int))
    }
}

fn names_of(f: &Fused) -> (r: Vec<String>)
    ensures
        id_views(r@) == found_by(f@),
{
    let mut out: Vec<String> = Vec::new();
    assert(id_views(out@) =~= Seq::empty());
    if f.bm25 {
        out.push("bm25".to_owned());
        assert(id_views(out@) =~= seq!["bm25"@]);
    }
    let ghost a = id_views(out@);
    if f.title {
        out.push("title".to_owned());
        assert(id_views(out@) =~= a.push("title"@));
    }
    let ghost b = id_views(out@);
    if f.trigram_vector {
        out.push("trigram-vector".to_owned());
        assert(id_views(out@) =~= b.push("trigram-vector"@));
    }
    out
}

fn find_lexical(lexical: &Vec<ShadowHit>, id: &str) -> (r: Option<usize>)
    ensures
        match r {
            Some(i) => i < lexical@.len() && lexical_snippet(hit_models(lexical@), id@) == Some(
                lexical@[i as int].snippet@,
            ),
            None => lexical_snippet(hit_models(lexical@), id@) is None,
        },
{
    let ghost models = hit_models(lexical@);
    let mut i: usize = lexical.len();
    assert(models.take(i as int) =~= models);
    while i > 0
        invariant
            i <= lexical@.len(),
            models == hit_models(lexical@),
            lexical_snippet(models, id@) == lexical_snippet(models.take(i as int), id@),
        decreases i,
    {
        assert(models.take(i as int).drop_last() =~= models.take(i - 1));
        assert(models.take(i as int).last() == lexical@[i - 1]@);
        if text_eq(lexical[i - 1].doc_id.as_str(), id) {
            return Some(i - 1);
        }
        i -= 1;
    }
    None
}

fn collect_survivors(fs: &Vec<Fused>, excluded: Option<&str>) -> (r: Vec<Candidate>)
    ensures
        candidate_models(r@) == survivors(fused_models(fs@), opt_view(excluded)),
        forall|i: int| 0 <= i < r@.len() ==> (#[trigger] r@[i]).index < fs@.len(),
{
    let ghost models = fused_models(fs@);
    let len: usize = fs.len();
    let mut cs: Vec<Candidate> = Vec::new();
    let mut i: usize = 0;
    assert(models.take(0) =~= Seq::empty());
    assert(candidate_models(cs@) =~= Seq::empty());
    while i < len
        invariant
            i <= len == fs@.len(),
            models == fused_models(fs@),
            candidate_models(cs@) == survivors(models.take(i as int), opt_view(excluded)),
            forall|k: int| 0 <= k < cs@.len() ==> (#[trigger] cs@[k]).index < len,
        decreases len - i,
    {
        assert(models.take(i + 1).drop_last() =~= models.take(i as int));
        assert(models.take(i + 1).last() == fs@[i as int]@);
        let skip: bool = match excluded {
            Some(e) => text_eq(e, fs[i].id.as_str()),
            None => false,
        };
        if !skip {
            let ghost before = candidate_models(cs@);
            let c: Candidate = Candidate {
                key: bits_order_key(fs[i].score_bits),
                id: fs[i].id.clone(),
                index: i,
            };
            cs.push(c);
            assert(candidate_models(cs@) =~= before.push(c@));
        }
        i += 1;
    }
    assert(models.take(len as int) =~= models);
    cs
}

/// The similarities of documents to a query: of their titles and bodies.
pub open spec fn similarities(docs: Seq<DocumentModel>, query: Seq<char>) -> Seq<u32> {
    docs.map_values(
        |d: DocumentModel| similarity_bits(text_vector(query), text_vector(embedded_text(d))),
    )
}

/// The engine: the catalogue of documents that it can recall, and the full-text
/// engine that finds some of them.
pub struct RecallEngine {
    documents: DocumentMap,
    lexical: RealBackend,
}

impl View for RecallEngine {
    type V = DocumentsModel;

    closed spec fn view(&self) -> DocumentsModel {
        self.documents@
    }
}

/// What an engine answers a query from: what the full-text engine found, and
/// the similarities of the documents.
pub open spec fn recall_input(
    documents: DocumentsModel,
    query: Seq<char>,
    lexical: Seq<ShadowHitModel>,
    mode: RecallMode,
    elapsed_us: u128,
) -> RecallInput {
    RecallInput {
        documents,
        query,
        lexical,
        similarity: similarities(documents.docs, query),
        mode,
        elapsed_us,
    }
}

/// Whether an engine may answer a query in this way, whatever the full-text
/// engine finds: with the results of some hits; with no result, but an error,
/// where the full-text engine fails or a result has no excerpt.
pub open spec fn may_recall(
    engine: RecallEngine,
    query: Seq<char>,
    limit: nat,
    mode: RecallMode,
    excluded: Option<Seq<char>>,
    elapsed_us: u128,
    r: Result<Vec<RecallResult>, ShadowError>,
) -> bool {
    if !is_search(query, limit) {
        r is Ok && (r->Ok_0)@.len() == 0
    } else {
        match r {
            Ok(out) => exists|lexical: Seq<ShadowHitModel>| #[trigger]
                engine.may_find(query, pool_for(limit) as nat, lexical) && answer(
                    recall_input(engine@, query, lexical, mode, elapsed_us),
                    limit,
                    excluded,
                ) == Some(recall_models(out@)),
            Err(e) => is_backend(e@) || e@ == ErrorModel::Panic && exists|
                lexical: Seq<ShadowHitModel>,
            | #[trigger]
                engine.may_find(query, pool_for(limit) as nat, lexical) && answer(
                    recall_input(engine@, query, lexical, mode, elapsed_us),
                    limit,
                    excluded,
                ) is None,
        }
    }
}

impl RecallEngine {
    /// The full-text engine by what it keeps.
    pub closed spec fn backend(&self) -> RealBackend {
        self.lexical
    }

    /// Whether the full-text engine may find these hits.
    pub open spec fn may_find(
        &self,
        query: Seq<char>,
        pool: nat,
        lexical: Seq<ShadowHitModel>,
    ) -> bool {
        may_find(self.backend()@.documents, self.backend().indexed(), query, pool, lexical)
    }

    /// An engine over a catalogue and a full-text engine.
    pub fn open(documents: DocumentMap, lexical: RealBackend) -> (r: Self)
        ensures
            r@ == documents@,
            r.backend() == lexical,
    {
        RecallEngine { documents, lexical }
    }

    /// The catalogue.
    pub fn documents(&self) -> (r: &DocumentMap)
        ensures
            r@ == self@,
    {
        &self.documents
    }

    /// The full-text engine.
    pub fn lexical(&self) -> (r: &RealBackend)
        ensures
            *r == self.backend(),
    {
        &self.lexical
    }

    pub fn document_count(&self) -> (r: usize)
        ensures
            r == self@.docs.len(),
    {
        self.documents.len()
    }

    /// Takes a document into the full-text engine, and then into the
    /// catalogue.
    pub fn upsert(&mut self, document: ShadowDocument) -> (r: Result<(), ShadowError>)
        ensures
            final(self).backend()@.edition == old(self).backend()@.edition,
            match index_error(old(self).backend()@.edition, document@) {
                Some(x) => r is Err && (r->Err_0)@ == x && final(self)@ == old(self)@,
                None => match r {
                    Ok(_) => final(self)@ == with_document(
                        old(self)@,
                        document@.doc_id,
                        document@,
                    ) && final(self).backend()@.documents == with_document(
                        old(self).backend()@.documents,
                        document@.doc_id,
                        document@,
                    ),
                    Err(e) => is_backend(e@) && final(self)@ == old(self)@ && final(self).backend()@
                        == old(self).backend()@,
                },
            },
            old(self).backend().in_step() && r is Ok && is_term(document@.doc_id) ==> final(
                self).backend().in_step(),
    {
        match self.lexical.insert_document(document.clone()) {
            Ok(()) => {
                let key: String = document.doc_id.clone();
                self.documents.put(key.as_str(), document);
                Ok(())
            },
            Err(e) => Err(e),
        }
    }

    /// The similarity of each document of the catalogue to a query.
    pub fn compare(&self, query: &str) -> (r: Vec<u32>)
        ensures
            r@ == similarities(self@.docs, query@),
            r@.len() == self@.docs.len(),
    {
        let ghost goal = similarities(self@.docs, query@);
        let asked: Vec<u32> = vectorize(query);
        let len: usize = self.documents.len();
        let mut out: Vec<u32> = Vec::new();
        let mut i: usize = 0;
        while i < len
            invariant
                i <= len == self@.docs.len(),
                self@ == self.documents@,
                goal == similarities(self@.docs, query@),
                asked@ == text_vector(query@),
                out@ =~= goal.take(i as int),
            decreases len - i,
        {
            let doc: &ShadowDocument = self.documents.document(i);
            let text: String = embedding_text(doc);
            let other: Vec<u32> = vectorize(text.as_str());
            let bits: u32 = cosine(&asked, &other);
            assert(bits == goal[i as int]);
            out.push(bits);
            i += 1;
        }
        assert(goal.take(len as int) =~= goal);
        out
    }

    fn show(
        &self,
        f: &Fused,
        query: &str,
        mode: RecallMode,
        lexical: &Vec<ShadowHit>,
        elapsed_us: u128,
        Ghost(x): Ghost<RecallInput>,
    ) -> (r: Result<Option<RecallResult>, ShadowError>)
        requires
            x.documents == self@,
            x.query == query@,
            x.mode == mode,
            x.elapsed_us == elapsed_us,
            x.lexical == hit_models(lexical@),
        ensures
            match r {
                Ok(Some(m)) => shown(x, f@) == Shown::Result(m@),
                Ok(None) => shown(x, f@) == Shown::Missing,
                Err(e) => shown(x, f@) == Shown::Broken && e@ == ErrorModel::Panic,
            },
    {
        let doc: &ShadowDocument = match self.documents.get(f.id.as_str()) {
            Some(d) => d,
            None => {
                return Ok(None);
            },
        };
        let text: String = match find_lexical(lexical, doc.doc_id.as_str()) {
            Some(i) => lexical[i].snippet.clone(),
            None => match snippet(doc.body.as_str(), query) {
                Some(t) => t,
                None => {
                    return Err(ShadowError::Panic);
                },
            },
        };
        let result: RecallResult = RecallResult {
            doc_id: f.id.clone(),
            title: doc.title.clone(),
            snippet: text,
            score_bits: f.score_bits,
            channels: names_of(f),
            mode,
            elapsed_us,
        };
        assert(Shown::Result(result@) == shown(x, f@));
        Ok(Some(result))
    }

    /// The documents that the channels found for a query, the best first: the
    /// hits of the full-text index, and for each document of the catalogue, in
    /// the order of keys, the bits of its similarity to the query.
    ///
    /// It fails where a result has no excerpt.
    pub fn rank(
        &self,
        query: &str,
        limit: usize,
        mode: RecallMode,
        excluded: Option<&str>,
        lexical: &Vec<ShadowHit>,
        similarity: &Vec<u32>,
        elapsed_us: u128,
    ) -> (r: Result<Vec<RecallResult>, ShadowError>)
        requires
            similarity@.len() == self@.docs.len(),
        ensures
            ({
                let x = RecallInput {
                    documents: self@,
                    query: query@,
                    lexical: hit_models(lexical@),
                    similarity: similarity@,
                    mode,
                    elapsed_us,
                };
                match r {
                    Ok(out) => answer(x, limit as nat, opt_view(excluded)) == Some(
                        recall_models(out@),
                    ),
                    Err(e) => answer(x, limit as nat, opt_view(excluded)) is None && e@
                        == ErrorModel::Panic,
                }
            }),
    {
        let ghost x = RecallInput {
            documents: self@,
            query: query@,
            lexical: hit_models(lexical@),
            similarity: similarity@,
            mode,
            elapsed_us,
        };
        let mut out: Vec<RecallResult> = Vec::new();
        assert(recall_models(out@) =~= Seq::empty());
        let pool: usize = match search_pool(query, limit) {
            Some(n) => n,
            None => {
                return Ok(out);
            },
        };
        let title: Vec<String> = rank_titles(&self.documents, query, pool);
        let vector: Vec<String> = rank_similarities(&self.documents, similarity, pool);
        let mut ids: Vec<String> = Vec::new();
        let mut k: usize = 0;
        let ghost lexical_ids = x.lexical.map_values(|h: ShadowHitModel| h.doc_id);
        while k < lexical.len()
            invariant
                k <= lexical@.len(),
                lexical_ids == hit_models(lexical@).map_values(|h: ShadowHitModel| h.doc_id),
                id_views(ids@) =~= lexical_ids.take(k as int),
            decreases lexical@.len() - k,
        {
            let ghost before = id_views(ids@);
            let id: String = lexical[k].doc_id.clone();
            ids.push(id);
            assert(hit_models(lexical@)[k as int] == lexical@[k as int]@);
            assert(id_views(ids@) =~= before.push(id@));
            k += 1;
        }
        assert(lexical_ids.take(lexical@.len() as int) =~= lexical_ids);
        let fs: Vec<Fused> = fuse(&title, &ids, &vector);
        let ghost models = fused_models(fs@);
        assert(models == fused_input(x, pool as int));
        let cs: Vec<Candidate> = collect_survivors(&fs, excluded);
        let ghost cands = candidate_models(cs@);
        let order: Vec<Candidate> = rank_candidates(cs);
        proof {
            law_ranked_is_in_order(cands);
            assert forall|i: int| 0 <= i < order@.len() implies (#[trigger] order@[i]).index
                < fs@.len() by {
                crate::order::lemma_ranked_members(cands, i);
                let j = choose|j: int| 0 <= j < cands.len() && cands[j] == ranked(cands)[i];
                assert(candidate_models(order@)[i] == order@[i]@);
                assert(cands[j] == cs@[j]@);
            }
        }
        let len: usize = order.len();
        let n: usize = if limit < len {
            limit
        } else {
            len
        };
        let ghost best = best_of(models, opt_view(excluded), limit as int);
        assert(ranked(cands).take(len as int) =~= ranked(cands));
        assert(best == candidate_models(order@).take(n as int));
        let mut i: usize = 0;
        assert(best.take(0) =~= Seq::empty());
        while i < n
            invariant
                i <= n <= len == order@.len(),
                n == best.len(),
                best == candidate_models(order@).take(n as int),
                models == fused_models(fs@),
                forall|j: int| 0 <= j < len ==> (#[trigger] order@[j]).index < fs@.len(),
                x.documents == self@,
                x.query == query@,
                x.mode == mode,
                x.elapsed_us == elapsed_us,
                x.lexical == hit_models(lexical@),
                x.similarity == similarity@,
                shown_all(x, models, best.take(i as int)) == Some(recall_models(out@)),
                answer(x, limit as nat, opt_view(excluded)) == shown_all(x, models, best),
            decreases n - i,
        {
            assert(best.take(i + 1).drop_last() =~= best.take(i as int));
            assert(best.take(i + 1).last() == order@[i as int]@);
            let at: usize = order[i].index;
            assert(models[at as int] == fs@[at as int]@);
            match self.show(&fs[at], query, mode, lexical, elapsed_us, Ghost(x)) {
                Ok(Some(m)) => {
                    let ghost before = recall_models(out@);
                    out.push(m);
                    assert(recall_models(out@) =~= before.push(m@));
                },
                Ok(None) => {},
                Err(e) => {
                    proof {
                        lemma_broken_stays(x, models, best, i + 1);
                    }
                    return Err(e);
                },
            }
            i += 1;
        }
        assert(best.take(n as int) =~= best);
        Ok(out)
    }

    /// Searches all channels: the full-text engine, the titles and the
    /// similarities. The time that it took is for the caller to say.
    pub fn search(
        &self,
        query: &str,
        limit: usize,
        mode: RecallMode,
        excluded: Option<&str>,
        elapsed_us: u128,
    ) -> (r: Result<Vec<RecallResult>, ShadowError>)
        requires
            is_search(query@, limit as nat) ==> 6 * limit <= MAX_LEXICAL_HITS,
        ensures
            may_recall(
                *self,
                query@,
                limit as nat,
                mode,
                opt_view(excluded),
                elapsed_us,
                r,
            ),
    {
        let pool: usize = match search_pool(query, limit) {
            Some(n) => n,
            None => {
                return Ok(Vec::new());
            },
        };
        let lexical: Vec<ShadowHit> = match self.lexical.search_notes(query, pool) {
            Ok(x) => x,
            Err(e) => {
                return Err(e);
            },
        };
        let similarity: Vec<u32> = self.compare(query);
        let ghost found = hit_models(lexical@);
        assert(self.may_find(query@, pool as nat, found));
        assert(recall_input(self@, query@, found, mode, elapsed_us) == (RecallInput {
            documents: self@,
            query: query@,
            lexical: found,
            similarity: similarity@,
            mode,
            elapsed_us,
        }));
        self.rank(query, limit, mode, excluded, &lexical, &similarity, elapsed_us)
    }

    /// Deliberate search.
    pub fn search_sidebar(&self, query: &str, limit: usize, elapsed_us: u128) -> (r: Result<
        Vec<RecallResult>,
        ShadowError,
    >)
        requires
            is_search(query@, limit as nat) ==> 6 * limit <= MAX_LEXICAL_HITS,
        ensures
            may_recall(
                *self,
                query@,
                limit as nat,
                RecallMode::Sidebar,
                None,
                elapsed_us,
                r,
            ),
    {
        self.search(query, limit, RecallMode::Sidebar, None, elapsed_us)
    }

    /// Recall for a text that is being written; the note it stands in, if it
    /// is given, is left out.
    pub fn recall_ambient(
        &self,
        origin_note_id: Option<&str>,
        current_text: &str,
        limit: usize,
        elapsed_us: u128,
    ) -> (r: Result<Vec<RecallResult>, ShadowError>)
        requires
            ambient_text(current_text@) is Some ==> 6 * limit <= MAX_LEXICAL_HITS,
        ensures
            match ambient_text(current_text@) {
                None => r is Ok && (r->Ok_0)@.len() == 0,
                Some(q) => may_recall(
                    *self,
                    q,
                    limit as nat,
                    RecallMode::Ambient,
                    opt_view(origin_note_id),
                    elapsed_us,
                    r,
                ),
            },
    {
        let query: String = match ambient_query(current_text) {
            Some(q) => q,
            None => {
                return Ok(Vec::new());
            },
        };
        self.search(query.as_str(), limit, RecallMode::Ambient, origin_note_id, elapsed_us)
    }
}

/// Once an excerpt is missing, it stays missing.
proof fn lemma_broken_stays(
    x: RecallInput,
    fs: Seq<FusedModel>,
    order: Seq<CandidateModel>,
    n: int,
)
    requires
        0 <= n <= order.len(),
        shown_all(x, fs, order.take(n)) is None,
    ensures
        shown_all(x, fs, order) is None,
    decreases order.len() - n,
{
    if n == order.len() {
        assert(order.take(n) =~= order);
    } else {
        assert(order.take(n + 1).drop_last() =~= order.take(n));
        lemma_broken_stays(x, fs, order, n + 1);
    }
}

} // verus!
