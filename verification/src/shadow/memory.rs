//! The engine in memory: documents by identifier, searched by substring.

use vstd::prelude::*;

use super::documents::{
    document_at, documents_ok, hit_models, with_document, without_document, DocumentMap,
    DocumentModel, DocumentsModel, ShadowDocument, ShadowHit, ShadowHitModel,
};
use super::error::{ErrorModel, ShadowError};
use super::matching::{
    contains_word, excerpt, excerpt_of, find, find_chars, has_word, lower_text, lowercase,
};
use crate::float::{
    divide, is_number, negated, number_two_to, plus, quotient, round_integer, rounded,
    single_bits, sum, to_single_bits, two_to, Number, Rounded,
};
use crate::order::{
    candidate_models, lemma_ranked_places, rank_candidates, ranked, Candidate, CandidateModel,
};
use crate::semantic::channel::{bits_order_key, total_order_key};
use crate::text::{
    byte_len, byte_off, char_offsets, chars_of, clone_opt_text, concat2, str_byte_len, text_eq,
    trim, trim_range,
};

verus! {

/// Which documents an engine takes.
#[derive(Clone, Copy, Debug, PartialEq, Eq, Structural)]
pub enum Edition {
    /// Notes only.
    FreeLexical,
    /// Notes and chats.
    Semantic,
}

/// Whether an edition takes documents of a domain.
pub open spec fn domain_accepted(edition: Edition, domain: Seq<char>) -> bool {
    domain == "note"@ || edition == Edition::Semantic && domain == "chat"@
}

pub fn accepts_domain(edition: Edition, domain: &str) -> (r: bool)
    ensures
        r == domain_accepted(edition, domain@),
{
    if text_eq(domain, "note") {
        return true;
    }
    match edition {
        Edition::FreeLexical => false,
        Edition::Semantic => text_eq(domain, "chat"),
    }
}

/// What is wrong with a document to be inserted.
pub open spec fn insert_error(edition: Edition, d: DocumentModel) -> Option<ErrorModel> {
    if d.doc_id.len() == 0 {
        Some(ErrorModel::InvalidInput { detail: "doc_id was empty"@ })
    } else if !domain_accepted(edition, d.domain) {
        Some(ErrorModel::InvalidInput { detail: "unsupported domain '"@ + d.domain + "'"@ })
    } else {
        None
    }
}

/// How near to the start of a body of `body_len` bytes the byte `at` is: one
/// minus the quotient.
pub open spec fn nearness(at: nat, body_len: nat) -> Number {
    let len = if body_len == 0 {
        1
    } else {
        body_len
    };
    sum(
        24,
        two_to(24, 0),
        negated(quotient(24, rounded(24, at as int, 1), rounded(24, len as int, 1))),
    )
}

/// The score of a match, in single precision: two for the title, then the
/// nearness of the place in the body, then a half for a whole word.
pub open spec fn match_score(
    title_hit: bool,
    body_at: Option<nat>,
    body_len: nat,
    word: bool,
) -> Number {
    let a = if title_hit {
        two_to(24, 1)
    } else {
        Number { m: 0, e: 0 }
    };
    let b = match body_at {
        Some(at) => sum(24, a, nearness(at, body_len)),
        None => a,
    };
    if word {
        sum(24, b, two_to(24, -1))
    } else {
        b
    }
}

/// The byte at which `q` first stands in `s`.
pub open spec fn find_byte(s: Seq<char>, q: Seq<char>) -> Option<nat> {
    match find(s, q) {
        Some(i) => Some(byte_off(s, i)),
        None => None,
    }
}

/// The hit of a document for a query, from the lower case of its title, of its
/// body and of the query. The place in the lower case of the body is measured
/// against the length of the body itself.
pub open spec fn hit_for(
    d: DocumentModel,
    title_lower: Seq<char>,
    body_lower: Seq<char>,
    query_lower: Seq<char>,
) -> Option<ShadowHitModel> {
    let title_hit = find(title_lower, query_lower) is Some;
    let body_at = find_byte(body_lower, query_lower);
    if !title_hit && body_at is None {
        None
    } else {
        Some(
            ShadowHitModel {
                doc_id: d.doc_id,
                title: d.title,
                snippet: excerpt(
                    d.body,
                    match body_at {
                        Some(at) => at,
                        None => 0,
                    },
                ),
                score_bits: single_bits(
                    match_score(
                        title_hit,
                        body_at,
                        byte_len(d.body),
                        has_word(title_lower, query_lower),
                    ),
                ) as u32,
                source: "in-memory-substring"@,
                origin_vault_key: d.origin_vault_key,
            },
        )
    }
}

/// The hits among documents, in the order of the documents.
pub open spec fn hits_among(
    docs: Seq<DocumentModel>,
    domain: Seq<char>,
    query_lower: Seq<char>,
) -> Seq<ShadowHitModel>
    decreases docs.len(),
{
    if docs.len() == 0 {
        Seq::empty()
    } else {
        let before = hits_among(docs.drop_last(), domain, query_lower);
        let d = docs.last();
        if d.domain != domain {
            before
        } else {
            match hit_for(d, lowercase(d.title), lowercase(d.body), query_lower) {
                Some(h) => before.push(h),
                None => before,
            }
        }
    }
}

/// Hits as candidates, with their places.
pub open spec fn hit_candidates(hits: Seq<ShadowHitModel>) -> Seq<CandidateModel> {
    Seq::new(
        hits.len(),
        |i: int|
            CandidateModel {
                key: total_order_key(hits[i].score_bits) as i64,
                id: hits[i].doc_id,
                index: i as usize,
            },
    )
}

/// The best hits: by score, of equal scores by identifier, no more than
/// `limit`.
pub open spec fn best_hits(hits: Seq<ShadowHitModel>, limit: int) -> Seq<ShadowHitModel> {
    let order = ranked(hit_candidates(hits));
    let n = if limit < hits.len() {
        limit as nat
    } else {
        hits.len()
    };
    Seq::new(n, |i: int| hits[order[i].index as int])
}

/// The number of documents of a domain.
pub open spec fn count_domain(docs: Seq<DocumentModel>, domain: Seq<char>) -> nat
    decreases docs.len(),
{
    if docs.len() == 0 {
        0
    } else {
        count_domain(docs.drop_last(), domain) + if docs.last().domain == domain {
            1nat
        } else {
            0
        }
    }
}

/// The bytes of all titles and bodies.
pub open spec fn text_bytes(docs: Seq<DocumentModel>) -> nat
    decreases docs.len(),
{
    if docs.len() == 0 {
        0
    } else {
        text_bytes(docs.drop_last()) + byte_len(docs.last().title) + byte_len(docs.last().body)
    }
}

/// What an engine holds.
#[derive(Clone, Copy, Debug, PartialEq, Eq, Structural)]
pub struct ShadowStats {
    pub note_count: u64,
    pub chat_count: u64,
    pub index_size_bytes: u64,
    pub last_flush_ms_ago: u64,
}

/// The statistics of documents. A size beyond 64 bits counts as the greatest.
pub open spec fn stats_of(docs: Seq<DocumentModel>, last_flush_ms_ago: u64) -> ShadowStats {
    ShadowStats {
        note_count: count_domain(docs, "note"@) as u64,
        chat_count: count_domain(docs, "chat"@) as u64,
        index_size_bytes: if text_bytes(docs) <= u64::MAX {
            text_bytes(docs) as u64
        } else {
            u64::MAX
        },
        last_flush_ms_ago,
    }
}

fn score_match(title_hit: bool, body_at: Option<usize>, body_len: usize, word: bool) -> (r: u32)
    ensures
        r == single_bits(
            match_score(
                title_hit,
                match body_at {
                    Some(at) => Some(at as nat),
                    None => None,
                },
                body_len as nat,
                word,
            ),
        ),
{
    let a: Rounded = if title_hit {
        number_two_to(24, 1)
    } else {
        Rounded { m: 0, e: 0 }
    };
    let b: Rounded = match body_at {
        Some(at) => {
            let len: u64 = if body_len == 0 {
                1
            } else {
                body_len as u64
            };
            let q: Rounded = divide(24, round_integer(24, at as u64), round_integer(24, len));
            let n: Rounded = Rounded { m: -q.m, e: q.e };
            assert(n@ == negated(q@));
            assert(is_number(24, n@));
            let near: Rounded = plus(24, number_two_to(24, 0), n);
            plus(24, a, near)
        },
        None => a,
    };
    if word {
        to_single_bits(plus(24, b, number_two_to(24, -1)))
    } else {
        to_single_bits(b)
    }
}

/// The hit of a document for a query, from the lower case of its title, of its
/// body and of the query.
pub fn match_document(
    doc: &ShadowDocument,
    title_lower: &str,
    body_lower: &str,
    query_lower: &str,
) -> (r: Option<ShadowHit>)
    ensures
        match r {
            Some(h) => hit_for(doc@, title_lower@, body_lower@, query_lower@) == Some(h@),
            None => hit_for(doc@, title_lower@, body_lower@, query_lower@) is None,
        },
{
    let title: Vec<char> = chars_of(title_lower);
    let body: Vec<char> = chars_of(body_lower);
    let query: Vec<char> = chars_of(query_lower);
    let title_hit: bool = find_chars(&title, &query).is_some();
    let body_at: Option<usize> = match find_chars(&body, &query) {
        Some(i) => {
            let offs: Vec<usize> = char_offsets(body_lower, &body);
            Some(offs[i])
        },
        None => None,
    };
    if !title_hit && body_at.is_none() {
        return None;
    }
    let word: bool = contains_word(&title, &query);
    let score_bits: u32 = score_match(title_hit, body_at, str_byte_len(doc.body.as_str()), word);
    let center: usize = match body_at {
        Some(at) => at,
        None => 0,
    };
    let hit: ShadowHit = ShadowHit {
        doc_id: doc.doc_id.clone(),
        title: doc.title.clone(),
        snippet: excerpt_of(doc.body.as_str(), center),
        score_bits,
        source: "in-memory-substring".to_owned(),
        origin_vault_key: clone_opt_text(&doc.origin_vault_key),
    };
    Some(hit)
}

/// The best of hits, no more than `limit`.
pub fn keep_best(hits: &Vec<ShadowHit>, limit: usize) -> (r: Vec<ShadowHit>)
    ensures
        hit_models(r@) == best_hits(hit_models(hits@), limit as int),
{
    let ghost models = hit_models(hits@);
    let ghost wanted = hit_candidates(models);
    let len: usize = hits.len();
    let mut cs: Vec<Candidate> = Vec::new();
    let mut i: usize = 0;
    while i < len
        invariant
            i <= len == hits@.len(),
            models == hit_models(hits@),
            wanted == hit_candidates(models),
            candidate_models(cs@) =~= wanted.take(i as int),
        decreases len - i,
    {
        let ghost before = candidate_models(cs@);
        let c: Candidate = Candidate {
            key: bits_order_key(hits[i].score_bits),
            id: hits[i].doc_id.clone(),
            index: i,
        };
        cs.push(c);
        assert(models[i as int] == hits@[i as int]@);
        assert(c@ == wanted[i as int]);
        assert(candidate_models(cs@) =~= before.push(c@));
        i += 1;
    }
    assert(wanted.take(len as int) =~= wanted);
    let order: Vec<Candidate> = rank_candidates(cs);
    proof {
        lemma_ranked_places(wanted);
    }
    let n: usize = if limit < len {
        limit
    } else {
        len
    };
    let mut out: Vec<ShadowHit> = Vec::new();
    let mut k: usize = 0;
    while k < n
        invariant
            k <= n <= len == hits@.len(),
            models == hit_models(hits@),
            wanted == hit_candidates(models),
            candidate_models(order@) == ranked(wanted),
            order@.len() == len,
            n == best_hits(models, limit as int).len(),
            forall|i: int| 0 <= i < len ==> (#[trigger] ranked(wanted)[i]).index < len,
            hit_models(out@) =~= best_hits(models, limit as int).take(k as int),
        decreases n - k,
    {
        assert(candidate_models(order@)[k as int] == order@[k as int]@);
        assert(ranked(wanted)[k as int].index < len);
        let at: usize = order[k].index;
        let ghost before = hit_models(out@);
        let h: ShadowHit = hits[at].clone();
        out.push(h);
        assert(models[at as int] == hits@[at as int]@);
        assert(hit_models(out@) =~= before.push(h@));
        k += 1;
    }
    assert(best_hits(models, limit as int).take(n as int) =~= best_hits(models, limit as int));
    out
}

/// What an engine in memory holds.
#[verifier::ext_equal]
pub struct StateModel {
    pub edition: Edition,
    pub documents: DocumentsModel,
}

/// Whether each document is kept under its own identifier, which is not empty,
/// and is of a domain that the edition takes.
pub open spec fn state_ok(s: StateModel) -> bool {
    &&& documents_ok(s.documents)
    &&& forall|i: int|
        0 <= i < s.documents.docs.len() ==> s.documents.keys[i] == (
        #[trigger] s.documents.docs[i]).doc_id && insert_error(s.edition, s.documents.docs[i])
            is None
}

/// The engine in memory.
pub struct ShadowState {
    edition: Edition,
    documents: DocumentMap,
}

impl View for ShadowState {
    type V = StateModel;

    closed spec fn view(&self) -> StateModel {
        StateModel { edition: self.edition, documents: self.documents@ }
    }
}

impl Default for ShadowState {
    /// An engine that takes notes only.
    fn default() -> (r: Self)
        ensures
            r@ == (StateModel {
                edition: Edition::FreeLexical,
                documents: DocumentsModel { keys: Seq::empty(), docs: Seq::empty() },
            }),
    {
        ShadowState::new(Edition::FreeLexical)
    }
}

impl ShadowState {
    #[verifier::type_invariant]
    closed spec fn inv(self) -> bool {
        state_ok(self@)
    }

    /// An engine without documents.
    pub fn new(edition: Edition) -> (r: Self)
        ensures
            r@ == (StateModel {
                edition,
                documents: DocumentsModel { keys: Seq::empty(), docs: Seq::empty() },
            }),
    {
        ShadowState { edition, documents: DocumentMap::new() }
    }

    /// Inserts or replaces a document.
    pub fn insert_document(&mut self, doc: ShadowDocument) -> (r: Result<(), ShadowError>)
        ensures
            final(self)@.edition == old(self)@.edition,
            state_ok(final(self)@),
            match r {
                Ok(()) => insert_error(old(self)@.edition, doc@) is None && final(self)@.documents
                    == with_document(old(self)@.documents, doc@.doc_id, doc@),
                Err(e) => insert_error(old(self)@.edition, doc@) == Some(e@) && final(self)@
                    == old(self)@,
            },
    {
        proof {
            use_type_invariant(&*self);
        }
        if str_byte_len(doc.doc_id.as_str()) == 0 {
            proof {
                crate::text::lemma_byte_off_mono(doc.doc_id@, 0, doc.doc_id@.len() as int);
            }
            return Err(ShadowError::InvalidInput { detail: "doc_id was empty".to_owned() });
        }
        if !accepts_domain(self.edition, doc.domain.as_str()) {
            let start: String = concat2("unsupported domain '", doc.domain.as_str());
            return Err(ShadowError::InvalidInput { detail: concat2(start.as_str(), "'") });
        }
        let ghost before = self@;
        let key: String = doc.doc_id.clone();
        let edition: Edition = self.edition;
        let mut taken: ShadowState = ShadowState::new(edition);
        std::mem::swap(&mut taken, self);
        let ShadowState { edition: _, documents: mut documents } = taken;
        let ghost model = doc@;
        documents.put(key.as_str(), doc);
        proof {
            lemma_insert_keeps(before, model);
        }
        *self = ShadowState { edition, documents };
        Ok(())
    }

    /// Takes a document out.
    pub fn remove_document(&mut self, doc_id: &str) -> (r: Result<(), ShadowError>)
        ensures
            final(self)@.edition == old(self)@.edition,
            state_ok(final(self)@),
            match r {
                Ok(()) => document_at(old(self)@.documents, doc_id@) is Some
                    && final(self)@.documents == without_document(
                    old(self)@.documents,
                    doc_id@,
                ),
                Err(e) => document_at(old(self)@.documents, doc_id@) is None && e@ == (
                ErrorModel::NotFound { doc_id: doc_id@ }) && final(self)@ == old(self)@,
            },
    {
        proof {
            use_type_invariant(&*self);
            lemma_remove_keeps(self@, doc_id@);
        }
        let edition: Edition = self.edition;
        let mut taken: ShadowState = ShadowState::new(edition);
        std::mem::swap(&mut taken, self);
        let ShadowState { edition: _, documents: mut documents } = taken;
        let removed: Option<ShadowDocument> = documents.remove(doc_id);
        *self = ShadowState { edition, documents };
        match removed {
            Some(_) => Ok(()),
            None => Err(ShadowError::NotFound { doc_id: doc_id.to_owned() }),
        }
    }

    /// The documents of a domain that hold the query in their title or body,
    /// whatever the case of letters, the best first.
    pub fn search(&self, query: &str, domain: &str, limit: usize) -> (r: Result<
        Vec<ShadowHit>,
        ShadowError,
    >)
        ensures
            state_ok(self@),
            match r {
                Ok(hits) => domain_accepted(self@.edition, domain@) && hit_models(hits@) == if trim(
                    lowercase(query@),
                ).len() == 0 {
                    Seq::empty()
                } else {
                    best_hits(
                        hits_among(self@.documents.docs, domain@, lowercase(query@)),
                        limit as int,
                    )
                },
                Err(e) => !domain_accepted(self@.edition, domain@) && e@ == (
                ErrorModel::InvalidInput {
                    detail: "unsupported search domain '"@ + domain@ + "'"@,
                }),
            },
    {
        proof {
            use_type_invariant(self);
        }
        if !accepts_domain(self.edition, domain) {
            let start: String = concat2("unsupported search domain '", domain);
            return Err(ShadowError::InvalidInput { detail: concat2(start.as_str(), "'") });
        }
        let query_lower: String = lower_text(query);
        let chars: Vec<char> = chars_of(query_lower.as_str());
        let (lo, hi) = trim_range(&chars, 0, chars.len());
        if lo == hi {
            let none: Vec<ShadowHit> = Vec::new();
            assert(hit_models(none@) =~= Seq::empty());
            return Ok(none);
        }
        let ghost docs = self@.documents.docs;
        let len: usize = self.documents.len();
        let mut hits: Vec<ShadowHit> = Vec::new();
        let mut i: usize = 0;
        assert(docs.take(0) =~= Seq::empty());
        assert(hit_models(hits@) =~= Seq::empty());
        while i < len
            invariant
                i <= len == docs.len(),
                docs == self@.documents.docs,
                docs == self.documents@.docs,
                query_lower@ == lowercase(query@),
                hit_models(hits@) == hits_among(docs.take(i as int), domain@, query_lower@),
            decreases len - i,
        {
            proof {
                assert(docs.take(i + 1).drop_last() =~= docs.take(i as int));
                assert(docs.take(i + 1).last() == docs[i as int]);
            }
            let doc: &ShadowDocument = self.documents.document(i);
            if text_eq(doc.domain.as_str(), domain) {
                let title_lower: String = lower_text(doc.title.as_str());
                let body_lower: String = lower_text(doc.body.as_str());
                let found: Option<ShadowHit> = match_document(
                    doc,
                    title_lower.as_str(),
                    body_lower.as_str(),
                    query_lower.as_str(),
                );
                if let Some(hit) = found {
                    let ghost before = hit_models(hits@);
                    hits.push(hit);
                    assert(hit_models(hits@) =~= before.push(hit@));
                }
            }
            i += 1;
        }
        assert(docs.take(docs.len() as int) =~= docs);
        Ok(keep_best(&hits, limit))
    }

    /// The statistics, with the time since the last flush as the caller
    /// measured it.
    pub fn stats(&self, last_flush_ms_ago: u64) -> (r: Result<ShadowStats, ShadowError>)
        ensures
            r is Ok,
            r->Ok_0 == stats_of(self@.documents.docs, last_flush_ms_ago),
            r->Ok_0.note_count + r->Ok_0.chat_count == self@.documents.docs.len(),
    {
        proof {
            use_type_invariant(self);
            lemma_domains_add_up(self@);
        }
        Ok(document_stats(&self.documents, last_flush_ms_ago))
    }
}

proof fn lemma_insert_keeps(s: StateModel, d: DocumentModel)
    requires
        state_ok(s),
        insert_error(s.edition, d) is None,
    ensures
        state_ok(
            StateModel {
                edition: s.edition,
                documents: with_document(s.documents, d.doc_id, d),
            },
        ),
{
    super::documents::law_put_then_get(s.documents, d.doc_id, d, d.doc_id);
    crate::keys::lemma_place(s.documents.keys, d.doc_id);
    let at = crate::keys::place(s.documents.keys, d.doc_id);
    let n = with_document(s.documents, d.doc_id, d);
    assert forall|i: int| 0 <= i < n.docs.len() implies n.keys[i] == (#[trigger] n.docs[i]).doc_id
        && insert_error(s.edition, n.docs[i]) is None by {
        if crate::keys::has_key(s.documents.keys, d.doc_id) {
            if i != at {
                assert(n.docs[i] == s.documents.docs[i]);
            }
        } else if i < at {
            assert(n.docs[i] == s.documents.docs[i]);
        } else if i > at {
            assert(n.docs[i] == s.documents.docs[i - 1]);
        }
    }
}

proof fn lemma_remove_keeps(s: StateModel, key: Seq<char>)
    requires
        state_ok(s),
    ensures
        state_ok(
            StateModel { edition: s.edition, documents: without_document(s.documents, key) },
        ),
{
    super::documents::law_removed_key_is_gone(s.documents, key, key);
    crate::keys::lemma_place(s.documents.keys, key);
    let at = crate::keys::place(s.documents.keys, key);
    let n = without_document(s.documents, key);
    assert forall|i: int| 0 <= i < n.docs.len() implies n.keys[i] == (#[trigger] n.docs[i]).doc_id
        && insert_error(s.edition, n.docs[i]) is None by {
        if crate::keys::has_key(s.documents.keys, key) && i >= at {
            assert(n.docs[i] == s.documents.docs[i + 1]);
        } else {
            assert(n.docs[i] == s.documents.docs[i]);
        }
    }
}

proof fn lemma_domain_counts(docs: Seq<DocumentModel>, edition: Edition)
    requires
        forall|i: int|
            0 <= i < docs.len() ==> insert_error(edition, #[trigger] docs[i]) is None,
    ensures
        count_domain(docs, "note"@) + count_domain(docs, "chat"@) == docs.len(),
    decreases docs.len(),
{
    reveal_strlit("note");
    reveal_strlit("chat");
    assert("note"@[0] != "chat"@[0]);
    if docs.len() > 0 {
        let front = docs.drop_last();
        assert forall|i: int| 0 <= i < front.len() implies insert_error(
            edition,
            #[trigger] front[i],
        ) is None by {
            assert(front[i] == docs[i]);
        }
        lemma_domain_counts(front, edition);
        assert(insert_error(edition, docs[docs.len() - 1]) is None);
    }
}

proof fn lemma_domains_add_up(s: StateModel)
    requires
        state_ok(s),
    ensures
        count_domain(s.documents.docs, "note"@) + count_domain(s.documents.docs, "chat"@)
            == s.documents.docs.len(),
{
    assert forall|i: int| 0 <= i < s.documents.docs.len() implies insert_error(
        s.edition,
        #[trigger] s.documents.docs[i],
    ) is None by {
        assert(s.documents.keys[i] == s.documents.docs[i].doc_id);
    }
    lemma_domain_counts(s.documents.docs, s.edition);
}

proof fn lemma_count_bound(docs: Seq<DocumentModel>, domain: Seq<char>)
    ensures
        count_domain(docs, domain) <= docs.len(),
    decreases docs.len(),
{
    if docs.len() > 0 {
        lemma_count_bound(docs.drop_last(), domain);
    }
}

fn add_up_to_most(a: u64, b: usize) -> (r: u64)
    ensures
        r == if a + b <= u64::MAX {
            a + b
        } else {
            u64::MAX as int
        },
{
    match a.checked_add(b as u64) {
        Some(n) => n,
        None => u64::MAX,
    }
}

/// The statistics of a map of documents.
pub fn document_stats(documents: &DocumentMap, last_flush_ms_ago: u64) -> (r: ShadowStats)
    ensures
        r == stats_of(documents@.docs, last_flush_ms_ago),
        r.note_count == count_domain(documents@.docs, "note"@),
        r.chat_count == count_domain(documents@.docs, "chat"@),
{
    let ghost docs = documents@.docs;
    let len: usize = documents.len();
    let mut note_count: u64 = 0;
    let mut chat_count: u64 = 0;
    let mut bytes: u64 = 0;
    let mut i: usize = 0;
    assert(docs.take(0) =~= Seq::empty());
    while i < len
        invariant
            i <= len == docs.len(),
            docs == documents@.docs,
            note_count == count_domain(docs.take(i as int), "note"@),
            chat_count == count_domain(docs.take(i as int), "chat"@),
            bytes == if text_bytes(docs.take(i as int)) <= u64::MAX {
                text_bytes(docs.take(i as int)) as int
            } else {
                u64::MAX as int
            },
        decreases len - i,
    {
        let ghost next = docs.take(i + 1);
        proof {
            assert(next.drop_last() =~= docs.take(i as int));
            assert(next.last() == docs[i as int]);
            lemma_count_bound(next, "note"@);
            lemma_count_bound(next, "chat"@);
        }
        let doc: &ShadowDocument = documents.document(i);
        bytes = add_up_to_most(bytes, str_byte_len(doc.title.as_str()));
        bytes = add_up_to_most(bytes, str_byte_len(doc.body.as_str()));
        if text_eq(doc.domain.as_str(), "note") {
            note_count += 1;
        }
        if text_eq(doc.domain.as_str(), "chat") {
            chat_count += 1;
        }
        i += 1;
    }
    assert(docs.take(docs.len() as int) =~= docs);
    ShadowStats { note_count, chat_count, index_size_bytes: bytes, last_flush_ms_ago }
}

} // verus!
