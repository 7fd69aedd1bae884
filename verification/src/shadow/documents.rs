//! Documents, and maps from identifiers to documents.

use vstd::prelude::*;

use crate::keys::{
    ascending, find_text, has_key, lemma_has_key, lemma_place, lemma_with_key, lemma_without_place,
    place, string_views, with_key,
};
use crate::text::{clone_opt_text, opt_text};

verus! {

/// A document of the index.
#[derive(Debug, PartialEq, Eq)]
pub struct ShadowDocument {
    pub doc_id: String,
    pub title: String,
    pub body: String,
    /// The kind of document: `note` or `chat`.
    pub domain: String,
    /// The vault that the document came from, if it is known.
    pub origin_vault_key: Option<String>,
}

/// A document with its texts as characters.
#[verifier::ext_equal]
pub struct DocumentModel {
    pub doc_id: Seq<char>,
    pub title: Seq<char>,
    pub body: Seq<char>,
    pub domain: Seq<char>,
    pub origin_vault_key: Option<Seq<char>>,
}

impl View for ShadowDocument {
    type V = DocumentModel;

    open spec fn view(&self) -> DocumentModel {
        DocumentModel {
            doc_id: self.doc_id@,
            title: self.title@,
            body: self.body@,
            domain: self.domain@,
            origin_vault_key: opt_text(self.origin_vault_key),
        }
    }
}

impl Clone for ShadowDocument {
    fn clone(&self) -> (r: Self)
        ensures
            r@ == self@,
    {
        ShadowDocument {
            doc_id: self.doc_id.clone(),
            title: self.title.clone(),
            body: self.body.clone(),
            domain: self.domain.clone(),
            origin_vault_key: clone_opt_text(&self.origin_vault_key),
        }
    }
}

/// A document that a search found.
#[derive(Debug, PartialEq, Eq)]
pub struct ShadowHit {
    pub doc_id: String,
    pub title: String,
    pub snippet: String,
    /// The score, as the bits of a single-precision number.
    pub score_bits: u32,
    /// The channel, or the fusion of channels, that found it.
    pub source: String,
    pub origin_vault_key: Option<String>,
}

/// A hit with its texts as characters.
#[verifier::ext_equal]
pub struct ShadowHitModel {
    pub doc_id: Seq<char>,
    pub title: Seq<char>,
    pub snippet: Seq<char>,
    pub score_bits: u32,
    pub source: Seq<char>,
    pub origin_vault_key: Option<Seq<char>>,
}

impl View for ShadowHit {
    type V = ShadowHitModel;

    open spec fn view(&self) -> ShadowHitModel {
        ShadowHitModel {
            doc_id: self.doc_id@,
            title: self.title@,
            snippet: self.snippet@,
            score_bits: self.score_bits,
            source: self.source@,
            origin_vault_key: opt_text(self.origin_vault_key),
        }
    }
}

impl Clone for ShadowHit {
    fn clone(&self) -> (r: Self)
        ensures
            r@ == self@,
    {
        ShadowHit {
            doc_id: self.doc_id.clone(),
            title: self.title.clone(),
            snippet: self.snippet.clone(),
            score_bits: self.score_bits,
            source: self.source.clone(),
            origin_vault_key: clone_opt_text(&self.origin_vault_key),
        }
    }
}

pub open spec fn hit_models(v: Seq<ShadowHit>) -> Seq<ShadowHitModel> {
    v.map_values(|h: ShadowHit| h@)
}

pub open spec fn document_models(v: Seq<ShadowDocument>) -> Seq<DocumentModel> {
    v.map_values(|d: ShadowDocument| d@)
}

/// What a map of documents holds: keys in ascending order and, at the same
/// places, the documents.
#[verifier::ext_equal]
pub struct DocumentsModel {
    pub keys: Seq<Seq<char>>,
    pub docs: Seq<DocumentModel>,
}

/// The document that a key leads to.
pub open spec fn document_at(m: DocumentsModel, key: Seq<char>) -> Option<DocumentModel> {
    if has_key(m.keys, key) {
        Some(m.docs[place(m.keys, key)])
    } else {
        None
    }
}

/// The map with a key that leads to a document.
pub open spec fn with_document(
    m: DocumentsModel,
    key: Seq<char>,
    d: DocumentModel,
) -> DocumentsModel {
    let at = place(m.keys, key);
    if has_key(m.keys, key) {
        DocumentsModel { keys: m.keys, docs: m.docs.update(at, d) }
    } else {
        DocumentsModel { keys: m.keys.insert(at, key), docs: m.docs.insert(at, d) }
    }
}

/// The map without a key.
pub open spec fn without_document(m: DocumentsModel, key: Seq<char>) -> DocumentsModel {
    let at = place(m.keys, key);
    if has_key(m.keys, key) {
        DocumentsModel { keys: m.keys.remove(at), docs: m.docs.remove(at) }
    } else {
        m
    }
}

/// Ascending keys, one for each document.
pub open spec fn documents_ok(m: DocumentsModel) -> bool {
    ascending(m.keys) && m.keys.len() == m.docs.len()
}

/// A map from identifiers to documents.
pub struct DocumentMap {
    keys: Vec<String>,
    docs: Vec<ShadowDocument>,
}

impl View for DocumentMap {
    type V = DocumentsModel;

    closed spec fn view(&self) -> DocumentsModel {
        DocumentsModel { keys: string_views(self.keys@), docs: document_models(self.docs@) }
    }
}

impl DocumentMap {
    #[verifier::type_invariant]
    closed spec fn inv(self) -> bool {
        documents_ok(self@)
    }

    pub fn new() -> (r: Self)
        ensures
            r@ == (DocumentsModel { keys: Seq::empty(), docs: Seq::empty() }),
    {
        let r: DocumentMap = DocumentMap { keys: Vec::new(), docs: Vec::new() };
        assert(string_views(r.keys@) =~= Seq::empty());
        assert(document_models(r.docs@) =~= Seq::empty());
        r
    }

    pub fn len(&self) -> (r: usize)
        ensures
            r == self@.docs.len(),
            documents_ok(self@),
    {
        proof {
            use_type_invariant(self);
        }
        self.docs.len()
    }

    /// The key at a place.
    pub fn key(&self, i: usize) -> (r: &String)
        requires
            i < self@.keys.len(),
        ensures
            r@ == self@.keys[i as int],
    {
        &self.keys[i]
    }

    /// The document at a place.
    pub fn document(&self, i: usize) -> (r: &ShadowDocument)
        requires
            i < self@.docs.len(),
        ensures
            r@ == self@.docs[i as int],
    {
        &self.docs[i]
    }

    /// The place of a key, if it is there.
    pub fn find(&self, key: &str) -> (r: Option<usize>)
        ensures
            match r {
                Some(i) => has_key(self@.keys, key@) && i == place(self@.keys, key@) && i
                    < self@.docs.len(),
                None => !has_key(self@.keys, key@),
            },
    {
        proof {
            use_type_invariant(self);
        }
        let at: usize = find_text(&self.keys, key);
        if at < self.keys.len() {
            assert(self@.keys[at as int] == self.keys@[at as int]@);
            if crate::text::text_eq(self.keys[at].as_str(), key) {
                return Some(at);
            }
        }
        None
    }

    /// The document that a key leads to.
    pub fn get(&self, key: &str) -> (r: Option<&ShadowDocument>)
        ensures
            match r {
                Some(d) => document_at(self@, key@) == Some(d@),
                None => document_at(self@, key@) is None,
            },
    {
        match self.find(key) {
            Some(i) => Some(&self.docs[i]),
            None => None,
        }
    }

    /// Lets a key lead to a document, in place of what it led to before.
    pub fn put(&mut self, key: &str, doc: ShadowDocument)
        ensures
            final(self)@ == with_document(old(self)@, key@, doc@),
    {
        proof {
            use_type_invariant(&*self);
            lemma_place(self@.keys, key@);
            lemma_with_key(self@.keys, key@);
        }
        let ghost before = self@;
        let found: Option<usize> = self.find(key);
        let at: usize = find_text(&self.keys, key);
        let mut taken: DocumentMap = DocumentMap::new();
        std::mem::swap(&mut taken, self);
        let DocumentMap { keys: mut keys, docs: mut docs } = taken;
        if found.is_some() {
            docs[at] = doc;
        } else {
            keys.insert(at, key.to_owned());
            docs.insert(at, doc);
        }
        assert(string_views(keys@) =~= with_document(before, key@, doc@).keys);
        assert(document_models(docs@) =~= with_document(before, key@, doc@).docs);
        *self = DocumentMap { keys, docs };
    }

    /// Takes a key out; hands out the document that it led to.
    pub fn remove(&mut self, key: &str) -> (r: Option<ShadowDocument>)
        ensures
            final(self)@ == without_document(old(self)@, key@),
            match r {
                Some(d) => document_at(old(self)@, key@) == Some(d@),
                None => document_at(old(self)@, key@) is None,
            },
    {
        proof {
            use_type_invariant(&*self);
            lemma_place(self@.keys, key@);
        }
        let ghost before = self@;
        match self.find(key) {
            None => None,
            Some(at) => {
                proof {
                    lemma_without_place(before.keys, key@);
                }
                let mut taken: DocumentMap = DocumentMap::new();
                std::mem::swap(&mut taken, self);
                let DocumentMap { keys: mut keys, docs: mut docs } = taken;
                let _ = keys.remove(at);
                let doc: ShadowDocument = docs.remove(at);
                assert(string_views(keys@) =~= without_document(before, key@).keys);
                assert(document_models(docs@) =~= without_document(before, key@).docs);
                *self = DocumentMap { keys, docs };
                Some(doc)
            },
        }
    }
}

/// What leads from a key after a document was put: to the document from its
/// key, to what was there before from every other.
pub proof fn law_put_then_get(m: DocumentsModel, key: Seq<char>, d: DocumentModel, other: Seq<char>)
    requires
        documents_ok(m),
    ensures
        documents_ok(with_document(m, key, d)),
        document_at(with_document(m, key, d), key) == Some(d),
        other != key ==> document_at(with_document(m, key, d), other) == document_at(m, other),
{
    let n = with_document(m, key, d);
    let at = place(m.keys, key);
    lemma_place(m.keys, key);
    lemma_with_key(m.keys, key);
    assert(n.keys == with_key(m.keys, key));
    lemma_has_key(n.keys, key);
    lemma_has_key(n.keys, other);
    lemma_has_key(m.keys, other);
    assert(n.keys.contains(key));
    assert(n.keys[at] == key);
    if other != key && m.keys.contains(other) {
        let i = place(m.keys, other);
        if has_key(m.keys, key) {
            assert(n.keys[i] == other);
        } else if i < at {
            assert(n.keys[i] == other);
        } else {
            assert(n.keys[i + 1] == other);
        }
    }
}

/// After a key was taken out it leads nowhere, and every other key leads where
/// it led.
pub proof fn law_removed_key_is_gone(m: DocumentsModel, key: Seq<char>, other: Seq<char>)
    requires
        documents_ok(m),
    ensures
        documents_ok(without_document(m, key)),
        document_at(without_document(m, key), key) is None,
        other != key ==> document_at(without_document(m, key), other) == document_at(m, other),
{
    let n = without_document(m, key);
    let at = place(m.keys, key);
    lemma_place(m.keys, key);
    if has_key(m.keys, key) {
        lemma_without_place(m.keys, key);
    }
    lemma_has_key(m.keys, key);
    lemma_has_key(n.keys, key);
    lemma_has_key(n.keys, other);
    lemma_has_key(m.keys, other);
    if other != key && m.keys.contains(other) && has_key(m.keys, key) {
        let i = place(m.keys, other);
        if i < at {
            assert(n.keys[i] == other);
        } else {
            assert(n.keys[i - 1] == other);
        }
    }
}

/// Putting the same document twice is putting it once, and taking out what was
/// put for a new key gives the map back.
pub proof fn law_put_is_idempotent_and_undone(m: DocumentsModel, key: Seq<char>, d: DocumentModel)
    requires
        documents_ok(m),
    ensures
        with_document(with_document(m, key, d), key, d) == with_document(m, key, d),
        document_at(m, key) is None ==> without_document(with_document(m, key, d), key) == m,
{
    let n = with_document(m, key, d);
    let at = place(m.keys, key);
    lemma_place(m.keys, key);
    law_put_then_get(m, key, d, key);
    lemma_has_key(n.keys, key);
    assert(n.keys[at] == key);
    assert(with_document(n, key, d).docs =~= n.docs);
    if !has_key(m.keys, key) {
        assert(without_document(n, key).keys =~= m.keys);
        assert(without_document(n, key).docs =~= m.docs);
    }
}

} // verus!
