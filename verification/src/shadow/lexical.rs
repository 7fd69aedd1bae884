//! The full-text index: documents under fields, found by the terms of a query
//! and by their domain.

use tantivy::collector::TopDocs;
use tantivy::directory::{MmapDirectory, RamDirectory};
use tantivy::query::{AllQuery, BooleanQuery, Query, QueryParser, TermQuery};
use tantivy::schema::{Field, IndexRecordOption, Schema, Value, STORED, STRING, TEXT};
use tantivy::{
    DocAddress, Index, IndexReader, IndexWriter, ReloadPolicy, TantivyDocument, TantivyError, Term,
};
use vstd::multiset::Multiset;
use vstd::prelude::*;

use super::documents::{DocumentModel, ShadowDocument};
use super::error::{ErrorModel, ShadowError};
use super::matching::lowercase;
use super::nesting::{depths, held, is_followed, is_shallow, negated, shallow, Depths};
use super::tokens::{query_words, runs};
use crate::bits::less_bits;
use crate::keys::string_views;
use crate::text::{
    ascii_lowercase, byte_len, chars_of, concat2, str_byte_len, trim, trim_range,
};
use crate::words::words;

verus! {

/// The memory that the writer of an index may use, in bytes.
pub const WRITER_HEAP_BYTES: usize = 15_000_000;

/// The most hits that can be asked for.
pub const MAX_LEXICAL_HITS: usize = usize::MAX / 64;

/// The most documents that are listed.
pub const MAX_LISTED_DOCUMENTS: u64 = 1_000_000;

/// The greatest length of an identifier, in bytes, by which a document can be
/// found again.
pub const MAX_TERM_BYTES: usize = 65_530;

/// The length, in bytes, from which a word of a title or a body is left out.
pub const LONG_WORD_BYTES: usize = 40;

#[verifier::external_type_specification]
#[verifier::external_body]
pub struct ExTantivyError(TantivyError);

#[verifier::external_type_specification]
#[verifier::external_body]
pub struct ExMmapDirectory(MmapDirectory);

#[verifier::external_type_specification]
#[verifier::external_body]
pub struct ExIndex(Index);

#[verifier::external_type_specification]
#[verifier::external_body]
pub struct ExIndexReader(IndexReader);

/// A Tantivy index with its reader, its writer and the four fields of a
/// document.
#[verifier::external_body]
pub struct LexicalCore {
    index: Index,
    reader: IndexReader,
    writer: IndexWriter,
    doc_id: Field,
    domain: Field,
    title: Field,
    body: Field,
}

/// The documents of an index, as of its last commit: the texts of the fields
/// `doc_id`, `domain`, `title` and `body`.
pub uninterp spec fn stored_docs(index: Index) -> Multiset<
    (Seq<char>, Seq<char>, Seq<char>, Seq<char>),
>;

/// The documents that a reader has loaded.
pub uninterp spec fn loaded_docs(reader: IndexReader) -> Multiset<
    (Seq<char>, Seq<char>, Seq<char>, Seq<char>),
>;

/// The documents that a successful commit would leave.
pub uninterp spec fn staged_docs(core: LexicalCore) -> Multiset<
    (Seq<char>, Seq<char>, Seq<char>, Seq<char>),
>;

/// The documents as of the last commit.
pub uninterp spec fn committed_docs(core: LexicalCore) -> Multiset<
    (Seq<char>, Seq<char>, Seq<char>, Seq<char>),
>;

/// The documents that searches see.
pub uninterp spec fn visible_docs(core: LexicalCore) -> Multiset<
    (Seq<char>, Seq<char>, Seq<char>, Seq<char>),
>;

/// The documents that searches see, each under its place: the number of its
/// segment, and its number there.
pub uninterp spec fn placed_docs(core: LexicalCore) -> Map<
    (u32, u32),
    (Seq<char>, Seq<char>, Seq<char>, Seq<char>),
>;

/// Whether the analyzer `default` of Tantivy makes a word of a text: the runs of
/// letters and numbers, but for long ones, in lower case.
pub uninterp spec fn has_term(text: Seq<char>, word: Seq<char>) -> bool;

/// Whether `QueryParser::parse_query` can parse a query for documents, with
/// title and body as the fields to look in.
pub uninterp spec fn parses(query: Seq<char>) -> bool;

/// Whether a document meets what `QueryParser::parse_query` makes of a query.
pub uninterp spec fn meets_query(
    query: Seq<char>,
    d: (Seq<char>, Seq<char>, Seq<char>, Seq<char>),
) -> bool;

/// A document as the index stores it.
pub open spec fn stored(d: DocumentModel) -> (Seq<char>, Seq<char>, Seq<char>, Seq<char>) {
    (d.doc_id, d.domain, d.title, d.body)
}

/// The stored documents without those of an identifier.
pub open spec fn without_id(
    docs: Multiset<(Seq<char>, Seq<char>, Seq<char>, Seq<char>)>,
    id: Seq<char>,
) -> Multiset<(Seq<char>, Seq<char>, Seq<char>, Seq<char>)> {
    docs.filter(|d: (Seq<char>, Seq<char>, Seq<char>, Seq<char>)| d.0 != id)
}

/// Whether a document can be found again by its identifier.
pub open spec fn is_term(id: Seq<char>) -> bool {
    0 < byte_len(id) <= MAX_TERM_BYTES
}

/// A document that a search found, with the bits of its score.
#[derive(Debug, PartialEq, Eq)]
pub struct LexicalHit {
    pub doc_id: String,
    pub title: String,
    pub body: String,
    pub score_bits: u32,
}

#[verifier::ext_equal]
pub struct LexicalModel {
    pub doc_id: Seq<char>,
    pub title: Seq<char>,
    pub body: Seq<char>,
    pub score_bits: u32,
}

impl View for LexicalHit {
    type V = LexicalModel;

    open spec fn view(&self) -> LexicalModel {
        LexicalModel {
            doc_id: self.doc_id@,
            title: self.title@,
            body: self.body@,
            score_bits: self.score_bits,
        }
    }
}

pub open spec fn lexical_models(v: Seq<LexicalHit>) -> Seq<LexicalModel> {
    v.map_values(|h: LexicalHit| h@)
}

/// The stored documents of hits of a domain.
pub open spec fn found_docs(hits: Seq<LexicalModel>, domain: Seq<char>) -> Seq<
    (Seq<char>, Seq<char>, Seq<char>, Seq<char>),
> {
    hits.map_values(|h: LexicalModel| (h.doc_id, domain, h.title, h.body))
}

/// Whether hits are some of the documents of a domain, each no more often than
/// it is stored, no more than `limit`, and none better than one before it.
pub open spec fn are_hits(
    hits: Seq<LexicalModel>,
    docs: Multiset<(Seq<char>, Seq<char>, Seq<char>, Seq<char>)>,
    domain: Seq<char>,
    limit: nat,
) -> bool {
    &&& hits.len() <= limit
    &&& found_docs(hits, domain).to_multiset().subset_of(docs)
    &&& forall|i: int, j: int|
        0 <= i < j < hits.len() ==> !less_bits(
            (#[trigger] hits[i]).score_bits,
            (#[trigger] hits[j]).score_bits,
        )
}

/// Whether a character is a letter or a digit of ASCII.
pub open spec fn is_ascii_word_char(c: char) -> bool {
    'a' <= c <= 'z' || 'A' <= c <= 'Z' || '0' <= c <= '9'
}

pub open spec fn is_ascii(s: Seq<char>) -> bool {
    forall|i: int| 0 <= i < s.len() ==> #[trigger] (s[i] as u32) < 128
}

/// Whether letters and digits stand from `i` to before `j`, and none on either
/// side.
pub open spec fn is_ascii_run(s: Seq<char>, i: int, j: int) -> bool {
    &&& 0 <= i < j <= s.len()
    &&& forall|k: int| i <= k < j ==> is_ascii_word_char(#[trigger] s[k])
    &&& i > 0 ==> !is_ascii_word_char(s[i - 1])
    &&& j < s.len() ==> !is_ascii_word_char(s[j])
}

/// Whether a text has a word. In a text of ASCII the words are the runs of
/// letters and digits in lower case, but for long ones.
pub open spec fn holds_word(text: Seq<char>, word: Seq<char>) -> bool {
    if is_ascii(text) {
        exists|i: int, j: int| #[trigger]
            is_ascii_run(text, i, j) && j - i < LONG_WORD_BYTES && ascii_lowercase(
                text.subrange(i, j),
            ) == word
    } else {
        has_term(text, word)
    }
}

/// Whether a query is made of words alone: small letters, digits and spaces,
/// without a long word.
pub open spec fn is_plain(query: Seq<char>) -> bool {
    &&& forall|i: int|
        0 <= i < query.len() ==> ('a' <= #[trigger] query[i] <= 'z' || '0' <= query[i] <= '9'
            || query[i] == ' ')
    &&& forall|k: int|
        0 <= k < words(query).len() ==> (#[trigger] words(query)[k]).len() < LONG_WORD_BYTES
}

/// Whether title or body of a document has one of these words.
pub open spec fn has_any(
    d: (Seq<char>, Seq<char>, Seq<char>, Seq<char>),
    terms: Seq<Seq<char>>,
) -> bool {
    exists|k: int|
        0 <= k < terms.len() && (holds_word(d.2, #[trigger] terms[k]) || holds_word(d.3, terms[k]))
}

/// Whether the body of a document has all of these words, of which there are
/// some.
pub open spec fn has_all(
    d: (Seq<char>, Seq<char>, Seq<char>, Seq<char>),
    terms: Seq<Seq<char>>,
) -> bool {
    &&& terms.len() > 0
    &&& forall|k: int| 0 <= k < terms.len() ==> holds_word(d.3, #[trigger] terms[k])
}

/// Whether a query asks for no prefix and lets no phrase be loose, so that a
/// document alone decides whether it meets the query.
pub open spec fn is_strict(query: Seq<char>) -> bool {
    !query.contains('*') && !query.contains('~')
}

/// Whether a strict query weighs no part of itself.
pub open spec fn is_unweighted(query: Seq<char>) -> bool {
    is_strict(query) && !query.contains('^')
}

proof fn lemma_plain_is_shallow(query: Seq<char>)
    requires
        is_plain(query),
    ensures
        is_shallow(query),
{
    assert forall|n: int| 0 <= n <= query.len() implies #[trigger] is_followed(query, n) by {
        lemma_plain_nests_nothing(query, n);
    }
}

proof fn lemma_plain_nests_nothing(query: Seq<char>, n: int)
    requires
        is_plain(query),
        0 <= n <= query.len(),
    ensures
        depths(query, n) == (Depths { plain: Some(0), double: None, single: None }),
        negated(query, n) == 0,
        held(query, n) == 0,
    decreases n,
{
    if n > 0 {
        lemma_plain_nests_nothing(query, n - 1);
        assert('a' <= query[n - 1] <= 'z' || '0' <= query[n - 1] <= '9' || query[n - 1] == ' ');
        if n > 1 {
            assert('a' <= query[n - 2] <= 'z' || '0' <= query[n - 2] <= '9' || query[n - 2] == ' ');
        }
    }
}

/// The documents of a domain that meet a query.
pub open spec fn meeting(query: Seq<char>, domain: Seq<char>) -> spec_fn(
    (Seq<char>, Seq<char>, Seq<char>, Seq<char>),
) -> bool {
    |d: (Seq<char>, Seq<char>, Seq<char>, Seq<char>)| d.1 == domain && meets_query(query, d)
}

/// The documents of a domain that have any of these words.
pub open spec fn having_any(terms: Seq<Seq<char>>, domain: Seq<char>) -> spec_fn(
    (Seq<char>, Seq<char>, Seq<char>, Seq<char>),
) -> bool {
    |d: (Seq<char>, Seq<char>, Seq<char>, Seq<char>)| d.1 == domain && has_any(d, terms)
}

/// The documents of a domain whose body has all of these words.
pub open spec fn having_all(terms: Seq<Seq<char>>, domain: Seq<char>) -> spec_fn(
    (Seq<char>, Seq<char>, Seq<char>, Seq<char>),
) -> bool {
    |d: (Seq<char>, Seq<char>, Seq<char>, Seq<char>)| d.1 == domain && has_all(d, terms)
}

/// What a search for a query in a domain wants. A query made of words asks for
/// any of them. One that cannot be parsed, or is nested too deep to be, asks for
/// all its letters and numbers in the body.
pub open spec fn wanted(query: Seq<char>, domain: Seq<char>) -> spec_fn(
    (Seq<char>, Seq<char>, Seq<char>, Seq<char>),
) -> bool {
    if is_plain(query) {
        having_any(words(query), domain)
    } else if is_shallow(query) && parses(query) {
        meeting(query, domain)
    } else {
        having_all(runs(lowercase(query), 0), domain)
    }
}

/// Whether found documents are all wanted.
pub open spec fn are_all_wanted(
    found: Seq<(Seq<char>, Seq<char>, Seq<char>, Seq<char>)>,
    want: spec_fn((Seq<char>, Seq<char>, Seq<char>, Seq<char>)) -> bool,
) -> bool {
    forall|i: int| 0 <= i < found.len() ==> want(#[trigger] found[i])
}

/// Whether found documents are all wanted and, where they are fewer than
/// `limit`, all that are wanted.
pub open spec fn are_wanted(
    found: Seq<(Seq<char>, Seq<char>, Seq<char>, Seq<char>)>,
    docs: Multiset<(Seq<char>, Seq<char>, Seq<char>, Seq<char>)>,
    limit: nat,
    want: spec_fn((Seq<char>, Seq<char>, Seq<char>, Seq<char>)) -> bool,
) -> bool {
    &&& are_all_wanted(found, want)
    &&& found.len() < limit ==> found.to_multiset() == docs.filter(want)
}

/// Whether a query finds nothing but what it wants: it is strict, or asks for
/// its words.
pub open spec fn finds_only_wanted(query: Seq<char>) -> bool {
    is_strict(query) || !(is_shallow(query) && parses(query))
}

/// Whether a query finds all that it wants below the limit: it is unweighted, or
/// asks for its words.
pub open spec fn finds_all_wanted(query: Seq<char>) -> bool {
    is_unweighted(query) || !(is_shallow(query) && parses(query))
}

/// Whether hits are an answer to a query in a domain: where the domain can be a
/// term, those that are wanted, as far as the query finds nothing else, and finds
/// all of them.
pub open spec fn is_answer(
    hits: Seq<LexicalModel>,
    docs: Multiset<(Seq<char>, Seq<char>, Seq<char>, Seq<char>)>,
    query: Seq<char>,
    domain: Seq<char>,
    limit: nat,
) -> bool {
    &&& are_hits(hits, docs, domain, limit)
    &&& finds_only_wanted(query) && is_term(domain) ==> are_all_wanted(
        found_docs(hits, domain),
        wanted(query, domain),
    )
    &&& finds_all_wanted(query) && is_term(domain) ==> are_wanted(
        found_docs(hits, domain),
        docs,
        limit,
        wanted(query, domain),
    )
}

/// The text of an error of Tantivy, as its `Display` writes it. Nothing is
/// claimed of it.
#[verifier::external_body]
fn error_text(error: &TantivyError) -> (r: String)
{
    format!("{error}")
}

/// `Index::open_or_create` on a new `RamDirectory`, with the schema of four
/// stored text fields, of which `doc_id` and `domain` are single terms and
/// `title` and `body` are cut into words. A new index holds no document.
#[verifier::external_body]
fn create_in_memory() -> (r: Result<Index, TantivyError>)
    ensures
        r is Ok ==> stored_docs(r->Ok_0).len() == 0,
{
    let mut builder = Schema::builder();
    builder.add_text_field("doc_id", STRING | STORED);
    builder.add_text_field("domain", STRING | STORED);
    builder.add_text_field("title", TEXT | STORED);
    builder.add_text_field("body", TEXT | STORED);
    Index::open_or_create(RamDirectory::create(), builder.build())
}

/// `Index::open_or_create` on an `MmapDirectory`, with the same schema: an index
/// with another schema is an error. The directory is one that an index of this
/// kind writes to, and no other program. Nothing is claimed of what it holds.
#[verifier::external_body]
fn open_in_directory(directory: MmapDirectory) -> (r: Result<Index, TantivyError>)
{
    let mut builder = Schema::builder();
    builder.add_text_field("doc_id", STRING | STORED);
    builder.add_text_field("domain", STRING | STORED);
    builder.add_text_field("title", TEXT | STORED);
    builder.add_text_field("body", TEXT | STORED);
    Index::open_or_create(directory, builder.build())
}

/// `IndexReaderBuilder::try_into` under the policy that a reader is reloaded
/// by hand. A new reader has loaded what the last commit left.
#[verifier::external_body]
fn open_reader(index: &Index) -> (r: Result<IndexReader, TantivyError>)
    ensures
        r is Ok ==> loaded_docs(r->Ok_0) == stored_docs(*index),
{
    index.reader_builder().reload_policy(ReloadPolicy::Manual).try_into()
}

/// `Index::writer`, with the fields that `Schema::get_field` finds. A new
/// writer has nothing pending: it would leave what the last commit left. Searches
/// see what the reader has loaded.
#[verifier::external_body]
fn open_core(index: Index, reader: IndexReader) -> (r: Result<LexicalCore, TantivyError>)
    ensures
        r is Ok ==> committed_docs(r->Ok_0) == stored_docs(index),
        r is Ok ==> staged_docs(r->Ok_0) == stored_docs(index),
        r is Ok ==> visible_docs(r->Ok_0) == loaded_docs(reader),
{
    let schema = index.schema();
    let doc_id = schema.get_field("doc_id")?;
    let domain = schema.get_field("domain")?;
    let title = schema.get_field("title")?;
    let body = schema.get_field("body")?;
    let writer = index.writer(WRITER_HEAP_BYTES)?;
    Ok(LexicalCore { index, reader, writer, doc_id, domain, title, body })
}

/// `IndexWriter::delete_term` with the term of an identifier. It only takes
/// documents away: all those of the identifier, where the identifier is short
/// enough to be a term. Searches see nothing of it yet.
#[verifier::external_body]
fn delete_id(core: &mut LexicalCore, doc_id: &str)
    ensures
        staged_docs(*final(core)).subset_of(staged_docs(*old(core))),
        is_term(doc_id@) ==> staged_docs(*final(core)) == without_id(
            staged_docs(*old(core)),
            doc_id@,
        ),
        committed_docs(*final(core)) == committed_docs(*old(core)),
        visible_docs(*final(core)) == visible_docs(*old(core)),
{
    core.writer.delete_term(Term::from_field_text(core.doc_id, doc_id));
}

/// `IndexWriter::add_document`. Where it succeeds, the next commit leaves the
/// document too. Searches see nothing of it yet.
#[verifier::external_body]
fn add_doc(core: &mut LexicalCore, doc: &ShadowDocument) -> (r: Result<(), TantivyError>)
    ensures
        r is Ok ==> staged_docs(*final(core)) == staged_docs(*old(core)).insert(stored(doc@)),
        committed_docs(*final(core)) == committed_docs(*old(core)),
        visible_docs(*final(core)) == visible_docs(*old(core)),
{
    let mut document = TantivyDocument::default();
    document.add_text(core.doc_id, &doc.doc_id);
    document.add_text(core.domain, &doc.domain);
    document.add_text(core.title, &doc.title);
    document.add_text(core.body, &doc.body);
    core.writer.add_document(document)?;
    Ok(())
}

/// `IndexWriter::commit`. Where it succeeds, what was pending is committed.
/// Searches see nothing of it yet.
#[verifier::external_body]
fn commit(core: &mut LexicalCore) -> (r: Result<(), TantivyError>)
    ensures
        r is Ok ==> staged_docs(*final(core)) == staged_docs(*old(core)),
        r is Ok ==> committed_docs(*final(core)) == staged_docs(*old(core)),
        visible_docs(*final(core)) == visible_docs(*old(core)),
{
    core.writer.commit()?;
    Ok(())
}

/// `IndexReader::reload`. Where it succeeds, searches see the last commit;
/// where it fails, they see what they saw.
#[verifier::external_body]
fn reload(core: &mut LexicalCore) -> (r: Result<(), TantivyError>)
    ensures
        staged_docs(*final(core)) == staged_docs(*old(core)),
        committed_docs(*final(core)) == committed_docs(*old(core)),
        visible_docs(*final(core)) == if r is Ok {
            committed_docs(*old(core))
        } else {
            visible_docs(*old(core))
        },
{
    core.reader.reload()
}

/// `Searcher::num_docs`: the number of documents that searches see.
#[verifier::external_body]
fn count_docs(core: &LexicalCore) -> (r: u64)
    ensures
        r == visible_docs(*core).len(),
{
    core.reader.searcher().num_docs()
}

/// The documents at places.
pub open spec fn docs_at(
    places: Seq<(u32, u32, u32)>,
    placed: Map<(u32, u32), (Seq<char>, Seq<char>, Seq<char>, Seq<char>)>,
) -> Seq<(Seq<char>, Seq<char>, Seq<char>, Seq<char>)> {
    places.map_values(|p: (u32, u32, u32)| placed[(p.0, p.1)])
}

/// Whether places, each with the bits of a score, are places of documents that
/// searches see, no document more often than it is stored, and none better than
/// one before it.
pub open spec fn are_places(places: Seq<(u32, u32, u32)>, core: LexicalCore) -> bool {
    &&& forall|i: int|
        0 <= i < places.len() ==> placed_docs(core).contains_key(
            ((#[trigger] places[i]).0, places[i].1),
        )
    &&& docs_at(places, placed_docs(core)).to_multiset().subset_of(visible_docs(core))
    &&& forall|i: int, j: int|
        0 <= i < j < places.len() ==> !less_bits(
            (#[trigger] places[i]).2,
            (#[trigger] places[j]).2,
        )
}

/// Whether the documents at places are all of one domain.
pub open spec fn are_of_domain(
    places: Seq<(u32, u32, u32)>,
    core: LexicalCore,
    domain: Seq<char>,
) -> bool {
    forall|i: int|
        0 <= i < places.len() ==> placed_docs(core)[((#[trigger] places[i]).0, places[i].1)].1
            == domain
}

/// `Searcher::search` with what `QueryParser::parse_query` makes of a query and
/// the term of a domain, both of which must be met; nothing where the query
/// cannot be parsed. What is found are places of documents of the domain, no
/// more than `limit`, the best first. A query made of words is always parsed and
/// asks for any of its words in title or body. Where the query is strict, what is
/// found meets it; where it is unweighted too, nothing that does is left out below
/// the limit. A weight can make a score that no limit lets through, so of a
/// weighted query it is not stated that nothing is left out. A prefix is looked up
/// in each segment on its own, and whether a loose phrase is met rests on which of
/// its words are rare in a segment: of such queries no more is stated, and of no
/// query what the scores are, which rest on how the index is cut into segments.
/// The parser calls itself at every bracket and every `NOT`, and reads what a
/// bracket holds up to twice, so the query must be shallow.
#[verifier::external_body]
fn search_parsed(core: &LexicalCore, query: &str, domain: &str, limit: usize) -> (r: Result<
    Option<Vec<(u32, u32, u32)>>,
    TantivyError,
>)
    requires
        0 < limit <= MAX_LEXICAL_HITS,
        is_shallow(query@),
    ensures
        r matches Ok(found) ==> (found is Some <==> is_plain(query@) || parses(query@)),
        r matches Ok(Some(places)) ==> are_places(places@, *core) && places@.len() <= limit
            && are_of_domain(places@, *core, domain@),
        r matches Ok(Some(places)) ==> is_plain(query@) && is_term(domain@) ==> are_wanted(
            docs_at(places@, placed_docs(*core)),
            visible_docs(*core),
            limit as nat,
            having_any(words(query@), domain@),
        ),
        r matches Ok(Some(places)) ==> !is_plain(query@) && is_strict(query@) && is_term(
            domain@,
        ) ==> are_all_wanted(
            docs_at(places@, placed_docs(*core)),
            |d: (Seq<char>, Seq<char>, Seq<char>, Seq<char>)|
                d.1 == domain@ && meets_query(query@, d),
        ),
        r matches Ok(Some(places)) ==> !is_plain(query@) && is_unweighted(query@) && is_term(
            domain@,
        ) ==> are_wanted(
            docs_at(places@, placed_docs(*core)),
            visible_docs(*core),
            limit as nat,
            |d: (Seq<char>, Seq<char>, Seq<char>, Seq<char>)|
                d.1 == domain@ && meets_query(query@, d),
        ),
{
    let parser = QueryParser::for_index(&core.index, vec![core.title, core.body]);
    let Ok(asked) = parser.parse_query(query) else { return Ok(None) };
    let term = Term::from_field_text(core.domain, domain);
    let filter = Box::new(TermQuery::new(term, IndexRecordOption::Basic));
    let both = BooleanQuery::intersection(vec![asked, filter]);
    let top = core.reader.searcher().search(&both, &TopDocs::with_limit(limit))?;
    let places = top.into_iter().map(|(score, at)| (at.segment_ord, at.doc_id, score.to_bits()));
    Ok(Some(places.collect()))
}

/// `Searcher::search` with the terms of words in the body and the term of a
/// domain, all of which must be met; without words nothing is found. What is
/// found are places of documents of the domain that have all the words, no more
/// than `limit`, the best first, and nothing is left out below the limit. What
/// the scores are is not stated.
#[verifier::external_body]
fn search_words(core: &LexicalCore, words: &Vec<String>, domain: &str, limit: usize) -> (r: Result<
    Vec<(u32, u32, u32)>,
    TantivyError,
>)
    requires
        0 < limit <= MAX_LEXICAL_HITS,
    ensures
        r matches Ok(places) ==> are_places(places@, *core) && places@.len() <= limit
            && are_of_domain(places@, *core, domain@),
        r matches Ok(places) ==> is_term(domain@) ==> are_wanted(
            docs_at(places@, placed_docs(*core)),
            visible_docs(*core),
            limit as nat,
            having_all(string_views(words@), domain@),
        ),
        r matches Ok(places) ==> forall|i: int, k: int|
            0 <= i < places@.len() && 0 <= k < words@.len() && !is_ascii(
                docs_at(places@, placed_docs(*core))[i].3,
            ) ==> has_term(
                (#[trigger] docs_at(places@, placed_docs(*core))[i]).3,
                (#[trigger] words@[k])@,
            ),
{
    let term = |f, t: &str| -> Box<dyn Query> {
        Box::new(TermQuery::new(Term::from_field_text(f, t), IndexRecordOption::Basic))
    };
    let terms = words.iter().map(|w| term(core.body, w)).collect();
    let asked = Box::new(BooleanQuery::intersection(terms));
    let both = BooleanQuery::intersection(vec![asked, term(core.domain, domain)]);
    let top = core.reader.searcher().search(&both, &TopDocs::with_limit(limit))?;
    let places = top.into_iter().map(|(score, at)| (at.segment_ord, at.doc_id, score.to_bits()));
    Ok(places.collect())
}

/// `Searcher::search` with `AllQuery`: the places of as many documents as are
/// asked for, no more than searches see.
#[verifier::external_body]
fn search_all(core: &LexicalCore, limit: usize) -> (r: Result<Vec<(u32, u32, u32)>, TantivyError>)
    requires
        0 < limit <= MAX_LEXICAL_HITS,
        limit <= visible_docs(*core).len(),
    ensures
        r matches Ok(places) ==> are_places(places@, *core) && places@.len() == limit,
{
    let top = core.reader.searcher().search(&AllQuery, &TopDocs::with_limit(limit))?;
    let places = top.into_iter().map(|(score, at)| (at.segment_ord, at.doc_id, score.to_bits()));
    Ok(places.collect())
}

/// `Searcher::doc`: the texts of the document at a place, in the order of the
/// fields `doc_id`, `domain`, `title` and `body`.
#[verifier::external_body]
fn fetch_doc(core: &LexicalCore, segment: u32, number: u32) -> (r: Result<
    (String, String, String, String),
    TantivyError,
>)
    requires
        placed_docs(*core).contains_key((segment, number)),
    ensures
        r matches Ok(d) ==> (d.0@, d.1@, d.2@, d.3@) == placed_docs(*core)[(segment, number)],
{
    let at = DocAddress::new(segment, number);
    let d: TantivyDocument = core.reader.searcher().doc(at)?;
    let text = |f| d.get_first(f).and_then(|v| v.as_str()).unwrap_or_default().to_owned();
    Ok((text(core.doc_id), text(core.domain), text(core.title), text(core.body)))
}

/// Whether pairs are the identifiers and domains of `n` stored documents.
pub open spec fn are_listed(
    pairs: Seq<(String, String)>,
    docs: Multiset<(Seq<char>, Seq<char>, Seq<char>, Seq<char>)>,
    n: nat,
) -> bool {
    &&& pairs.len() == n
    &&& exists|of: Seq<(Seq<char>, Seq<char>, Seq<char>, Seq<char>)>|
        of.len() == n && #[trigger] of.to_multiset().subset_of(docs) && forall|i: int|
            0 <= i < n ==> (#[trigger] pairs[i]).0@ == of[i].0 && pairs[i].1@ == of[i].1
}

/// How many of so many documents are listed.
pub open spec fn listed_count(n: nat) -> nat {
    if n > MAX_LISTED_DOCUMENTS {
        MAX_LISTED_DOCUMENTS as nat
    } else {
        n
    }
}

/// Whether an error is one of the backend.
pub open spec fn is_backend(e: ErrorModel) -> bool {
    e is Backend
}

/// Whether an error is one of the backend whose text starts with a step: the one
/// that failed.
pub open spec fn is_fault(e: ErrorModel, step: Seq<char>) -> bool {
    &&& is_backend(e)
    &&& exists|cause: Seq<char>| e == (ErrorModel::Backend { detail: #[trigger] (step + cause) })
}

/// Whether what was written could not be committed, or not be seen.
pub open spec fn is_publish_fault(e: ErrorModel) -> bool {
    is_fault(e, "tantivy commit failed: "@) || is_fault(e, "tantivy reader reload failed: "@)
}

/// Whether an index could not be opened.
pub open spec fn is_open_fault(e: ErrorModel) -> bool {
    ||| is_fault(e, "tantivy::Index::open_or_create failed: "@)
    ||| is_fault(e, "tantivy reader builder failed: "@)
    ||| is_fault(e, "tantivy writer init failed: "@)
}

fn backend_error(start: &str, error: &TantivyError) -> (r: ShadowError)
    ensures
        is_fault(r@, start@),
{
    let text: String = error_text(error);
    ShadowError::Backend { detail: concat2(start, text.as_str()) }
}

/// Whether stored documents are those before with one more, which takes the
/// place of those of its identifier. Those of an identifier that is too long to
/// be a term may stay.
pub open spec fn is_insertion(
    before: Multiset<(Seq<char>, Seq<char>, Seq<char>, Seq<char>)>,
    after: Multiset<(Seq<char>, Seq<char>, Seq<char>, Seq<char>)>,
    d: DocumentModel,
) -> bool {
    if is_term(d.doc_id) {
        after == without_id(before, d.doc_id).insert(stored(d))
    } else {
        exists|rest: Multiset<(Seq<char>, Seq<char>, Seq<char>, Seq<char>)>| #[trigger]
            rest.subset_of(before) && after == rest.insert(stored(d))
    }
}

/// Whether stored documents are those before without those of an identifier.
pub open spec fn is_removal(
    before: Multiset<(Seq<char>, Seq<char>, Seq<char>, Seq<char>)>,
    after: Multiset<(Seq<char>, Seq<char>, Seq<char>, Seq<char>)>,
    id: Seq<char>,
) -> bool {
    &&& after.subset_of(before)
    &&& is_term(id) ==> after == without_id(before, id)
}

/// The identifiers and domains whose identifier is not empty.
pub open spec fn named_pairs(pairs: Seq<(String, String)>) -> Seq<(Seq<char>, Seq<char>)>
    decreases pairs.len(),
{
    if pairs.len() == 0 {
        Seq::empty()
    } else {
        let before = named_pairs(pairs.drop_last());
        if pairs.last().0@.len() > 0 {
            before.push((pairs.last().0@, pairs.last().1@))
        } else {
            before
        }
    }
}

pub open spec fn pair_models(v: Seq<(String, String)>) -> Seq<(Seq<char>, Seq<char>)> {
    v.map_values(|p: (String, String)| (p.0@, p.1@))
}

/// The full-text index. What is written is seen by searches at once.
pub struct LexicalIndex {
    core: LexicalCore,
}

impl LexicalIndex {
    /// The documents that searches see.
    pub closed spec fn docs(&self) -> Multiset<(Seq<char>, Seq<char>, Seq<char>, Seq<char>)> {
        visible_docs(self.core)
    }

    /// The documents that the next write starts from: those that searches see,
    /// unless a write has failed.
    pub closed spec fn pending(&self) -> Multiset<(Seq<char>, Seq<char>, Seq<char>, Seq<char>)> {
        staged_docs(self.core)
    }

    /// An index in memory, without documents.
    pub fn new() -> (r: Result<Self, ShadowError>)
        ensures
            match r {
                Ok(x) => x.docs() == Multiset::<
                    (Seq<char>, Seq<char>, Seq<char>, Seq<char>),
                >::empty() && x.pending() == x.docs(),
                Err(e) => is_open_fault(e@),
            },
    {
        match create_in_memory() {
            Ok(index) => {
                proof {
                    lemma_empty(stored_docs(index));
                }
                LexicalIndex::over(index)
            },
            Err(e) => Err(backend_error("tantivy::Index::open_or_create failed: ", &e)),
        }
    }

    /// The index in a directory, which is made where there is none.
    pub fn build_from_directory(directory: MmapDirectory) -> (r: Result<Self, ShadowError>)
        ensures
            match r {
                Ok(x) => x.pending() == x.docs(),
                Err(e) => is_open_fault(e@),
            },
    {
        match open_in_directory(directory) {
            Ok(index) => LexicalIndex::over(index),
            Err(e) => Err(backend_error("tantivy::Index::open_or_create failed: ", &e)),
        }
    }

    /// The index over an index of Tantivy with the fields of a document.
    fn over(index: Index) -> (r: Result<Self, ShadowError>)
        ensures
            match r {
                Ok(x) => x.docs() == stored_docs(index) && x.pending() == x.docs(),
                Err(e) => is_open_fault(e@),
            },
    {
        let reader: IndexReader = match open_reader(&index) {
            Ok(x) => x,
            Err(e) => {
                return Err(backend_error("tantivy reader builder failed: ", &e));
            },
        };
        match open_core(index, reader) {
            Ok(core) => Ok(LexicalIndex { core }),
            Err(e) => Err(backend_error("tantivy writer init failed: ", &e)),
        }
    }

    fn publish(&mut self) -> (r: Result<(), ShadowError>)
        ensures
            match r {
                Ok(_) => final(self).docs() == old(self).pending() && final(self).pending()
                    == old(self).pending(),
                Err(e) => is_publish_fault(e@) && final(self).docs() == old(self).docs(),
            },
    {
        match commit(&mut self.core) {
            Ok(()) => {},
            Err(e) => {
                return Err(backend_error("tantivy commit failed: ", &e));
            },
        }
        match reload(&mut self.core) {
            Ok(()) => Ok(()),
            Err(e) => Err(backend_error("tantivy reader reload failed: ", &e)),
        }
    }

    /// Inserts a document, or replaces the one with its identifier. Where it
    /// fails, searches see what they saw.
    pub fn insert(&mut self, doc: &ShadowDocument) -> (r: Result<(), ShadowError>)
        ensures
            match r {
                Ok(_) => is_insertion(old(self).pending(), final(self).docs(), doc@)
                    && final(self).pending() == final(self).docs(),
                Err(e) => (is_fault(e@, "tantivy add_document failed: "@)
                    || is_publish_fault(e@)) && final(self).docs() == old(self).docs(),
            },
    {
        let ghost before = self.pending();
        delete_id(&mut self.core, doc.doc_id.as_str());
        let ghost rest = self.pending();
        match add_doc(&mut self.core, doc) {
            Ok(()) => {},
            Err(e) => {
                return Err(backend_error("tantivy add_document failed: ", &e));
            },
        }
        assert(rest.subset_of(before));
        self.publish()
    }

    /// Removes the documents of an identifier; an unknown identifier is no
    /// error.
    pub fn remove(&mut self, doc_id: &str) -> (r: Result<(), ShadowError>)
        ensures
            match r {
                Ok(_) => is_removal(old(self).pending(), final(self).docs(), doc_id@)
                    && final(self).pending() == final(self).docs(),
                Err(e) => is_publish_fault(e@) && final(self).docs() == old(self).docs(),
            },
    {
        delete_id(&mut self.core, doc_id);
        self.publish()
    }

    /// The hits at places.
    fn fetch_hits(&self, places: &Vec<(u32, u32, u32)>, domain: &str, limit: usize) -> (r: Result<
        Vec<LexicalHit>,
        ShadowError,
    >)
        requires
            are_places(places@, self.core),
            are_of_domain(places@, self.core, domain@),
            places@.len() <= limit,
        ensures
            match r {
                Ok(hits) => are_hits(lexical_models(hits@), self.docs(), domain@, limit as nat)
                    && found_docs(lexical_models(hits@), domain@) == docs_at(
                    places@,
                    placed_docs(self.core),
                ),
                Err(e) => is_fault(e@, "tantivy doc fetch failed: "@),
            },
    {
        let ghost placed = placed_docs(self.core);
        let mut hits: Vec<LexicalHit> = Vec::new();
        let mut i: usize = 0;
        while i < places.len()
            invariant
                i <= places@.len(),
                hits@.len() == i,
                placed == placed_docs(self.core),
                are_places(places@, self.core),
                are_of_domain(places@, self.core, domain@),
                found_docs(lexical_models(hits@), domain@) =~= docs_at(places@, placed).take(
                    i as int,
                ),
                forall|k: int| 0 <= k < i ==> (#[trigger] hits@[k]).score_bits == places@[k].2,
            decreases places@.len() - i,
        {
            let (segment, number, score_bits) = places[i];
            assert(places@[i as int] == (segment, number, score_bits));
            match fetch_doc(&self.core, segment, number) {
                Ok((doc_id, _, title, body)) => {
                    let ghost before = found_docs(lexical_models(hits@), domain@);
                    let hit: LexicalHit = LexicalHit { doc_id, title, body, score_bits };
                    hits.push(hit);
                    assert(found_docs(lexical_models(hits@), domain@) =~= before.push(
                        placed[(segment, number)],
                    ));
                },
                Err(e) => {
                    return Err(backend_error("tantivy doc fetch failed: ", &e));
                },
            }
            i += 1;
        }
        assert(docs_at(places@, placed).take(places@.len() as int) =~= docs_at(places@, placed));
        Ok(hits)
    }

    /// The documents of a domain that a query finds, the best first. A query
    /// that cannot be parsed, or is nested too deep to be, asks for all its
    /// letters and numbers in the body.
    pub fn search(&self, query: &str, domain: &str, limit: usize) -> (r: Result<
        Vec<LexicalHit>,
        ShadowError,
    >)
        requires
            trim(query@).len() > 0 ==> limit <= MAX_LEXICAL_HITS,
        ensures
            match r {
                Ok(hits) => if trim(query@).len() == 0 || limit == 0 {
                    hits@.len() == 0
                } else {
                    is_answer(
                        lexical_models(hits@),
                        self.docs(),
                        query@,
                        domain@,
                        limit as nat,
                    )
                },
                Err(e) => (is_fault(e@, "tantivy search failed: "@) || is_fault(
                    e@,
                    "tantivy doc fetch failed: "@,
                )) && trim(query@).len() > 0 && limit > 0,
            },
    {
        let chars: Vec<char> = chars_of(query);
        let (lo, hi) = trim_range(&chars, 0, chars.len());
        if lo == hi || limit == 0 {
            return Ok(Vec::new());
        }
        assert(meeting(query@, domain@) =~= |
            d: (Seq<char>, Seq<char>, Seq<char>, Seq<char>),
        | d.1 == domain@ && meets_query(query@, d));
        let parsed: Result<Option<Vec<(u32, u32, u32)>>, TantivyError> = if shallow(&chars) {
            search_parsed(&self.core, query, domain, limit)
        } else {
            Ok(None)
        };
        proof {
            if is_plain(query@) {
                lemma_plain_is_shallow(query@);
            }
        }
        match parsed {
            Ok(Some(places)) => self.fetch_hits(&places, domain, limit),
            Ok(None) => {
                let words: Vec<String> = query_words(query);
                match search_words(&self.core, &words, domain, limit) {
                    Ok(places) => self.fetch_hits(&places, domain, limit),
                    Err(e) => Err(backend_error("tantivy search failed: ", &e)),
                }
            },
            Err(e) => Err(backend_error("tantivy search failed: ", &e)),
        }
    }

    /// The number of documents.
    pub fn doc_count(&self) -> (r: u64)
        ensures
            r == self.docs().len(),
    {
        count_docs(&self.core)
    }

    /// The identifiers and domains of the documents, but for those without an
    /// identifier, no more than a million.
    pub fn iter_doc_ids(&self) -> (r: Result<Vec<(String, String)>, ShadowError>)
        ensures
            match r {
                Ok(pairs) => exists|all: Seq<(String, String)>| #[trigger]
                    are_listed(all, self.docs(), listed_count(self.docs().len())) && pair_models(
                        pairs@,
                    ) == named_pairs(all),
                Err(e) => (is_fault(
                    e@,
                    "tantivy iter_doc_ids search failed: "@,
                ) || is_fault(e@, "tantivy doc fetch failed: "@)) && self.docs().len() > 0,
            },
    {
        let total: u64 = count_docs(&self.core);
        let mut out: Vec<(String, String)> = Vec::new();
        assert(pair_models(out@) =~= Seq::empty());
        if total == 0 {
            proof {
                lemma_nothing_listed(self.docs());
                let none = Seq::<(String, String)>::empty();
                assert(are_listed(none, self.docs(), listed_count(self.docs().len())));
                assert(pair_models(out@) == named_pairs(none));
            }
            return Ok(out);
        }
        let limit: usize = if total > MAX_LISTED_DOCUMENTS {
            MAX_LISTED_DOCUMENTS as usize
        } else {
            total as usize
        };
        let places: Vec<(u32, u32, u32)> = match search_all(&self.core, limit) {
            Ok(x) => x,
            Err(e) => {
                return Err(backend_error("tantivy iter_doc_ids search failed: ", &e));
            },
        };
        let ghost placed = placed_docs(self.core);
        let ghost of = docs_at(places@, placed);
        let ghost mut all = Seq::<(String, String)>::empty();
        let mut i: usize = 0;
        while i < places.len()
            invariant
                i <= places@.len(),
                all.len() == i,
                placed == placed_docs(self.core),
                of == docs_at(places@, placed),
                are_places(places@, self.core),
                self.docs().len() > 0,
                forall|k: int|
                    0 <= k < i ==> (#[trigger] all[k]).0@ == of[k].0 && all[k].1@ == of[k].1,
                pair_models(out@) == named_pairs(all),
            decreases places@.len() - i,
        {
            let (segment, number, _) = places[i];
            let p: (String, String) = match fetch_doc(&self.core, segment, number) {
                Ok((doc_id, domain, _, _)) => (doc_id, domain),
                Err(e) => {
                    return Err(backend_error("tantivy doc fetch failed: ", &e));
                },
            };
            proof {
                let listed = all;
                all = all.push(p);
                assert(all.drop_last() =~= listed);
                crate::text::lemma_byte_off_mono(p.0@, 0, p.0@.len() as int);
            }
            if str_byte_len(p.0.as_str()) > 0 {
                let ghost before = pair_models(out@);
                out.push(p);
                assert(pair_models(out@) =~= before.push((p.0@, p.1@)));
            }
            i += 1;
        }
        assert(of.to_multiset().subset_of(self.docs()));
        assert(are_listed(all, self.docs(), listed_count(self.docs().len())));
        Ok(out)
    }
}

proof fn lemma_empty(docs: Multiset<(Seq<char>, Seq<char>, Seq<char>, Seq<char>)>)
    requires
        docs.len() == 0,
    ensures
        docs == Multiset::<(Seq<char>, Seq<char>, Seq<char>, Seq<char>)>::empty(),
{
    broadcast use vstd::multiset::group_multiset_axioms;

    if docs != Multiset::<(Seq<char>, Seq<char>, Seq<char>, Seq<char>)>::empty() {
        vstd::multiset::lemma_multiset_empty_len(docs);
    }
}

proof fn lemma_nothing_listed(docs: Multiset<(Seq<char>, Seq<char>, Seq<char>, Seq<char>)>)
    requires
        docs.len() == 0,
    ensures
        are_listed(Seq::empty(), docs, 0),
{
    broadcast use vstd::multiset::group_multiset_axioms;

    let of = Seq::<(Seq<char>, Seq<char>, Seq<char>, Seq<char>)>::empty();
    of.to_multiset_ensures();
    assert(of.to_multiset() =~= Multiset::empty());
    assert(of.to_multiset().subset_of(docs));
}

/// A stored document that is wanted is among fewer hits than were asked for.
pub proof fn law_wanted_document_is_found(
    hits: Seq<LexicalModel>,
    docs: Multiset<(Seq<char>, Seq<char>, Seq<char>, Seq<char>)>,
    query: Seq<char>,
    limit: nat,
    d: (Seq<char>, Seq<char>, Seq<char>, Seq<char>),
)
    requires
        is_answer(hits, docs, query, d.1, limit),
        finds_all_wanted(query),
        is_term(d.1),
        docs.count(d) > 0,
        wanted(query, d.1)(d),
        hits.len() < limit,
    ensures
        exists|i: int|
            0 <= i < hits.len() && (#[trigger] hits[i]).doc_id == d.0 && hits[i].title == d.2
                && hits[i].body == d.3,
{
    broadcast use vstd::multiset::group_multiset_axioms;

    let found = found_docs(hits, d.1);
    found.to_multiset_ensures();
    assert(docs.filter(wanted(query, d.1)).count(d) > 0);
    assert(found.to_multiset().count(d) > 0);
    assert(found.contains(d));
    let i = choose|i: int| 0 <= i < found.len() && found[i] == d;
    assert(hits[i].doc_id == d.0);
}

/// Every hit of a query that finds nothing else is wanted by it.
pub proof fn law_hits_are_wanted(
    hits: Seq<LexicalModel>,
    docs: Multiset<(Seq<char>, Seq<char>, Seq<char>, Seq<char>)>,
    query: Seq<char>,
    domain: Seq<char>,
    limit: nat,
    i: int,
)
    requires
        is_answer(hits, docs, query, domain, limit),
        finds_only_wanted(query),
        is_term(domain),
        0 <= i < hits.len(),
    ensures
        wanted(query, domain)((hits[i].doc_id, domain, hits[i].title, hits[i].body)),
{
    assert(found_docs(hits, domain)[i] == (hits[i].doc_id, domain, hits[i].title, hits[i].body));
}

/// What was inserted is found, where a query wants it and finds fewer documents
/// than were asked for.
pub proof fn law_inserted_document_is_found(
    before: Multiset<(Seq<char>, Seq<char>, Seq<char>, Seq<char>)>,
    after: Multiset<(Seq<char>, Seq<char>, Seq<char>, Seq<char>)>,
    d: DocumentModel,
    hits: Seq<LexicalModel>,
    query: Seq<char>,
    limit: nat,
)
    requires
        is_insertion(before, after, d),
        is_answer(hits, after, query, d.domain, limit),
        finds_all_wanted(query),
        is_term(d.domain),
        wanted(query, d.domain)(stored(d)),
        hits.len() < limit,
    ensures
        exists|i: int|
            0 <= i < hits.len() && (#[trigger] hits[i]).doc_id == d.doc_id && hits[i].title
                == d.title && hits[i].body == d.body,
{
    broadcast use vstd::multiset::group_multiset_axioms;

    assert(after.count(stored(d)) > 0);
    law_wanted_document_is_found(hits, after, query, limit, stored(d));
}

/// What was removed is not found, whatever the query.
pub proof fn law_removed_document_is_not_found(
    before: Multiset<(Seq<char>, Seq<char>, Seq<char>, Seq<char>)>,
    after: Multiset<(Seq<char>, Seq<char>, Seq<char>, Seq<char>)>,
    id: Seq<char>,
    hits: Seq<LexicalModel>,
    domain: Seq<char>,
    limit: nat,
    i: int,
)
    requires
        is_removal(before, after, id),
        is_term(id),
        are_hits(hits, after, domain, limit),
        0 <= i < hits.len(),
    ensures
        hits[i].doc_id != id,
{
    broadcast use vstd::multiset::group_multiset_axioms;

    let found = found_docs(hits, domain);
    found.to_multiset_ensures();
    assert(found.contains(found[i]));
    assert(found.to_multiset().count(found[i]) > 0);
    assert(after.count(found[i]) > 0);
}

} // verus!
