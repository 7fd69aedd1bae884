//! Memory in three layers: what is at hand, what was recent, and everything
//! else.

use vstd::prelude::*;

use super::config::InstantRecallConfig;
use super::embedder::{embedded, TrigramEmbedder};
use super::index::{
    embedded_results, entry_for, ids_differ, result_models, with_entry, without_entry, EntryModel,
    InstantRecallIndex, RecallResult, ResultModel,
};
use crate::bits::{
    at_least_double, bits_double_key, double_key, double_twice, doubles_at_least, doubles_less,
    less_double, twice_bits,
};
use crate::digest::texts;
use crate::double::{
    divide_doubles, double_of, integer_bits, law_part_is_no_more, multiply_doubles, product_bits,
    quotient_bits, INFINITY, ONE,
};
use crate::float::{
    divide, double_bits, product, quotient, round_integer, rounded, times, to_double_bits, widen,
    widened, Number, Rounded,
};
use crate::keys::string_views;
use crate::order::{
    candidate_models, lemma_ranked_places, rank_candidates, ranked, Candidate, CandidateModel,
};
use crate::quant::binary::sign_codes;
use crate::quant::packing::{packed, per_byte};
use crate::shadow::matching::{find, find_chars, lower_text, lowercase};
use crate::shadow::tokens::{runs, split_runs};
use crate::text::{byte_len, chars_of, str_byte_len, text_eq};
use crate::words::{split_words, words};

verus! {

/// A layer of memory.
#[derive(Clone, Copy, Debug, PartialEq, Eq, Structural)]
pub enum MemoryLayer {
    Working,
    Session,
    LongTerm,
}

/// The weight of a layer.
pub open spec fn layer_weight(l: MemoryLayer) -> nat {
    match l {
        MemoryLayer::Working => 3,
        MemoryLayer::Session => 2,
        MemoryLayer::LongTerm => 1,
    }
}

/// The name of a layer.
pub open spec fn layer_name(l: MemoryLayer) -> Seq<char> {
    match l {
        MemoryLayer::Working => "working"@,
        MemoryLayer::Session => "session"@,
        MemoryLayer::LongTerm => "long_term"@,
    }
}

impl MemoryLayer {
    /// What scores of a layer are multiplied by.
    pub fn weight(&self) -> (r: u64)
        ensures
            r == layer_weight(*self),
    {
        match self {
            MemoryLayer::Working => 3,
            MemoryLayer::Session => 2,
            MemoryLayer::LongTerm => 1,
        }
    }

    /// The name of a layer.
    pub fn as_str(&self) -> (r: &'static str)
        ensures
            r@ == layer_name(*self),
    {
        match self {
            MemoryLayer::Working => "working",
            MemoryLayer::Session => "session",
            MemoryLayer::LongTerm => "long_term",
        }
    }
}

/// The settings of a retriever. The least score is the bits of a double.
#[derive(Clone, Copy, Debug, PartialEq, Eq, Structural)]
pub struct ProgressiveConfig {
    pub working_limit: usize,
    pub session_limit: usize,
    pub longterm_limit: usize,
    pub total_limit: usize,
    pub min_score: u64,
    pub recency_half_life_secs: u64,
}

impl Default for ProgressiveConfig {
    /// The least score is a tenth.
    fn default() -> (r: Self)
        ensures
            r == (ProgressiveConfig {
                working_limit: 5,
                session_limit: 10,
                longterm_limit: 15,
                total_limit: 20,
                min_score: 0x3fb9_9999_9999_999a,
                recency_half_life_secs: 3600,
            }),
    {
        ProgressiveConfig {
            working_limit: 5,
            session_limit: 10,
            longterm_limit: 15,
            total_limit: 20,
            min_score: 0x3fb9_9999_9999_999a,
            recency_half_life_secs: 3600,
        }
    }
}

/// Words that say nothing of a text.
pub open spec fn stop_words() -> Seq<Seq<char>> {
    seq![
        "a"@,
        "an"@,
        "the"@,
        "is"@,
        "are"@,
        "was"@,
        "were"@,
        "be"@,
        "been"@,
        "have"@,
        "has"@,
        "had"@,
        "do"@,
        "does"@,
        "did"@,
        "will"@,
        "would"@,
        "can"@,
        "could"@,
        "to"@,
        "of"@,
        "in"@,
        "for"@,
        "on"@,
        "with"@,
        "at"@,
        "by"@,
        "from"@,
        "and"@,
        "but"@,
        "or"@,
        "not"@,
        "that"@,
        "this"@,
        "it"@,
        "its"@,
        "my"@,
        "your"@,
    ]
}

fn is_stop_word(word: &str) -> (r: bool)
    ensures
        r == stop_words().contains(word@),
{
    let list: [&str; 38] = [
        "a",
        "an",
        "the",
        "is",
        "are",
        "was",
        "were",
        "be",
        "been",
        "have",
        "has",
        "had",
        "do",
        "does",
        "did",
        "will",
        "would",
        "can",
        "could",
        "to",
        "of",
        "in",
        "for",
        "on",
        "with",
        "at",
        "by",
        "from",
        "and",
        "but",
        "or",
        "not",
        "that",
        "this",
        "it",
        "its",
        "my",
        "your",
    ];
    assert(texts(list@) =~= stop_words());
    let mut i: usize = 0;
    while i < 38
        invariant
            i <= 38,
            list@.len() == 38,
            texts(list@) == stop_words(),
            forall|k: int| 0 <= k < i ==> #[trigger] stop_words()[k] != word@,
        decreases 38 - i,
    {
        assert(stop_words()[i as int] == list@[i as int]@);
        if text_eq(list[i], word) {
            assert(stop_words().contains(word@));
            return true;
        }
        i += 1;
    }
    assert(!stop_words().contains(word@));
    false
}

/// Of runs of letters and numbers those that are keywords: longer than two
/// bytes, no stop words, each once, in the order in which they first come.
pub open spec fn keywords_of(candidates: Seq<Seq<char>>) -> Seq<Seq<char>>
    decreases candidates.len(),
{
    if candidates.len() == 0 {
        Seq::empty()
    } else {
        let before = keywords_of(candidates.drop_last());
        let w = candidates.last();
        if byte_len(w) > 2 && !stop_words().contains(w) && !before.contains(w) {
            before.push(w)
        } else {
            before
        }
    }
}

fn holds_text(list: &Vec<String>, word: &str) -> (r: bool)
    ensures
        r == string_views(list@).contains(word@),
{
    let ghost views = string_views(list@);
    let mut i: usize = 0;
    while i < list.len()
        invariant
            i <= list@.len(),
            views == string_views(list@),
            forall|k: int| 0 <= k < i ==> #[trigger] views[k] != word@,
        decreases list@.len() - i,
    {
        assert(views[i as int] == list@[i as int]@);
        if text_eq(list[i].as_str(), word) {
            return true;
        }
        i += 1;
    }
    false
}

/// The keywords of a text in lower case.
pub fn keywords_in(lower: &str) -> (r: Vec<String>)
    ensures
        string_views(r@) == keywords_of(runs(lower@, 0)),
{
    let chars: Vec<char> = chars_of(lower);
    let candidates: Vec<String> = split_runs(&chars);
    let ghost all = string_views(candidates@);
    let mut out: Vec<String> = Vec::new();
    let mut i: usize = 0;
    assert(all.take(0) =~= Seq::empty());
    assert(string_views(out@) =~= Seq::empty());
    while i < candidates.len()
        invariant
            i <= candidates@.len(),
            all == string_views(candidates@),
            string_views(out@) == keywords_of(all.take(i as int)),
        decreases candidates@.len() - i,
    {
        assert(all.take(i + 1).drop_last() =~= all.take(i as int));
        assert(all.take(i + 1).last() == candidates@[i as int]@);
        let w: &str = candidates[i].as_str();
        if str_byte_len(w) > 2 && !is_stop_word(w) && !holds_text(&out, w) {
            let ghost before = string_views(out@);
            out.push(w.to_owned());
            assert(string_views(out@) =~= before.push(w@));
        }
        i += 1;
    }
    assert(all.take(candidates@.len() as int) =~= all);
    out
}

/// The keywords of a text, whatever the case of its letters.
pub fn extract_keywords(text: &str) -> (r: Vec<String>)
    ensures
        string_views(r@) == keywords_of(runs(lowercase(text@), 0)),
{
    let lower: String = lower_text(text);
    keywords_in(lower.as_str())
}

/// Keywords are more than two bytes long, are no stop words, and none occurs
/// twice.
pub proof fn law_keywords_are_distinct(candidates: Seq<Seq<char>>)
    ensures
        forall|i: int|
            0 <= i < keywords_of(candidates).len() ==> byte_len(
                #[trigger] keywords_of(candidates)[i],
            ) > 2 && !stop_words().contains(keywords_of(candidates)[i]),
        forall|i: int, j: int|
            0 <= i < j < keywords_of(candidates).len() ==> #[trigger] keywords_of(candidates)[i]
                != #[trigger] keywords_of(candidates)[j],
    decreases candidates.len(),
{
    if candidates.len() > 0 {
        let before = keywords_of(candidates.drop_last());
        law_keywords_are_distinct(candidates.drop_last());
        let after = keywords_of(candidates);
        assert forall|i: int, j: int| 0 <= i < j < after.len() implies #[trigger] after[i]
            != #[trigger] after[j] by {
            assert(after[i] == before[i]);
            if j < before.len() {
                assert(after[j] == before[j]);
            } else {
                assert(before.contains(before[i]));
            }
        }
    }
}

/// Something at hand.
pub struct WorkingItem {
    pub doc_id: String,
    pub text: String,
    pub keywords: Vec<String>,
    pub age_seconds: u64,
}

#[verifier::ext_equal]
pub struct ItemModel {
    pub doc_id: Seq<char>,
    pub text: Seq<char>,
    pub keywords: Seq<Seq<char>>,
    pub age_seconds: u64,
}

impl View for WorkingItem {
    type V = ItemModel;

    open spec fn view(&self) -> ItemModel {
        ItemModel {
            doc_id: self.doc_id@,
            text: self.text@,
            keywords: string_views(self.keywords@),
            age_seconds: self.age_seconds,
        }
    }
}

pub open spec fn item_models(v: Seq<WorkingItem>) -> Seq<ItemModel> {
    v.map_values(|x: WorkingItem| x@)
}

/// The items without those of an identifier.
pub open spec fn without_item(items: Seq<ItemModel>, doc_id: Seq<char>) -> Seq<ItemModel>
    decreases items.len(),
{
    if items.len() == 0 {
        items
    } else {
        let before = without_item(items.drop_last(), doc_id);
        if items.last().doc_id == doc_id {
            before
        } else {
            before.push(items.last())
        }
    }
}

/// The most items at hand.
pub const MAX_WORKING: usize = 32;

/// The items with one more at the end, in place of others with its identifier;
/// beyond 32 the first ones go.
pub open spec fn with_item(items: Seq<ItemModel>, x: ItemModel) -> Seq<ItemModel> {
    let all = without_item(items, x.doc_id).push(x);
    if all.len() > MAX_WORKING {
        all.skip(all.len() - MAX_WORKING)
    } else {
        all
    }
}

/// Something recalled. The score is the bits of a double.
#[derive(Debug, PartialEq, Eq)]
pub struct MemoryEntry {
    pub doc_id: String,
    pub text: String,
    pub score_bits: u64,
    pub layer: MemoryLayer,
    pub age_seconds: u64,
}

#[verifier::ext_equal]
pub struct MemoryModel {
    pub doc_id: Seq<char>,
    pub text: Seq<char>,
    pub score_bits: u64,
    pub layer: MemoryLayer,
    pub age_seconds: u64,
}

impl View for MemoryEntry {
    type V = MemoryModel;

    open spec fn view(&self) -> MemoryModel {
        MemoryModel {
            doc_id: self.doc_id@,
            text: self.text@,
            score_bits: self.score_bits,
            layer: self.layer,
            age_seconds: self.age_seconds,
        }
    }
}

pub open spec fn memory_models(v: Seq<MemoryEntry>) -> Seq<MemoryModel> {
    v.map_values(|x: MemoryEntry| x@)
}

impl Clone for MemoryEntry {
    fn clone(&self) -> (r: Self)
        ensures
            r@ == self@,
    {
        MemoryEntry {
            doc_id: self.doc_id.clone(),
            text: self.text.clone(),
            score_bits: self.score_bits,
            layer: self.layer,
            age_seconds: self.age_seconds,
        }
    }
}

/// Whether a keyword and a word of the query hold one another.
pub open spec fn akin(keyword: Seq<char>, word: Seq<char>) -> bool {
    find(keyword, word) is Some || find(word, keyword) is Some
}

/// Whether a keyword is akin to a word of the query.
pub open spec fn is_met(keyword: Seq<char>, query: Seq<Seq<char>>) -> bool {
    exists|i: int| 0 <= i < query.len() && akin(keyword, #[trigger] query[i])
}

/// The number of keywords that are met.
pub open spec fn met_count(keywords: Seq<Seq<char>>, query: Seq<Seq<char>>) -> nat
    decreases keywords.len(),
{
    if keywords.len() == 0 {
        0
    } else {
        met_count(keywords.drop_last(), query) + if is_met(keywords.last(), query) {
            1nat
        } else {
            0
        }
    }
}

/// The score of an item, in double precision: the part of its keywords that
/// are met, times three.
pub open spec fn working_score(met: nat, keywords: nat) -> Number {
    product(
        53,
        quotient(
            53,
            rounded(53, met as int, 1),
            rounded(
                53,
                if keywords == 0 {
                    1
                } else {
                    keywords as int
                },
                1,
            ),
        ),
        rounded(53, 3, 1),
    )
}

/// What an item gives for a query: nothing if no keyword is met.
pub open spec fn item_entry(x: ItemModel, query: Seq<Seq<char>>) -> Option<MemoryModel> {
    let met = met_count(x.keywords, query);
    if met == 0 {
        None
    } else {
        Some(
            MemoryModel {
                doc_id: x.doc_id,
                text: x.text,
                score_bits: double_bits(working_score(met, x.keywords.len())) as u64,
                layer: MemoryLayer::Working,
                age_seconds: x.age_seconds,
            },
        )
    }
}

/// What the first items give, no more than `limit`.
pub open spec fn working_entries(items: Seq<ItemModel>, query: Seq<Seq<char>>, limit: nat) -> Seq<
    MemoryModel,
>
    decreases items.len(),
{
    if items.len() == 0 {
        Seq::empty()
    } else {
        let before = working_entries(items.drop_last(), query, limit);
        match item_entry(items.last(), query) {
            Some(m) => if before.len() < limit {
                before.push(m)
            } else {
                before
            },
            None => before,
        }
    }
}

/// What a document that an index found gives: of the session twice its score.
pub open spec fn layer_entry(x: ResultModel, layer: MemoryLayer) -> MemoryModel {
    let score = widened(x.score_bits) as u64;
    MemoryModel {
        doc_id: x.doc_id,
        text: x.text,
        score_bits: if layer == MemoryLayer::Session {
            twice_bits(score) as u64
        } else {
            score
        },
        layer,
        age_seconds: 0,
    }
}

pub open spec fn layer_entries(found: Seq<ResultModel>, layer: MemoryLayer) -> Seq<MemoryModel> {
    found.map_values(|x: ResultModel| layer_entry(x, layer))
}

/// How often a score is halved at an age, as the bits of a double. What is new
/// does not fade, nor does anything without a half-life.
pub open spec fn halvings_at(age: u64, half_life: u64) -> Option<u64> {
    if age > 0 && half_life > 0 {
        Some(quotient_bits(integer_bits(age as nat), integer_bits(half_life as nat)))
    } else {
        None
    }
}

/// Entries after those that fade were multiplied by what is left of them.
pub open spec fn faded(entries: Seq<MemoryModel>, left: Seq<u64>, half_life: u64) -> Seq<
    MemoryModel,
> {
    Seq::new(
        entries.len(),
        |i: int|
            if halvings_at(entries[i].age_seconds, half_life) is Some {
                MemoryModel {
                    score_bits: product_bits(entries[i].score_bits, left[i]),
                    ..entries[i]
                }
            } else {
                entries[i]
            },
    )
}

/// The place of an identifier, and the end if there is none.
pub open spec fn memory_place(entries: Seq<MemoryModel>, doc_id: Seq<char>) -> int
    decreases entries.len(),
{
    if entries.len() == 0 || entries[0].doc_id == doc_id {
        0
    } else {
        1 + memory_place(entries.drop_first(), doc_id)
    }
}

/// The entries whose score is at least `min`, one for each identifier: the one
/// that scores most, in the place of the first.
pub open spec fn merged(entries: Seq<MemoryModel>, min: u64) -> Seq<MemoryModel>
    decreases entries.len(),
{
    if entries.len() == 0 {
        Seq::empty()
    } else {
        let before = merged(entries.drop_last(), min);
        let e = entries.last();
        let at = memory_place(before, e.doc_id);
        if !at_least_double(e.score_bits, min) {
            before
        } else if at >= before.len() {
            before.push(e)
        } else if less_double(before[at].score_bits, e.score_bits) {
            before.update(at, e)
        } else {
            before
        }
    }
}

/// Entries as candidates, the best score first.
pub open spec fn memory_candidates(entries: Seq<MemoryModel>) -> Seq<CandidateModel> {
    Seq::new(
        entries.len(),
        |i: int|
            CandidateModel {
                key: double_key(entries[i].score_bits) as i64,
                id: Seq::empty(),
                index: i as usize,
            },
    )
}

/// The best entries, of equal ones the first, no more than `limit`.
pub open spec fn best_memories(entries: Seq<MemoryModel>, limit: int) -> Seq<MemoryModel> {
    let order = ranked(memory_candidates(entries));
    let n = if limit < entries.len() {
        limit as nat
    } else {
        entries.len()
    };
    Seq::new(n, |i: int| entries[order[i].index as int])
}

fn meets(keyword: &str, query: &Vec<String>) -> (r: bool)
    ensures
        r == is_met(keyword@, string_views(query@)),
{
    let ghost views = string_views(query@);
    let k: Vec<char> = chars_of(keyword);
    let mut i: usize = 0;
    while i < query.len()
        invariant
            i <= query@.len(),
            views == string_views(query@),
            k@ == keyword@,
            forall|j: int| 0 <= j < i ==> !akin(keyword@, #[trigger] views[j]),
        decreases query@.len() - i,
    {
        let w: Vec<char> = chars_of(query[i].as_str());
        assert(views[i as int] == w@);
        if find_chars(&k, &w).is_some() || find_chars(&w, &k).is_some() {
            assert(akin(keyword@, views[i as int]));
            return true;
        }
        i += 1;
    }
    false
}

fn count_met(keywords: &Vec<String>, query: &Vec<String>) -> (r: usize)
    ensures
        r == met_count(string_views(keywords@), string_views(query@)),
        r <= keywords@.len(),
{
    let ghost views = string_views(keywords@);
    let mut n: usize = 0;
    let mut i: usize = 0;
    assert(views.take(0) =~= Seq::empty());
    while i < keywords.len()
        invariant
            i <= keywords@.len(),
            views == string_views(keywords@),
            n == met_count(views.take(i as int), string_views(query@)),
            n <= i,
        decreases keywords@.len() - i,
    {
        assert(views.take(i + 1).drop_last() =~= views.take(i as int));
        assert(views.take(i + 1).last() == keywords@[i as int]@);
        if meets(keywords[i].as_str(), query) {
            n += 1;
        }
        i += 1;
    }
    assert(views.take(keywords@.len() as int) =~= views);
    n
}

fn score_working(met: usize, keywords: usize) -> (r: u64)
    requires
        0 < met,
    ensures
        r == double_bits(working_score(met as nat, keywords as nat)),
{
    let n: u64 = if keywords == 0 {
        1
    } else {
        keywords as u64
    };
    let q: Rounded = divide(53, round_integer(53, met as u64), round_integer(53, n));
    to_double_bits(times(53, q, round_integer(53, 3)))
}

/// A retriever of memories.
pub struct ProgressiveRetriever {
    config: ProgressiveConfig,
    working_items: Vec<WorkingItem>,
    session_index: InstantRecallIndex,
    longterm_index: InstantRecallIndex,
    embedder: TrigramEmbedder,
}

/// What a retriever holds.
#[verifier::ext_equal]
pub struct RetrieverModel {
    pub config: ProgressiveConfig,
    pub working: Seq<ItemModel>,
    pub session: Seq<EntryModel>,
    pub longterm: Seq<EntryModel>,
}

/// The number of components of an embedding.
pub const EMBEDDING_SIZE: usize = 1024;

/// The documents whose signatures are nearest that are scored.
pub const NEAREST: usize = 100;

/// The bits of the embedding of a text.
pub open spec fn text_embedding(text: Seq<char>) -> Seq<u32> {
    embedded(lowercase(text), EMBEDDING_SIZE as nat)
}

/// An index with a text under an identifier.
pub open spec fn with_text(entries: Seq<EntryModel>, doc_id: Seq<char>, text: Seq<char>) -> Seq<
    EntryModel,
> {
    with_entry(entries, entry_for(doc_id, text_embedding(text), text))
}

/// What the layers give for a query, before it is aged: what is at hand, then
/// what is found of the session, then the rest.
pub open spec fn gathered(m: RetrieverModel, query: Seq<char>) -> Seq<MemoryModel> {
    working_entries(m.working, words(lowercase(query)), m.config.working_limit as nat)
        + layer_entries(
        embedded_results(
            m.session,
            NEAREST as int,
            text_embedding(query),
            m.config.session_limit as int,
        ),
        MemoryLayer::Session,
    ) + layer_entries(
        embedded_results(
            m.longterm,
            NEAREST as int,
            text_embedding(query),
            m.config.longterm_limit as int,
        ),
        MemoryLayer::LongTerm,
    )
}

impl View for ProgressiveRetriever {
    type V = RetrieverModel;

    closed spec fn view(&self) -> RetrieverModel {
        RetrieverModel {
            config: self.config,
            working: item_models(self.working_items@),
            session: self.session_index@,
            longterm: self.longterm_index@,
        }
    }
}

fn empty_index() -> (r: InstantRecallIndex)
    ensures
        r@ == Seq::<EntryModel>::empty(),
        r.settings().binary_top_k == NEAREST,
        ids_differ(r@),
{
    InstantRecallIndex::new(InstantRecallConfig::default())
}

fn kept_items(items: &Vec<WorkingItem>, doc_id: &str) -> (r: Vec<WorkingItem>)
    ensures
        item_models(r@) == without_item(item_models(items@), doc_id@),
{
    let ghost all = item_models(items@);
    let mut kept: Vec<WorkingItem> = Vec::new();
    let mut i: usize = 0;
    assert(all.take(0) =~= Seq::empty());
    assert(item_models(kept@) =~= Seq::empty());
    while i < items.len()
        invariant
            i <= items@.len(),
            all == item_models(items@),
            item_models(kept@) == without_item(all.take(i as int), doc_id@),
        decreases items@.len() - i,
    {
        assert(all.take(i + 1).drop_last() =~= all.take(i as int));
        assert(all.take(i + 1).last() == items@[i as int]@);
        if !text_eq(items[i].doc_id.as_str(), doc_id) {
            let ghost before = item_models(kept@);
            let item: WorkingItem = WorkingItem {
                doc_id: items[i].doc_id.clone(),
                text: items[i].text.clone(),
                keywords: clone_texts(&items[i].keywords),
                age_seconds: items[i].age_seconds,
            };
            assert(item@ =~= items@[i as int]@);
            kept.push(item);
            assert(item_models(kept@) =~= before.push(item@));
        }
        i += 1;
    }
    assert(all.take(items@.len() as int) =~= all);
    kept
}

impl ProgressiveRetriever {
    #[verifier::type_invariant]
    closed spec fn inv(self) -> bool {
        &&& self.embedder.size() == EMBEDDING_SIZE
        &&& self.session_index.settings().binary_top_k == NEAREST
        &&& self.longterm_index.settings().binary_top_k == NEAREST
        &&& ids_differ(self.session_index@)
        &&& ids_differ(self.longterm_index@)
    }

    /// A retriever without memories.
    pub fn new(config: ProgressiveConfig) -> (r: Self)
        ensures
            r@ == (RetrieverModel {
                config,
                working: Seq::empty(),
                session: Seq::empty(),
                longterm: Seq::empty(),
            }),
    {
        let r: ProgressiveRetriever = ProgressiveRetriever {
            config,
            working_items: Vec::new(),
            session_index: empty_index(),
            longterm_index: empty_index(),
            embedder: TrigramEmbedder::new(EMBEDDING_SIZE),
        };
        assert(item_models(r.working_items@) =~= Seq::empty());
        r
    }

    /// Puts something at hand, with its keywords.
    pub fn add_working(&mut self, doc_id: String, text: String)
        ensures
            final(self)@ == (RetrieverModel {
                working: with_item(
                    old(self)@.working,
                    ItemModel {
                        doc_id: doc_id@,
                        text: text@,
                        keywords: keywords_of(runs(lowercase(text@), 0)),
                        age_seconds: 0,
                    },
                ),
                ..old(self)@
            }),
    {
        proof {
            use_type_invariant(&*self);
        }
        let keywords: Vec<String> = extract_keywords(text.as_str());
        let mut items: Vec<WorkingItem> = kept_items(&self.working_items, doc_id.as_str());
        let ghost kept = item_models(items@);
        let item: WorkingItem = WorkingItem { doc_id, text, keywords, age_seconds: 0 };
        items.push(item);
        let ghost all = kept.push(item@);
        assert(item_models(items@) =~= all);
        assert(all.skip(0) =~= all);
        while items.len() > MAX_WORKING
            invariant
                items@.len() <= all.len(),
                all.len() > MAX_WORKING ==> items@.len() >= MAX_WORKING,
                all.len() <= MAX_WORKING ==> items@.len() == all.len(),
                item_models(items@) == all.skip(all.len() - items@.len()),
            decreases items@.len(),
        {
            let ghost before = item_models(items@);
            let _ = items.remove(0);
            assert(item_models(items@) =~= before.skip(1));
            assert(before.skip(1) =~= all.skip(all.len() - items@.len()));
        }
        self.working_items = items;
    }

    /// Puts something away.
    pub fn remove_working(&mut self, doc_id: &str)
        ensures
            final(self)@ == (RetrieverModel {
                working: without_item(old(self)@.working, doc_id@),
                ..old(self)@
            }),
    {
        proof {
            use_type_invariant(&*self);
        }
        let items: Vec<WorkingItem> = kept_items(&self.working_items, doc_id);
        self.working_items = items;
    }

    /// Lets everything at hand grow older.
    pub fn tick_working(&mut self, elapsed_secs: u64)
        requires
            forall|i: int|
                0 <= i < old(self)@.working.len() ==> (
                #[trigger] old(self)@.working[i]).age_seconds + elapsed_secs <= u64::MAX,
        ensures
            final(self)@ == (RetrieverModel {
                working: old(self)@.working.map_values(
                    |x: ItemModel|
                        ItemModel { age_seconds: (x.age_seconds + elapsed_secs) as u64, ..x },
                ),
                ..old(self)@
            }),
    {
        proof {
            use_type_invariant(&*self);
        }
        let ghost all = self@.working;
        let ghost goal = all.map_values(
            |x: ItemModel| ItemModel { age_seconds: (x.age_seconds + elapsed_secs) as u64, ..x },
        );
        let mut items: Vec<WorkingItem> = Vec::new();
        std::mem::swap(&mut items, &mut self.working_items);
        let len: usize = items.len();
        let mut i: usize = 0;
        while i < len
            invariant
                i <= len == items@.len() == all.len(),
                goal == all.map_values(
                    |x: ItemModel|
                        ItemModel { age_seconds: (x.age_seconds + elapsed_secs) as u64, ..x },
                ),
                forall|k: int|
                    0 <= k < len ==> (#[trigger] all[k]).age_seconds + elapsed_secs <= u64::MAX,
                forall|k: int| 0 <= k < i ==> (#[trigger] items@[k])@ == goal[k],
                forall|k: int| i <= k < len ==> (#[trigger] items@[k])@ == all[k],
            decreases len - i,
        {
            assert(items@[i as int]@ == all[i as int]);
            let age: u64 = items[i].age_seconds + elapsed_secs;
            items[i].age_seconds = age;
            i += 1;
        }
        assert(item_models(items@) =~= goal);
        self.working_items = items;
    }

    /// Remembers something of the session.
    pub fn add_session(&mut self, doc_id: String, text: String)
        ensures
            final(self)@ == (RetrieverModel {
                session: with_text(old(self)@.session, doc_id@, text@),
                ..old(self)@
            }),
    {
        proof {
            use_type_invariant(&*self);
        }
        let components: Vec<u32> = self.embedder.encode(text.as_str());
        let mut index: InstantRecallIndex = empty_index();
        std::mem::swap(&mut index, &mut self.session_index);
        index.insert(doc_id, components, text);
        self.session_index = index;
    }

    /// Forgets something of the session.
    pub fn remove_session(&mut self, doc_id: &str)
        ensures
            final(self)@ == (RetrieverModel {
                session: without_entry(old(self)@.session, doc_id@),
                ..old(self)@
            }),
    {
        proof {
            use_type_invariant(&*self);
        }
        let mut index: InstantRecallIndex = empty_index();
        std::mem::swap(&mut index, &mut self.session_index);
        index.remove(doc_id);
        self.session_index = index;
    }

    /// Forgets the session.
    pub fn clear_session(&mut self)
        ensures
            final(self)@ == (RetrieverModel { session: Seq::empty(), ..old(self)@ }),
    {
        proof {
            use_type_invariant(&*self);
        }
        let index: InstantRecallIndex = empty_index();
        self.session_index = index;
    }

    /// Remembers something for long.
    pub fn add_longterm(&mut self, doc_id: String, text: String)
        ensures
            final(self)@ == (RetrieverModel {
                longterm: with_text(old(self)@.longterm, doc_id@, text@),
                ..old(self)@
            }),
    {
        proof {
            use_type_invariant(&*self);
        }
        let components: Vec<u32> = self.embedder.encode(text.as_str());
        let mut index: InstantRecallIndex = empty_index();
        std::mem::swap(&mut index, &mut self.longterm_index);
        index.insert(doc_id, components, text);
        self.longterm_index = index;
    }

    /// Forgets something that was remembered for long.
    pub fn remove_longterm(&mut self, doc_id: &str)
        ensures
            final(self)@ == (RetrieverModel {
                longterm: without_entry(old(self)@.longterm, doc_id@),
                ..old(self)@
            }),
    {
        proof {
            use_type_invariant(&*self);
        }
        let mut index: InstantRecallIndex = empty_index();
        std::mem::swap(&mut index, &mut self.longterm_index);
        index.remove(doc_id);
        self.longterm_index = index;
    }

    pub fn config(&self) -> (r: ProgressiveConfig)
        ensures
            r == self@.config,
    {
        self.config
    }

    /// What is at hand for a query in lower case: what shares a keyword with
    /// it, the first ones, with their scores before they are aged.
    pub fn search_working(&self, query_lower: &str) -> (r: Vec<MemoryEntry>)
        ensures
            memory_models(r@) == working_entries(
                self@.working,
                words(query_lower@),
                self@.config.working_limit as nat,
            ),
    {
        let query: Vec<String> = split_words(query_lower);
        let ghost items = self@.working;
        let limit: usize = self.config.working_limit;
        let mut out: Vec<MemoryEntry> = Vec::new();
        let mut i: usize = 0;
        assert(items.take(0) =~= Seq::empty());
        assert(memory_models(out@) =~= Seq::empty());
        while i < self.working_items.len()
            invariant
                i <= self.working_items@.len(),
                items == item_models(self.working_items@),
                string_views(query@) == words(query_lower@),
                memory_models(out@) == working_entries(
                    items.take(i as int),
                    words(query_lower@),
                    limit as nat,
                ),
            decreases self.working_items@.len() - i,
        {
            assert(items.take(i + 1).drop_last() =~= items.take(i as int));
            assert(items.take(i + 1).last() == self.working_items@[i as int]@);
            let item: &WorkingItem = &self.working_items[i];
            let met: usize = count_met(&item.keywords, &query);
            if met > 0 && out.len() < limit {
                let ghost before = memory_models(out@);
                let e: MemoryEntry = MemoryEntry {
                    doc_id: item.doc_id.clone(),
                    text: item.text.clone(),
                    score_bits: score_working(met, item.keywords.len()),
                    layer: MemoryLayer::Working,
                    age_seconds: item.age_seconds,
                };
                out.push(e);
                assert(memory_models(out@) =~= before.push(e@));
            }
            i += 1;
        }
        assert(items.take(items.len() as int) =~= items);
        out
    }

    /// What the layers give for a query, before it is aged.
    pub fn gather(&self, query: &str) -> (r: Vec<MemoryEntry>)
        ensures
            memory_models(r@) == gathered(self@, query@),
    {
        proof {
            use_type_invariant(self);
        }
        let query_lower: String = lower_text(query);
        let embedding: Vec<u32> = self.embedder.encode(query);
        proof {
            lemma_signature_len(embedding@);
        }
        let mut out: Vec<MemoryEntry> = self.search_working(query_lower.as_str());
        let session: Vec<RecallResult> = self.session_index.search(
            &embedding,
            self.config.session_limit,
        );
        push_layer(&mut out, &session, MemoryLayer::Session);
        let longterm: Vec<RecallResult> = self.longterm_index.search(
            &embedding,
            self.config.longterm_limit,
        );
        push_layer(&mut out, &longterm, MemoryLayer::LongTerm);
        out
    }

    /// How often the score of an entry is halved, if it fades.
    pub fn halvings(&self, entry: &MemoryEntry) -> (r: Option<u64>)
        ensures
            r == halvings_at(entry.age_seconds, self@.config.recency_half_life_secs),
    {
        let half_life: u64 = self.config.recency_half_life_secs;
        if entry.age_seconds > 0 && half_life > 0 {
            Some(divide_doubles(double_of(entry.age_seconds), double_of(half_life)))
        } else {
            None
        }
    }

    /// The best of what the layers gave: without what scores too little, one for
    /// each identifier. What fades is multiplied by what is left of it: the bits
    /// of a half to the power of its halvings.
    pub fn search(&self, entries: &Vec<MemoryEntry>, left: &Vec<u64>) -> (r: Vec<MemoryEntry>)
        requires
            left@.len() == entries@.len(),
        ensures
            memory_models(r@) == best_memories(
                merged(
                    faded(
                        memory_models(entries@),
                        left@,
                        self@.config.recency_half_life_secs,
                    ),
                    self@.config.min_score,
                ),
                self@.config.total_limit as int,
            ),
    {
        let ghost goal = faded(
            memory_models(entries@),
            left@,
            self@.config.recency_half_life_secs,
        );
        let mut all: Vec<MemoryEntry> = Vec::new();
        let mut i: usize = 0;
        while i < entries.len()
            invariant
                i <= entries@.len() == left@.len(),
                goal == faded(
                    memory_models(entries@),
                    left@,
                    self@.config.recency_half_life_secs,
                ),
                memory_models(all@) =~= goal.take(i as int),
            decreases entries@.len() - i,
        {
            let ghost before = memory_models(all@);
            let mut e: MemoryEntry = entries[i].clone();
            if self.halvings(&entries[i]).is_some() {
                e.score_bits = multiply_doubles(e.score_bits, left[i]);
            }
            assert(memory_models(entries@)[i as int] == entries@[i as int]@);
            assert(e@ =~= goal[i as int]);
            all.push(e);
            assert(memory_models(all@) =~= before.push(e@));
            i += 1;
        }
        assert(goal.take(entries@.len() as int) =~= goal);
        let kept: Vec<MemoryEntry> = merge_entries(&all, self.config.min_score);
        best_entries(&kept, self.config.total_limit)
    }

    /// The number of memories of each layer.
    pub fn total_entries(&self) -> (r: (usize, usize, usize))
        ensures
            r.0 == self@.working.len(),
            r.1 == self@.session.len(),
            r.2 == self@.longterm.len(),
    {
        (self.working_items.len(), self.session_index.len(), self.longterm_index.len())
    }
}

proof fn lemma_signature_len(embedding: Seq<u32>)
    requires
        embedding.len() == EMBEDDING_SIZE,
    ensures
        packed(sign_codes(embedding), 1, embedding.len()).len() <= 1024,
{
    assert(per_byte(1) == 8);
}

fn push_layer(out: &mut Vec<MemoryEntry>, found: &Vec<RecallResult>, layer: MemoryLayer)
    ensures
        memory_models(final(out)@) == memory_models(old(out)@) + layer_entries(
            result_models(found@),
            layer,
        ),
{
    let ghost before = memory_models(out@);
    let ghost more = layer_entries(result_models(found@), layer);
    let mut i: usize = 0;
    assert(before + more.take(0) =~= before);
    while i < found.len()
        invariant
            i <= found@.len(),
            more == layer_entries(result_models(found@), layer),
            memory_models(out@) == before + more.take(i as int),
        decreases found@.len() - i,
    {
        assert(result_models(found@)[i as int] == found@[i as int]@);
        let score: u64 = widen(found[i].score_bits);
        let e: MemoryEntry = MemoryEntry {
            doc_id: found[i].doc_id.clone(),
            text: found[i].text.clone(),
            score_bits: if layer == MemoryLayer::Session {
                double_twice(score)
            } else {
                score
            },
            layer,
            age_seconds: 0,
        };
        assert(e@ =~= more[i as int]);
        let ghost sofar = memory_models(out@);
        out.push(e);
        assert(memory_models(out@) =~= sofar.push(e@));
        assert(memory_models(out@) =~= before + more.take(i + 1));
        i += 1;
    }
    assert(more.take(found@.len() as int) =~= more);
}

fn clone_texts(v: &Vec<String>) -> (r: Vec<String>)
    ensures
        string_views(r@) == string_views(v@),
{
    let mut out: Vec<String> = Vec::new();
    let mut i: usize = 0;
    while i < v.len()
        invariant
            i <= v@.len(),
            string_views(out@) =~= string_views(v@).take(i as int),
        decreases v@.len() - i,
    {
        let ghost before = string_views(out@);
        let t: String = v[i].clone();
        out.push(t);
        assert(string_views(out@) =~= before.push(t@));
        i += 1;
    }
    assert(string_views(v@).take(v@.len() as int) =~= string_views(v@));
    out
}

proof fn lemma_memory_place(entries: Seq<MemoryModel>, doc_id: Seq<char>, at: int)
    requires
        0 <= at <= entries.len(),
        forall|i: int| 0 <= i < at ==> (#[trigger] entries[i]).doc_id != doc_id,
        at < entries.len() ==> entries[at].doc_id == doc_id,
    ensures
        memory_place(entries, doc_id) == at,
    decreases entries.len(),
{
    if at > 0 {
        let rest = entries.drop_first();
        assert forall|i: int| 0 <= i < at - 1 implies (#[trigger] rest[i]).doc_id != doc_id by {
            assert(rest[i] == entries[i + 1]);
        }
        assert(entries[0].doc_id != doc_id);
        lemma_memory_place(rest, doc_id, at - 1);
    }
}

fn find_memory(entries: &Vec<MemoryEntry>, doc_id: &str) -> (r: usize)
    ensures
        r == memory_place(memory_models(entries@), doc_id@),
        r <= entries@.len(),
{
    let ghost models = memory_models(entries@);
    let mut i: usize = 0;
    while i < entries.len() && !text_eq(entries[i].doc_id.as_str(), doc_id)
        invariant
            i <= entries@.len(),
            models == memory_models(entries@),
            forall|k: int| 0 <= k < i ==> (#[trigger] models[k]).doc_id != doc_id@,
        decreases entries@.len() - i,
    {
        assert(models[i as int] == entries@[i as int]@);
        i += 1;
    }
    proof {
        if i < entries@.len() {
            assert(models[i as int] == entries@[i as int]@);
        }
        lemma_memory_place(models, doc_id@, i as int);
    }
    i
}

fn merge_entries(entries: &Vec<MemoryEntry>, min: u64) -> (r: Vec<MemoryEntry>)
    ensures
        memory_models(r@) == merged(memory_models(entries@), min),
{
    let ghost models = memory_models(entries@);
    let mut out: Vec<MemoryEntry> = Vec::new();
    let mut i: usize = 0;
    assert(models.take(0) =~= Seq::empty());
    assert(memory_models(out@) =~= Seq::empty());
    while i < entries.len()
        invariant
            i <= entries@.len(),
            models == memory_models(entries@),
            memory_models(out@) == merged(models.take(i as int), min),
        decreases entries@.len() - i,
    {
        assert(models.take(i + 1).drop_last() =~= models.take(i as int));
        assert(models.take(i + 1).last() == entries@[i as int]@);
        if doubles_at_least(entries[i].score_bits, min) {
            let at: usize = find_memory(&out, entries[i].doc_id.as_str());
            let ghost before = memory_models(out@);
            let e: MemoryEntry = entries[i].clone();
            if at >= out.len() {
                out.push(e);
                assert(memory_models(out@) =~= before.push(e@));
            } else {
                assert(before[at as int] == out@[at as int]@);
                if doubles_less(out[at].score_bits, e.score_bits) {
                    out[at] = e;
                    assert(memory_models(out@) =~= before.update(at as int, e@));
                }
            }
        }
        i += 1;
    }
    assert(models.take(entries@.len() as int) =~= models);
    out
}

fn best_entries(entries: &Vec<MemoryEntry>, limit: usize) -> (r: Vec<MemoryEntry>)
    ensures
        memory_models(r@) == best_memories(memory_models(entries@), limit as int),
{
    let ghost models = memory_models(entries@);
    let ghost wanted = memory_candidates(models);
    let len: usize = entries.len();
    let mut cs: Vec<Candidate> = Vec::new();
    let mut i: usize = 0;
    while i < len
        invariant
            i <= len == entries@.len(),
            models == memory_models(entries@),
            wanted == memory_candidates(models),
            candidate_models(cs@) =~= wanted.take(i as int),
        decreases len - i,
    {
        let ghost before = candidate_models(cs@);
        assert(models[i as int] == entries@[i as int]@);
        let c: Candidate = Candidate {
            key: bits_double_key(entries[i].score_bits),
            id: String::new(),
            index: i,
        };
        cs.push(c);
        assert(c@ =~= wanted[i as int]);
        assert(candidate_models(cs@) =~= before.push(c@));
        i += 1;
    }
    assert(wanted.take(len as int) =~= wanted);
    let order: Vec<Candidate> = rank_candidates(cs);
    proof {
        lemma_ranked_places(wanted);
    }
    let n: usize = if limit < len {
        limit
    } else {
        len
    };
    let ghost goal = best_memories(models, limit as int);
    let mut out: Vec<MemoryEntry> = Vec::new();
    let mut k: usize = 0;
    while k < n
        invariant
            k <= n <= len == entries@.len(),
            n == goal.len(),
            models == memory_models(entries@),
            wanted == memory_candidates(models),
            goal == best_memories(models, limit as int),
            candidate_models(order@) == ranked(wanted),
            order@.len() == len,
            forall|j: int| 0 <= j < len ==> (#[trigger] ranked(wanted)[j]).index < len,
            memory_models(out@) =~= goal.take(k as int),
        decreases n - k,
    {
        let ghost before = memory_models(out@);
        assert(candidate_models(order@)[k as int] == order@[k as int]@);
        assert(ranked(wanted)[k as int].index < len);
        let at: usize = order[k].index;
        assert(models[at as int] == entries@[at as int]@);
        let e: MemoryEntry = entries[at].clone();
        out.push(e);
        assert(memory_models(out@) =~= before.push(e@));
        k += 1;
    }
    assert(goal.take(n as int) =~= goal);
    out
}

/// Fading never raises a score, and leaves everything else of an entry.
pub proof fn law_fading_raises_no_score(
    entries: Seq<MemoryModel>,
    left: Seq<u64>,
    half_life: u64,
    i: int,
)
    requires
        0 <= i < entries.len(),
        entries[i].score_bits < INFINITY,
        left[i] <= ONE,
    ensures
        faded(entries, left, half_life)[i].score_bits <= entries[i].score_bits,
        faded(entries, left, half_life)[i] == (MemoryModel {
            score_bits: faded(entries, left, half_life)[i].score_bits,
            ..entries[i]
        }),
{
    law_part_is_no_more(entries[i].score_bits, left[i]);
}

/// No identifier is recalled twice, and nothing that scores too little.
pub proof fn law_memories_are_distinct(entries: Seq<MemoryModel>, min: u64)
    ensures
        forall|i: int|
            0 <= i < merged(entries, min).len() ==> at_least_double(
                (#[trigger] merged(entries, min)[i]).score_bits,
                min,
            ),
        forall|i: int, j: int|
            0 <= i < j < merged(entries, min).len() ==> (#[trigger] merged(
                entries,
                min,
            )[i]).doc_id != (#[trigger] merged(entries, min)[j]).doc_id,
    decreases entries.len(),
{
    if entries.len() > 0 {
        let before = merged(entries.drop_last(), min);
        let e = entries.last();
        law_memories_are_distinct(entries.drop_last(), min);
        lemma_place_bounds(before, e.doc_id);
        let at = memory_place(before, e.doc_id);
        let after = merged(entries, min);
        assert forall|i: int, j: int| 0 <= i < j < after.len() implies (
        #[trigger] after[i]).doc_id != (#[trigger] after[j]).doc_id by {
            if i < before.len() && j < before.len() {
                assert(before[i].doc_id != before[j].doc_id);
                assert(after[i].doc_id == before[i].doc_id);
                assert(after[j].doc_id == before[j].doc_id);
            } else {
                assert(after[i] == before[i]);
            }
        }
    }
}

proof fn lemma_place_bounds(entries: Seq<MemoryModel>, doc_id: Seq<char>)
    ensures
        0 <= memory_place(entries, doc_id) <= entries.len(),
        forall|i: int|
            0 <= i < memory_place(entries, doc_id) ==> (#[trigger] entries[i]).doc_id != doc_id,
        memory_place(entries, doc_id) < entries.len() ==> entries[memory_place(
            entries,
            doc_id,
        )].doc_id == doc_id,
    decreases entries.len(),
{
    if entries.len() > 0 && entries[0].doc_id != doc_id {
        let rest = entries.drop_first();
        lemma_place_bounds(rest, doc_id);
        assert forall|i: int| 0 <= i < memory_place(entries, doc_id) implies (
        #[trigger] entries[i]).doc_id != doc_id by {
            if i > 0 {
                assert(entries[i] == rest[i - 1]);
            }
        }
    }
}

/// There are never more than 32 items at hand, and the last one put there is
/// the last of them.
pub proof fn law_working_memory_is_bounded(items: Seq<ItemModel>, x: ItemModel)
    ensures
        with_item(items, x).len() <= MAX_WORKING,
        with_item(items, x).last() == x,
{
}

} // verus!
