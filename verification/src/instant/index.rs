//! A flat index of two phases: the nearest signatures, then the best scores.

use vstd::prelude::*;

use super::config::InstantRecallConfig;
use crate::bits::{bits_value_key, value_key};
use crate::order::{
    candidate_models, lemma_ranked_places, rank_candidates, ranked, Candidate, CandidateModel,
};
use crate::quant::binary::{distance, hamming_distance, quantize_to_binary, sign_codes};
use crate::quant::packing::packed;
use crate::quant::products::{dot, dot_product};
use crate::text::text_eq;

verus! {

/// A document of the index: its signature and its embedding, whose components
/// are bits of numbers.
pub struct IndexEntry {
    pub doc_id: String,
    pub text: String,
    pub binary: Vec<u8>,
    pub components: Vec<u32>,
}

#[verifier::ext_equal]
pub struct EntryModel {
    pub doc_id: Seq<char>,
    pub text: Seq<char>,
    pub binary: Seq<u8>,
    pub components: Seq<u32>,
}

impl View for IndexEntry {
    type V = EntryModel;

    open spec fn view(&self) -> EntryModel {
        EntryModel {
            doc_id: self.doc_id@,
            text: self.text@,
            binary: self.binary@,
            components: self.components@,
        }
    }
}

pub open spec fn entry_models(v: Seq<IndexEntry>) -> Seq<EntryModel> {
    v.map_values(|e: IndexEntry| e@)
}

/// The entry of a document.
pub open spec fn entry_for(doc_id: Seq<char>, components: Seq<u32>, text: Seq<char>) -> EntryModel {
    EntryModel {
        doc_id,
        text,
        binary: packed(sign_codes(components), 1, components.len()),
        components,
    }
}

/// The first place of an identifier, and the end if there is none.
pub open spec fn place_of(entries: Seq<EntryModel>, doc_id: Seq<char>) -> int
    decreases entries.len(),
{
    if entries.len() == 0 || entries[0].doc_id == doc_id {
        0
    } else {
        1 + place_of(entries.drop_first(), doc_id)
    }
}

/// Whether no identifier occurs twice.
pub open spec fn ids_differ(entries: Seq<EntryModel>) -> bool {
    forall|i: int, j: int|
        0 <= i < j < entries.len() ==> (#[trigger] entries[i]).doc_id != (
        #[trigger] entries[j]).doc_id
}

/// The entries with a document: in the place it had, else at the end.
pub open spec fn with_entry(entries: Seq<EntryModel>, e: EntryModel) -> Seq<EntryModel> {
    let at = place_of(entries, e.doc_id);
    if at < entries.len() {
        entries.update(at, e)
    } else {
        entries.push(e)
    }
}

/// The entries without a document: the last one takes its place.
pub open spec fn without_entry(entries: Seq<EntryModel>, doc_id: Seq<char>) -> Seq<EntryModel> {
    let at = place_of(entries, doc_id);
    if at < entries.len() {
        entries.update(at, entries.last()).drop_last()
    } else {
        entries
    }
}

pub proof fn lemma_place_of(entries: Seq<EntryModel>, doc_id: Seq<char>)
    ensures
        0 <= place_of(entries, doc_id) <= entries.len(),
        forall|i: int|
            0 <= i < place_of(entries, doc_id) ==> (#[trigger] entries[i]).doc_id != doc_id,
        place_of(entries, doc_id) < entries.len() ==> entries[place_of(entries, doc_id)].doc_id
            == doc_id,
    decreases entries.len(),
{
    if entries.len() > 0 && entries[0].doc_id != doc_id {
        let rest = entries.drop_first();
        lemma_place_of(rest, doc_id);
        assert forall|i: int| 0 <= i < place_of(entries, doc_id) implies (
        #[trigger] entries[i]).doc_id != doc_id by {
            if i > 0 {
                assert(entries[i] == rest[i - 1]);
            }
        }
    }
}

proof fn lemma_place_unique(entries: Seq<EntryModel>, doc_id: Seq<char>, at: int)
    requires
        0 <= at <= entries.len(),
        forall|i: int| 0 <= i < at ==> (#[trigger] entries[i]).doc_id != doc_id,
        at < entries.len() ==> entries[at].doc_id == doc_id,
    ensures
        place_of(entries, doc_id) == at,
{
    lemma_place_of(entries, doc_id);
    let p = place_of(entries, doc_id);
    if p < at {
        assert(entries[p].doc_id != doc_id);
    }
    if at < p {
        assert(entries[at].doc_id != doc_id);
    }
}

/// After an insertion the document is found as it was inserted, every other
/// document as it was, and no identifier occurs twice.
pub proof fn law_insert_replaces(entries: Seq<EntryModel>, e: EntryModel, other: Seq<char>)
    requires
        ids_differ(entries),
    ensures
        ids_differ(with_entry(entries, e)),
        place_of(with_entry(entries, e), e.doc_id) < with_entry(entries, e).len(),
        with_entry(entries, e)[place_of(with_entry(entries, e), e.doc_id)] == e,
        other != e.doc_id && place_of(entries, other) < entries.len() ==> place_of(
            with_entry(entries, e),
            other,
        ) == place_of(entries, other) && with_entry(entries, e)[place_of(entries, other)]
            == entries[place_of(entries, other)],
{
    lemma_place_of(entries, e.doc_id);
    lemma_place_of(entries, other);
    let at = place_of(entries, e.doc_id);
    let after = with_entry(entries, e);
    assert forall|i: int, j: int| 0 <= i < j < after.len() implies (#[trigger] after[i]).doc_id != (
    #[trigger] after[j]).doc_id by {
        if i != at && j != at {
            assert(after[i] == entries[i]);
            assert(after[j] == entries[j]);
        } else if i == at {
            if at < entries.len() {
                assert(entries[i].doc_id != entries[j].doc_id);
            }
        } else {
            assert(after[i] == entries[i]);
            if at < entries.len() {
                assert(entries[i].doc_id != entries[j].doc_id);
            }
        }
    }
    lemma_place_unique(after, e.doc_id, at);
    let p = place_of(entries, other);
    if other != e.doc_id && p < entries.len() {
        assert forall|i: int| 0 <= i < p implies (#[trigger] after[i]).doc_id != other by {
            if i != at {
                assert(after[i] == entries[i]);
            }
        }
        lemma_place_unique(after, other, p);
    }
}

/// After a removal the document is not found, every other document is found as
/// it was, and no identifier occurs twice.
pub proof fn law_remove_keeps_the_rest(entries: Seq<EntryModel>, doc_id: Seq<char>, other: Seq<char>)
    requires
        ids_differ(entries),
    ensures
        ids_differ(without_entry(entries, doc_id)),
        place_of(without_entry(entries, doc_id), doc_id) == without_entry(entries, doc_id).len(),
        other != doc_id && place_of(entries, other) < entries.len() ==> place_of(
            without_entry(entries, doc_id),
            other,
        ) < without_entry(entries, doc_id).len() && without_entry(entries, doc_id)[place_of(
            without_entry(entries, doc_id),
            other,
        )] == entries[place_of(entries, other)],
{
    lemma_place_of(entries, doc_id);
    lemma_place_of(entries, other);
    let at = place_of(entries, doc_id);
    let n = entries.len();
    let after = without_entry(entries, doc_id);
    if at < n {
        assert forall|i: int, j: int| 0 <= i < j < after.len() implies (
        #[trigger] after[i]).doc_id != (#[trigger] after[j]).doc_id by {
            let x = if i == at {
                n - 1
            } else {
                i
            };
            let y = if j == at {
                n - 1
            } else {
                j
            };
            assert(after[i] == entries[x]);
            assert(after[j] == entries[y]);
            if x < y {
                assert(entries[x].doc_id != entries[y].doc_id);
            } else {
                assert(entries[y].doc_id != entries[x].doc_id);
            }
        }
        assert forall|i: int| 0 <= i < after.len() implies (#[trigger] after[i]).doc_id
            != doc_id by {
            let x = if i == at {
                n - 1
            } else {
                i
            };
            assert(after[i] == entries[x]);
            if x < at {
                assert(entries[x].doc_id != entries[at].doc_id);
            } else {
                assert(entries[at].doc_id != entries[x].doc_id);
            }
        }
        lemma_place_unique(after, doc_id, after.len() as int);
        let p = place_of(entries, other);
        if other != doc_id && p < n {
            let q = if p == n - 1 {
                at
            } else {
                p
            };
            assert(p != at);
            assert(after[q] == entries[p]);
            lemma_place_of(after, other);
            let z = place_of(after, other);
            if z < q {
                if z < after.len() {
                    assert(after[z].doc_id != after[q].doc_id);
                }
            }
            if q < z {
                assert(after[q].doc_id != other);
            }
        }
    } else {
        lemma_place_unique(after, doc_id, n as int);
    }
}

/// A document that a search found. The score is the bits of a single-precision
/// number.
#[derive(Debug, PartialEq, Eq)]
pub struct RecallResult {
    pub doc_id: String,
    pub text: String,
    pub score_bits: u32,
}

#[verifier::ext_equal]
pub struct ResultModel {
    pub doc_id: Seq<char>,
    pub text: Seq<char>,
    pub score_bits: u32,
}

impl View for RecallResult {
    type V = ResultModel;

    open spec fn view(&self) -> ResultModel {
        ResultModel { doc_id: self.doc_id@, text: self.text@, score_bits: self.score_bits }
    }
}

pub open spec fn result_models(v: Seq<RecallResult>) -> Seq<ResultModel> {
    v.map_values(|x: RecallResult| x@)
}

/// Entries as candidates, the nearest signature first.
pub open spec fn near_candidates(entries: Seq<EntryModel>, signature: Seq<u8>) -> Seq<
    CandidateModel,
> {
    Seq::new(
        entries.len(),
        |i: int|
            CandidateModel {
                key: (-(distance(signature, entries[i].binary) as int)) as i64,
                id: Seq::empty(),
                index: i as usize,
            },
    )
}

/// The first places in an order.
pub open spec fn first_places(cs: Seq<CandidateModel>, k: int) -> Seq<usize> {
    let order = ranked(cs);
    let n = if k < order.len() {
        k as nat
    } else {
        order.len()
    };
    Seq::new(n, |i: int| order[i].index)
}

/// Scored entries as candidates, the best score first.
pub open spec fn scored_candidates(scores: Seq<u32>) -> Seq<CandidateModel> {
    Seq::new(
        scores.len(),
        |i: int|
            CandidateModel {
                key: value_key(scores[i]) as i64,
                id: Seq::empty(),
                index: i as usize,
            },
    )
}

/// The results of scored entries: by score, of equal scores the first one.
pub open spec fn best_results(
    entries: Seq<EntryModel>,
    places: Seq<usize>,
    scores: Seq<u32>,
    k: int,
) -> Seq<ResultModel> {
    first_places(scored_candidates(scores), k).map_values(
        |i: usize|
            ResultModel {
                doc_id: entries[places[i as int] as int].doc_id,
                text: entries[places[i as int] as int].text,
                score_bits: scores[i as int],
            },
    )
}

/// The scores of the entries at places: the products of their embeddings with
/// that of the query.
pub open spec fn place_scores(
    entries: Seq<EntryModel>,
    places: Seq<usize>,
    query: Seq<u32>,
) -> Seq<u32> {
    places.map_values(
        |p: usize|
            dot(query, entries[p as int].components),
    )
}

/// The results of both phases for an embedding.
pub open spec fn embedded_results(
    entries: Seq<EntryModel>,
    binary_top_k: int,
    query: Seq<u32>,
    k: int,
) -> Seq<ResultModel> {
    let places = first_places(
        near_candidates(entries, packed(sign_codes(query), 1, query.len())),
        binary_top_k,
    );
    best_results(entries, places, place_scores(entries, places, query), k)
}

fn take_places(cs: Vec<Candidate>, k: usize) -> (r: Vec<usize>)
    ensures
        r@ == first_places(candidate_models(cs@), k as int),
{
    let ghost models = candidate_models(cs@);
    let order: Vec<Candidate> = rank_candidates(cs);
    proof {
        crate::order::law_ranked_is_in_order(models);
    }
    let len: usize = order.len();
    let n: usize = if k < len {
        k
    } else {
        len
    };
    let mut out: Vec<usize> = Vec::new();
    let mut i: usize = 0;
    while i < n
        invariant
            i <= n <= len == order@.len(),
            candidate_models(order@) == ranked(models),
            n == first_places(models, k as int).len(),
            out@ =~= first_places(models, k as int).take(i as int),
        decreases n - i,
    {
        assert(candidate_models(order@)[i as int] == order@[i as int]@);
        out.push(order[i].index);
        i += 1;
    }
    out
}

/// The index: entries, no two with one identifier.
pub struct InstantRecallIndex {
    config: InstantRecallConfig,
    entries: Vec<IndexEntry>,
}

impl View for InstantRecallIndex {
    type V = Seq<EntryModel>;

    closed spec fn view(&self) -> Seq<EntryModel> {
        entry_models(self.entries@)
    }
}

impl InstantRecallIndex {
    pub closed spec fn settings(&self) -> InstantRecallConfig {
        self.config
    }

    pub fn new(config: InstantRecallConfig) -> (r: Self)
        ensures
            r@ == Seq::<EntryModel>::empty(),
            r.settings() == config,
            ids_differ(r@),
    {
        let r: InstantRecallIndex = InstantRecallIndex { config, entries: Vec::new() };
        assert(entry_models(r.entries@) =~= Seq::empty());
        r
    }

    /// The number of documents.
    pub fn len(&self) -> (r: usize)
        ensures
            r == self@.len(),
    {
        self.entries.len()
    }

    pub fn is_empty(&self) -> (r: bool)
        ensures
            r == (self@.len() == 0),
    {
        self.entries.len() == 0
    }

    fn find(&self, doc_id: &str) -> (r: usize)
        ensures
            r == place_of(self@, doc_id@),
            r <= self@.len(),
    {
        let ghost models = self@;
        let mut i: usize = 0;
        while i < self.entries.len() && !text_eq(self.entries[i].doc_id.as_str(), doc_id)
            invariant
                i <= self.entries@.len(),
                models == entry_models(self.entries@),
                forall|k: int| 0 <= k < i ==> (#[trigger] models[k]).doc_id != doc_id@,
            decreases self.entries@.len() - i,
        {
            assert(models[i as int] == self.entries@[i as int]@);
            i += 1;
        }
        proof {
            if i < self.entries@.len() {
                assert(models[i as int] == self.entries@[i as int]@);
            }
            lemma_place_unique(models, doc_id@, i as int);
        }
        i
    }

    /// Inserts a document, or replaces the one with its identifier.
    pub fn insert(&mut self, doc_id: String, components: Vec<u32>, text: String)
        requires
            ids_differ(old(self)@),
            components@.len() + 8 <= usize::MAX,
        ensures
            final(self)@ == with_entry(old(self)@, entry_for(doc_id@, components@, text@)),
            final(self).settings() == old(self).settings(),
            ids_differ(final(self)@),
    {
        let ghost before = self@;
        let ghost e = entry_for(doc_id@, components@, text@);
        proof {
            law_insert_replaces(before, e, e.doc_id);
        }
        let at: usize = self.find(doc_id.as_str());
        let binary: Vec<u8> = quantize_to_binary(components.as_slice());
        let entry: IndexEntry = IndexEntry { doc_id, text, binary, components };
        assert(entry@ =~= e);
        if at < self.entries.len() {
            self.entries[at] = entry;
        } else {
            self.entries.push(entry);
        }
        assert(entry_models(self.entries@) =~= with_entry(before, e));
    }

    /// Takes a document out; the last one takes its place.
    pub fn remove(&mut self, doc_id: &str)
        requires
            ids_differ(old(self)@),
        ensures
            final(self)@ == without_entry(old(self)@, doc_id@),
            final(self).settings() == old(self).settings(),
            ids_differ(final(self)@),
    {
        let ghost before = self@;
        proof {
            law_remove_keeps_the_rest(before, doc_id@, doc_id@);
        }
        let at: usize = self.find(doc_id);
        if at < self.entries.len() {
            let _ = self.entries.swap_remove(at);
            assert(entry_models(self.entries@) =~= without_entry(before, doc_id@));
        }
    }

    /// Forgets all documents.
    pub fn clear(&mut self)
        ensures
            final(self)@ == Seq::<EntryModel>::empty(),
            final(self).settings() == old(self).settings(),
    {
        self.entries.clear();
        assert(entry_models(self.entries@) =~= Seq::empty());
    }

    /// First phase: the places of the documents with the nearest signatures.
    fn nearest(&self, query: &[u32]) -> (r: Vec<usize>)
        requires
            self@.len() > 0 ==> self.settings().binary_top_k > 0,
            query@.len() + 8 <= usize::MAX,
            8 * packed(sign_codes(query@), 1, query@.len()).len() <= u32::MAX,
        ensures
            r@ == first_places(
                near_candidates(self@, packed(sign_codes(query@), 1, query@.len())),
                self.settings().binary_top_k as int,
            ),
            forall|i: int| 0 <= i < r@.len() ==> #[trigger] r@[i] < self@.len(),
    {
        let signature: Vec<u8> = quantize_to_binary(query);
        let ghost wanted = near_candidates(self@, signature@);
        let len: usize = self.entries.len();
        let mut cs: Vec<Candidate> = Vec::new();
        let mut i: usize = 0;
        while i < len
            invariant
                i <= len == self.entries@.len(),
                self@ == entry_models(self.entries@),
                8 * signature@.len() <= u32::MAX,
                wanted == near_candidates(self@, signature@),
                candidate_models(cs@) =~= wanted.take(i as int),
            decreases len - i,
        {
            let ghost before = candidate_models(cs@);
            assert(self@[i as int] == self.entries@[i as int]@);
            let d: u32 = hamming_distance(
                signature.as_slice(),
                self.entries[i].binary.as_slice(),
            );
            let c: Candidate = Candidate { key: -(d as i64), id: String::new(), index: i };
            cs.push(c);
            assert(c@ =~= wanted[i as int]);
            assert(candidate_models(cs@) =~= before.push(c@));
            i += 1;
        }
        assert(wanted.take(len as int) =~= wanted);
        proof {
            lemma_ranked_places(wanted);
        }
        let out: Vec<usize> = take_places(cs, self.config.binary_top_k);
        assert forall|k: int| 0 <= k < out@.len() implies #[trigger] out@[k] < self@.len() by {
            assert(ranked(wanted)[k].index < wanted.len());
        }
        out
    }

    /// Second phase: the best of the documents at places, each with the bits
    /// of its score.
    fn rescore(&self, places: &Vec<usize>, scores: &Vec<u32>, top_k: usize) -> (r: Vec<
        RecallResult,
    >)
        requires
            places@.len() == scores@.len(),
            forall|i: int| 0 <= i < places@.len() ==> #[trigger] places@[i] < self@.len(),
        ensures
            result_models(r@) == best_results(self@, places@, scores@, top_k as int),
    {
        let ghost wanted = scored_candidates(scores@);
        let len: usize = scores.len();
        let mut cs: Vec<Candidate> = Vec::new();
        let mut i: usize = 0;
        while i < len
            invariant
                i <= len == scores@.len(),
                wanted == scored_candidates(scores@),
                candidate_models(cs@) =~= wanted.take(i as int),
            decreases len - i,
        {
            let ghost before = candidate_models(cs@);
            let c: Candidate = Candidate {
                key: bits_value_key(scores[i]),
                id: String::new(),
                index: i,
            };
            cs.push(c);
            assert(c@ =~= wanted[i as int]);
            assert(candidate_models(cs@) =~= before.push(c@));
            i += 1;
        }
        assert(wanted.take(len as int) =~= wanted);
        proof {
            lemma_ranked_places(wanted);
        }
        let best: Vec<usize> = take_places(cs, top_k);
        let ghost goal = best_results(self@, places@, scores@, top_k as int);
        let mut out: Vec<RecallResult> = Vec::new();
        let mut k: usize = 0;
        while k < best.len()
            invariant
                k <= best@.len(),
                len == scores@.len() == places@.len(),
                wanted == scored_candidates(scores@),
                best@ == first_places(wanted, top_k as int),
                ranked(wanted).len() == len,
                forall|j: int| 0 <= j < len ==> (#[trigger] ranked(wanted)[j]).index < len,
                forall|j: int| 0 <= j < places@.len() ==> #[trigger] places@[j] < self@.len(),
                self@ == entry_models(self.entries@),
                goal == best_results(self@, places@, scores@, top_k as int),
                result_models(out@) =~= goal.take(k as int),
            decreases best@.len() - k,
        {
            let ghost before = result_models(out@);
            let i: usize = best[k];
            assert(ranked(wanted)[k as int].index < len);
            let at: usize = places[i];
            assert(self@[at as int] == self.entries@[at as int]@);
            let x: RecallResult = RecallResult {
                doc_id: self.entries[at].doc_id.clone(),
                text: self.entries[at].text.clone(),
                score_bits: scores[i],
            };
            assert(x@ =~= goal[k as int]);
            out.push(x);
            assert(result_models(out@) =~= before.push(x@));
            k += 1;
        }
        assert(goal.take(best@.len() as int) =~= goal);
        out
    }

    /// The best documents for an embedding: of those with the nearest signatures
    /// the ones with the greatest products.
    pub fn search(&self, query_embedding: &Vec<u32>, top_k: usize) -> (r: Vec<RecallResult>)
        requires
            self@.len() > 0 ==> self.settings().binary_top_k > 0,
            query_embedding@.len() + 8 <= usize::MAX,
            8 * packed(
                sign_codes(query_embedding@),
                1,
                query_embedding@.len(),
            ).len() <= u32::MAX,
        ensures
            result_models(r@) == embedded_results(
                self@,
                self.settings().binary_top_k as int,
                query_embedding@,
                top_k as int,
            ),
    {
        let places: Vec<usize> = self.nearest(query_embedding.as_slice());
        let ghost goal = place_scores(self@, places@, query_embedding@);
        let mut scores: Vec<u32> = Vec::new();
        let mut i: usize = 0;
        while i < places.len()
            invariant
                i <= places@.len(),
                self@ == entry_models(self.entries@),
                goal == place_scores(self@, places@, query_embedding@),
                forall|k: int| 0 <= k < places@.len() ==> #[trigger] places@[k] < self@.len(),
                scores@ =~= goal.take(i as int),
            decreases places@.len() - i,
        {
            let at: usize = places[i];
            assert(places@[i as int] < self@.len());
            assert(self@[at as int] == self.entries@[at as int]@);
            scores.push(dot_product(query_embedding, &self.entries[at].components));
            i += 1;
        }
        assert(goal.take(places@.len() as int) =~= goal);
        self.rescore(&places, &scores, top_k)
    }
}

} // verus!
