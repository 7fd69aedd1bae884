//! The fused ranking of notes: one hit for each note, in a total order.

use vstd::prelude::*;

use super::blocks::{floor_index, lemma_floor_index};
use super::channel::{
    best_of, hit_ok, hit_views, opt_hit, set_best_channel, ChannelHit, HitModel,
};
use super::diagnostic::{describe, described, flag_string, flag_text};
use super::projection::{ChunkModel, ParagraphChunk};
use super::rank::{rank_policy_ok, ranks_ok, raw_rrf_rank_score, score_bits, RankFusionPolicy};
use super::store::{lemma_chunk_at, store_ok, ChunkStore, StoreModel};
use crate::digest::texts;
use crate::keys::string_views;
use crate::text::{
    byte_len, byte_off, char_utf8_len, chars_of, concat2, decimal, decimal_string,
    lemma_byte_off_mono, lemma_text_lt_irreflexive, lemma_text_lt_total, lemma_text_lt_transitive,
    order_text, str_byte_len, string_of, text_eq, text_lt, TextOrder,
};

verus! {

/// The bytes of a text that a snippet shows at most.
pub const SNIPPET_BYTES: usize = 160;

/// The snippet of a text: all of it, or as many characters as fit into the
/// limit and an ellipsis.
pub open spec fn snippet_of(text: Seq<char>) -> Seq<char> {
    if byte_len(text) <= SNIPPET_BYTES {
        text
    } else {
        text.take(floor_index(text, 0, text.len() as int, SNIPPET_BYTES as int)) + "…"@
    }
}

pub fn bounded_snippet(text: &str) -> (r: String)
    ensures
        r@ == snippet_of(text@),
{
    if str_byte_len(text) <= SNIPPET_BYTES {
        return text.to_owned();
    }
    let chars: Vec<char> = chars_of(text);
    let mut i: usize = 0;
    let mut at: usize = 0;
    while i < chars.len() && at + char_utf8_len(chars[i]) <= SNIPPET_BYTES
        invariant
            chars@ == text@,
            i <= chars@.len(),
            at == byte_off(text@, i as int),
            at <= SNIPPET_BYTES,
        decreases chars@.len() - i,
    {
        at += char_utf8_len(chars[i]);
        i += 1;
    }
    proof {
        let n = text@.len() as int;
        lemma_floor_index(text@, 0, n, SNIPPET_BYTES as int);
        let f = floor_index(text@, 0, n, SNIPPET_BYTES as int);
        if f > i {
            lemma_byte_off_mono(text@, i + 1, f);
        }
        if f < i {
            assert(byte_off(text@, i as int) > SNIPPET_BYTES);
        }
    }
    let head: String = string_of(&chars, 0, i);
    assert(head@ =~= text@.take(i as int));
    concat2(head.as_str(), "…")
}

/// A ranked note by its texts and numbers.
#[verifier::ext_equal]
pub struct RankedModel {
    pub note_id: Seq<char>,
    pub chunk_id: Seq<char>,
    pub title: Seq<char>,
    pub snippet: Seq<char>,
    pub rank_score_bits: u64,
    pub source: Seq<char>,
    pub lexical: Option<HitModel>,
    pub semantic: Option<HitModel>,
    pub rrf_rank_score_bits: u64,
    pub exact_lexical_title: bool,
}

/// What each channel had for a ranked note.
#[derive(Debug, PartialEq, Eq)]
pub struct RankEvidence {
    pub lexical: Option<ChannelHit>,
    pub semantic: Option<ChannelHit>,
    pub rrf_rank_score_bits: u64,
    pub exact_lexical_title: bool,
}

#[derive(PartialEq, Eq)]
pub struct RankedNoteHit {
    pub note_id: String,
    pub chunk_id: String,
    pub title: String,
    pub snippet: String,
    /// Ordering-only rank signal, as the bits of a double. Never render or
    /// threshold this as a probability until a measured corpus calibrates a
    /// display contract.
    pub rank_score_bits: u64,
    pub source: String,
    pub rank_evidence: RankEvidence,
}

impl View for RankedNoteHit {
    type V = RankedModel;

    open spec fn view(&self) -> RankedModel {
        RankedModel {
            note_id: self.note_id@,
            chunk_id: self.chunk_id@,
            title: self.title@,
            snippet: self.snippet@,
            rank_score_bits: self.rank_score_bits,
            source: self.source@,
            lexical: opt_hit(self.rank_evidence.lexical),
            semantic: opt_hit(self.rank_evidence.semantic),
            rrf_rank_score_bits: self.rank_evidence.rrf_rank_score_bits,
            exact_lexical_title: self.rank_evidence.exact_lexical_title,
        }
    }
}

/// What a log may say of a ranked note: its score, and which channels found it.
pub open spec fn ranked_diagnostic(
    rank_score_bits: nat,
    has_source_label: bool,
    has_lexical_evidence: bool,
    has_semantic_evidence: bool,
) -> Seq<char> {
    described(
        "RankedNoteHit"@,
        seq![
            "rank_score_bits"@,
            "has_source_label"@,
            "has_lexical_evidence"@,
            "has_semantic_evidence"@,
        ],
        seq![
            decimal(rank_score_bits),
            flag_text(has_source_label),
            flag_text(has_lexical_evidence),
            flag_text(has_semantic_evidence),
        ],
    )
}

impl RankedNoteHit {
    /// A description without any text of the note.
    pub fn diagnostic(&self) -> (r: String)
        ensures
            r@ == ranked_diagnostic(
                self@.rank_score_bits as nat,
                self@.source.len() > 0,
                self@.lexical is Some,
                self@.semantic is Some,
            ),
    {
        let labels: [&str; 4] = [
            "rank_score_bits",
            "has_source_label",
            "has_lexical_evidence",
            "has_semantic_evidence",
        ];
        let mut values: Vec<String> = Vec::new();
        values.push(decimal_string(self.rank_score_bits));
        values.push(flag_string(!self.source.as_str().is_empty()));
        values.push(flag_string(self.rank_evidence.lexical.is_some()));
        values.push(flag_string(self.rank_evidence.semantic.is_some()));
        assert(texts(labels@) =~= seq![
            "rank_score_bits"@,
            "has_source_label"@,
            "has_lexical_evidence"@,
            "has_semantic_evidence"@,
        ]);
        assert(string_views(values@) =~= seq![
            decimal(self@.rank_score_bits as nat),
            flag_text(self@.source.len() > 0),
            flag_text(self@.lexical is Some),
            flag_text(self@.semantic is Some),
        ]);
        describe("RankedNoteHit", &labels, &values)
    }
}

pub open spec fn ranked_views(hits: Seq<RankedNoteHit>) -> Seq<RankedModel> {
    hits.map_values(|h: RankedNoteHit| h@)
}

/// The order of ranked notes: an exact title first, then the score from high
/// to low, then the note and the chunk.
#[verifier::opaque]
pub open spec fn ranks_before(a: RankedModel, b: RankedModel) -> bool {
    ||| a.exact_lexical_title && !b.exact_lexical_title
    ||| a.exact_lexical_title == b.exact_lexical_title && {
        ||| a.rank_score_bits > b.rank_score_bits
        ||| a.rank_score_bits == b.rank_score_bits && {
            ||| text_lt(a.note_id, b.note_id)
            ||| a.note_id == b.note_id && text_lt(a.chunk_id, b.chunk_id)
        }
    }
}

/// The order of ranked notes is strict and transitive, and any two hits that
/// differ in note or chunk are in order one way or the other.
pub proof fn law_ranking_order_is_total(a: RankedModel, b: RankedModel, c: RankedModel)
    ensures
        !ranks_before(a, a),
        ranks_before(a, b) && ranks_before(b, c) ==> ranks_before(a, c),
        !(ranks_before(a, b) && ranks_before(b, a)),
        (a.note_id != b.note_id || a.chunk_id != b.chunk_id) ==> ranks_before(a, b)
            || ranks_before(b, a),
{
    reveal(ranks_before);
    lemma_text_lt_irreflexive(a.note_id);
    lemma_text_lt_irreflexive(a.chunk_id);
    lemma_text_lt_irreflexive(b.note_id);
    lemma_text_lt_irreflexive(b.chunk_id);
    lemma_text_lt_total(a.note_id, b.note_id);
    lemma_text_lt_total(a.chunk_id, b.chunk_id);
    if text_lt(a.note_id, b.note_id) && text_lt(b.note_id, c.note_id) {
        lemma_text_lt_transitive(a.note_id, b.note_id, c.note_id);
    }
    if text_lt(a.chunk_id, b.chunk_id) && text_lt(b.chunk_id, c.chunk_id) {
        lemma_text_lt_transitive(a.chunk_id, b.chunk_id, c.chunk_id);
    }
    if text_lt(a.note_id, b.note_id) && text_lt(b.note_id, a.note_id) {
        lemma_text_lt_transitive(a.note_id, b.note_id, a.note_id);
    }
    if text_lt(a.chunk_id, b.chunk_id) && text_lt(b.chunk_id, a.chunk_id) {
        lemma_text_lt_transitive(a.chunk_id, b.chunk_id, a.chunk_id);
    }
}

/// Whether one hit comes before another in the ranking.
pub fn is_better_hit(a: &RankedNoteHit, b: &RankedNoteHit) -> (r: bool)
    ensures
        r == ranks_before(a@, b@),
{
    reveal(ranks_before);
    let ea: bool = a.rank_evidence.exact_lexical_title;
    let eb: bool = b.rank_evidence.exact_lexical_title;
    if ea != eb {
        return ea;
    }
    if a.rank_score_bits != b.rank_score_bits {
        return a.rank_score_bits > b.rank_score_bits;
    }
    proof {
        lemma_text_lt_irreflexive(a.note_id@);
    }
    match order_text(a.note_id.as_str(), b.note_id.as_str()) {
        TextOrder::Before => true,
        TextOrder::After => false,
        TextOrder::Same => match order_text(a.chunk_id.as_str(), b.chunk_id.as_str()) {
            TextOrder::Before => true,
            _ => false,
        },
    }
}

/// The best of the first `n` hits for a chunk.
pub open spec fn channel_best(hits: Seq<HitModel>, n: int, id: Seq<char>) -> Option<HitModel>
    decreases n,
{
    if n <= 0 {
        None
    } else if hits[n - 1].chunk_id == id {
        Some(best_of(channel_best(hits, n - 1, id), hits[n - 1]))
    } else {
        channel_best(hits, n - 1, id)
    }
}

/// What a ranking is made of.
#[verifier::ext_equal]
pub struct RankInput {
    pub store: StoreModel,
    pub lexical: Seq<HitModel>,
    pub semantic: Seq<HitModel>,
    pub origin: Option<Seq<char>>,
    pub rrf_k: usize,
    pub semantic_available: bool,
}

pub open spec fn lexical_hit(x: RankInput, id: Seq<char>) -> Option<HitModel> {
    channel_best(x.lexical, x.lexical.len() as int, id)
}

pub open spec fn semantic_hit(x: RankInput, id: Seq<char>) -> Option<HitModel> {
    channel_best(x.semantic, x.semantic.len() as int, id)
}

/// The chunks that are ranked: stored, hit by a channel, and not of the note
/// that the search came from.
pub open spec fn is_candidate(x: RankInput, c: ChunkModel) -> bool {
    &&& x.store.chunks.contains(c)
    &&& lexical_hit(x, c.chunk_id) is Some || semantic_hit(x, c.chunk_id) is Some
    &&& x.origin != Some(c.note_id)
}

/// The ranks that a chunk has in the channels that hit it.
pub open spec fn candidate_ranks(lexical: Option<HitModel>, semantic: Option<HitModel>) -> Seq<
    usize,
> {
    match (lexical, semantic) {
        (Some(a), Some(b)) => seq![a.rank, b.rank],
        (Some(a), None) => seq![a.rank],
        (None, Some(b)) => seq![b.rank],
        (None, None) => Seq::empty(),
    }
}

/// The label of the channels that a hit comes from.
pub open spec fn source_label(lexical: bool, semantic: bool, available: bool) -> Seq<char> {
    if lexical && semantic {
        "hybrid"@
    } else if lexical && available {
        "lexical"@
    } else if lexical {
        "lexical-fallback"@
    } else {
        "semantic"@
    }
}

/// The hit that a chunk gives. Untrusted assertions never make an exact title.
pub open spec fn ranked_of(x: RankInput, c: ChunkModel) -> RankedModel {
    let lexical = lexical_hit(x, c.chunk_id);
    let semantic = semantic_hit(x, c.chunk_id);
    let bits = score_bits(candidate_ranks(lexical, semantic), x.rrf_k) as u64;
    RankedModel {
        note_id: c.note_id,
        chunk_id: c.chunk_id,
        title: c.title,
        snippet: snippet_of(c.text),
        rank_score_bits: bits,
        source: source_label(lexical is Some, semantic is Some, x.semantic_available),
        lexical,
        semantic,
        rrf_rank_score_bits: bits,
        exact_lexical_title: false,
    }
}

/// Whether a hit stands for a candidate in a list: the list holds a hit of
/// the same note that is at least as good.
pub open spec fn stands_for(out: Seq<RankedModel>, x: RankInput, c: ChunkModel) -> bool {
    exists|i: int|
        0 <= i < out.len() && (#[trigger] out[i]).note_id == c.note_id && !ranks_before(
            ranked_of(x, c),
            out[i],
        )
}

/// Hits of candidates, no two of the same note.
#[verifier::opaque]
pub open spec fn one_per_note(out: Seq<RankedModel>, x: RankInput) -> bool {
    &&& forall|i: int|
        0 <= i < out.len() ==> exists|c: ChunkModel|
            is_candidate(x, c) && #[trigger] out[i] == #[trigger] ranked_of(x, c)
    &&& forall|i: int, j: int|
        0 <= i < j < out.len() ==> (#[trigger] out[i]).note_id != (#[trigger] out[j]).note_id
}

/// The ranking of at most `limit` notes: the hits are in order, each is the
/// best of its note, and a note is left out only where the ranking is full of
/// better ones.
pub open spec fn is_ranking(out: Seq<RankedModel>, x: RankInput, limit: int) -> bool {
    &&& one_per_note(out, x)
    &&& out.len() <= limit
    &&& forall|i: int, j: int|
        0 <= i < j < out.len() ==> ranks_before(#[trigger] out[i], #[trigger] out[j])
    &&& forall|c: ChunkModel|
        #[trigger] is_candidate(x, c) ==> stands_for(out, x, c) || crowded_out(out, x, c, limit)
}

/// Whether a ranking is full of hits that come before a candidate.
pub open spec fn crowded_out(
    out: Seq<RankedModel>,
    x: RankInput,
    c: ChunkModel,
    limit: int,
) -> bool {
    &&& out.len() == limit
    &&& forall|i: int| 0 <= i < out.len() ==> ranks_before(#[trigger] out[i], ranked_of(x, c))
}

proof fn lemma_channel_best(hits: Seq<HitModel>, n: int, id: Seq<char>)
    requires
        0 <= n <= hits.len(),
    ensures
        channel_best(hits, n, id) matches Some(h) ==> exists|j: int|
            0 <= j < n && #[trigger] hits[j] == h && h.chunk_id == id,
        (exists|j: int| 0 <= j < n && (#[trigger] hits[j]).chunk_id == id) <==> channel_best(
            hits,
            n,
            id,
        ) is Some,
    decreases n,
{
    if n > 0 {
        lemma_channel_best(hits, n - 1, id);
        if hits[n - 1].chunk_id == id {
            assert(hits[n - 1].chunk_id == id);
        }
    }
}

/// The best hit of a channel for a chunk.
fn best_for(hits: &Vec<ChannelHit>, id: &str) -> (r: Option<ChannelHit>)
    ensures
        opt_hit(r) == channel_best(hit_views(hits@), hits@.len() as int, id@),
{
    let ghost views = hit_views(hits@);
    let mut slot: Option<ChannelHit> = None;
    let mut i: usize = 0;
    while i < hits.len()
        invariant
            views == hit_views(hits@),
            i <= hits@.len(),
            opt_hit(slot) == channel_best(views, i as int, id@),
        decreases hits@.len() - i,
    {
        assert(views[i as int] == hits@[i as int]@);
        if text_eq(hits[i].chunk_id.as_str(), id) {
            set_best_channel(&mut slot, &hits[i]);
        }
        i += 1;
    }
    slot
}

fn source_text(lexical: bool, semantic: bool, available: bool) -> (r: &'static str)
    ensures
        r@ == source_label(lexical, semantic, available),
{
    if lexical && semantic {
        "hybrid"
    } else if lexical && available {
        "lexical"
    } else if lexical {
        "lexical-fallback"
    } else {
        "semantic"
    }
}

/// The hit that a candidate gives.
fn rank_chunk(
    chunk: &ParagraphChunk,
    lexical_hits: &Vec<ChannelHit>,
    semantic_hits: &Vec<ChannelHit>,
    policy: &RankFusionPolicy,
    semantic_available: bool,
    Ghost(x): Ghost<RankInput>,
) -> (r: RankedNoteHit)
    requires
        x.lexical == hit_views(lexical_hits@),
        x.semantic == hit_views(semantic_hits@),
        x.semantic_available == semantic_available,
        x.rrf_k == policy.rrf_k,
        is_candidate(x, chunk@),
        rank_policy_ok(policy.version, policy.rrf_k),
        forall|i: int| 0 <= i < x.lexical.len() ==> hit_ok(#[trigger] x.lexical[i]),
        forall|i: int| 0 <= i < x.semantic.len() ==> hit_ok(#[trigger] x.semantic[i]),
    ensures
        r@ == ranked_of(x, chunk@),
{
    let lexical: Option<ChannelHit> = best_for(lexical_hits, chunk.chunk_id.as_str());
    let semantic: Option<ChannelHit> = best_for(semantic_hits, chunk.chunk_id.as_str());
    let mut ranks: Vec<usize> = Vec::new();
    if let Some(h) = &lexical {
        ranks.push(h.rank);
    }
    if let Some(h) = &semantic {
        ranks.push(h.rank);
    }
    proof {
        let id = chunk@.chunk_id;
        lemma_channel_best(x.lexical, x.lexical.len() as int, id);
        lemma_channel_best(x.semantic, x.semantic.len() as int, id);
        assert(ranks@ =~= candidate_ranks(lexical_hit(x, id), semantic_hit(x, id)));
        assert(ranks_ok(ranks@));
    }
    let bits: u64 = match raw_rrf_rank_score(ranks.as_slice(), policy) {
        Ok(b) => b,
        Err(_) => {
            assert(false);
            0
        },
    };
    let source: &str = source_text(lexical.is_some(), semantic.is_some(), semantic_available);
    RankedNoteHit {
        note_id: chunk.note_id.clone(),
        chunk_id: chunk.chunk_id.clone(),
        title: chunk.title.clone(),
        snippet: bounded_snippet(chunk.text.as_str()),
        rank_score_bits: bits,
        source: source.to_owned(),
        rank_evidence: RankEvidence {
            lexical,
            semantic,
            rrf_rank_score_bits: bits,
            exact_lexical_title: false,
        },
    }
}

/// Puts a hit into a list that has one hit for each note: in place of the hit
/// of its note if it is better, and behind all if its note has none.
fn keep_best(best: &mut Vec<RankedNoteHit>, hit: RankedNoteHit, Ghost(x): Ghost<RankInput>, Ghost(
    chunk,
): Ghost<ChunkModel>)
    requires
        one_per_note(ranked_views(old(best)@), x),
        is_candidate(x, chunk),
        hit@ == ranked_of(x, chunk),
    ensures
        one_per_note(ranked_views(final(best)@), x),
        stands_for(ranked_views(final(best)@), x, chunk),
        forall|c: ChunkModel|
            stands_for(ranked_views(old(best)@), x, c) ==> #[trigger] stands_for(
                ranked_views(final(best)@),
                x,
                c,
            ),
{
    let ghost before = ranked_views(best@);
    let ghost model = hit@;
    let mut i: usize = 0;
    while i < best.len() && best[i].note_id != hit.note_id
        invariant
            before == ranked_views(best@),
            i <= best@.len(),
            model == hit@,
            forall|k: int| 0 <= k < i ==> (#[trigger] before[k]).note_id != model.note_id,
        decreases best@.len() - i,
    {
        assert(before[i as int] == best@[i as int]@);
        i += 1;
    }
    if i < best.len() {
        assert(before[i as int] == best@[i as int]@);
        if is_better_hit(&hit, &best[i]) {
            best[i] = hit;
            proof {
                let after = ranked_views(best@);
                assert(after =~= before.update(i as int, model));
                lemma_replace_keeps(before, i as int, x, chunk);
            }
        } else {
            assert(before[i as int].note_id == chunk.note_id);
        }
    } else {
        best.push(hit);
        proof {
            let after = ranked_views(best@);
            assert(after =~= before.push(model));
            lemma_push_keeps(before, x, chunk);
        }
    }
}

proof fn lemma_push_keeps(before: Seq<RankedModel>, x: RankInput, chunk: ChunkModel)
    requires
        one_per_note(before, x),
        is_candidate(x, chunk),
        forall|k: int| 0 <= k < before.len() ==> (#[trigger] before[k]).note_id != chunk.note_id,
    ensures
        one_per_note(before.push(ranked_of(x, chunk)), x),
        stands_for(before.push(ranked_of(x, chunk)), x, chunk),
        forall|c: ChunkModel|
            stands_for(before, x, c) ==> #[trigger] stands_for(
                before.push(ranked_of(x, chunk)),
                x,
                c,
            ),
{
    reveal(one_per_note);
    let model = ranked_of(x, chunk);
    let after = before.push(model);
    law_ranking_order_is_total(model, model, model);
    assert(after[before.len() as int] == model);
    assert forall|c: ChunkModel| stands_for(before, x, c) implies #[trigger] stands_for(
        after,
        x,
        c,
    ) by {
        let i = choose|i: int|
            0 <= i < before.len() && (#[trigger] before[i]).note_id == c.note_id && !ranks_before(
                ranked_of(x, c),
                before[i],
            );
        assert(after[i] == before[i]);
    }
    assert forall|i: int| 0 <= i < after.len() implies exists|c: ChunkModel|
        is_candidate(x, c) && #[trigger] after[i] == #[trigger] ranked_of(x, c) by {
        if i < before.len() {
            assert(after[i] == before[i]);
            let c = choose|c: ChunkModel|
                is_candidate(x, c) && before[i] == #[trigger] ranked_of(x, c);
            assert(is_candidate(x, c) && after[i] == ranked_of(x, c));
        } else {
            assert(is_candidate(x, chunk) && after[i] == ranked_of(x, chunk));
        }
    }
    assert forall|i: int, j: int| 0 <= i < j < after.len() implies (#[trigger] after[i]).note_id != (
    #[trigger] after[j]).note_id by {
        assert(after[i] == before[i]);
        if j < before.len() {
            assert(after[j] == before[j]);
        }
    }
}

proof fn lemma_replace_keeps(before: Seq<RankedModel>, at: int, x: RankInput, chunk: ChunkModel)
    requires
        one_per_note(before, x),
        is_candidate(x, chunk),
        0 <= at < before.len(),
        before[at].note_id == chunk.note_id,
        ranks_before(ranked_of(x, chunk), before[at]),
    ensures
        one_per_note(before.update(at, ranked_of(x, chunk)), x),
        stands_for(before.update(at, ranked_of(x, chunk)), x, chunk),
        forall|c: ChunkModel|
            stands_for(before, x, c) ==> #[trigger] stands_for(
                before.update(at, ranked_of(x, chunk)),
                x,
                c,
            ),
{
    reveal(one_per_note);
    let model = ranked_of(x, chunk);
    let after = before.update(at, model);
    law_ranking_order_is_total(model, model, model);
    assert(after[at] == model);
    assert forall|c: ChunkModel| stands_for(before, x, c) implies #[trigger] stands_for(
        after,
        x,
        c,
    ) by {
        let i = choose|i: int|
            0 <= i < before.len() && (#[trigger] before[i]).note_id == c.note_id && !ranks_before(
                ranked_of(x, c),
                before[i],
            );
        law_ranking_order_is_total(ranked_of(x, c), model, before[at]);
        assert(after[i].note_id == c.note_id);
        assert(!ranks_before(ranked_of(x, c), after[i]));
    }
    assert forall|i: int| 0 <= i < after.len() implies exists|c: ChunkModel|
        is_candidate(x, c) && #[trigger] after[i] == #[trigger] ranked_of(x, c) by {
        if i == at {
            assert(is_candidate(x, chunk) && after[i] == ranked_of(x, chunk));
        } else {
            assert(after[i] == before[i]);
            let c = choose|c: ChunkModel|
                is_candidate(x, c) && before[i] == #[trigger] ranked_of(x, c);
            assert(is_candidate(x, c) && after[i] == ranked_of(x, c));
        }
    }
}

/// Keeps, for each note, the best hit of the chunks that one channel hit.
fn collect_channel(
    best: &mut Vec<RankedNoteHit>,
    which: &Vec<ChannelHit>,
    store: &ChunkStore,
    lexical_hits: &Vec<ChannelHit>,
    semantic_hits: &Vec<ChannelHit>,
    origin: Option<&str>,
    policy: &RankFusionPolicy,
    semantic_available: bool,
    Ghost(x): Ghost<RankInput>,
)
    requires
        store_ok(store@),
        x.store == store@,
        x.lexical == hit_views(lexical_hits@),
        x.semantic == hit_views(semantic_hits@),
        x.semantic_available == semantic_available,
        x.rrf_k == policy.rrf_k,
        x.origin == match origin {
            Some(o) => Some(o@),
            None => None,
        },
        rank_policy_ok(policy.version, policy.rrf_k),
        forall|i: int| 0 <= i < x.lexical.len() ==> hit_ok(#[trigger] x.lexical[i]),
        forall|i: int| 0 <= i < x.semantic.len() ==> hit_ok(#[trigger] x.semantic[i]),
        hit_views(which@) == x.lexical || hit_views(which@) == x.semantic,
        one_per_note(ranked_views(old(best)@), x),
    ensures
        one_per_note(ranked_views(final(best)@), x),
        forall|c: ChunkModel|
            stands_for(ranked_views(old(best)@), x, c) ==> #[trigger] stands_for(
                ranked_views(final(best)@),
                x,
                c,
            ),
        forall|c: ChunkModel, j: int|
            is_candidate(x, c) && 0 <= j < which@.len() && (#[trigger] hit_views(which@)[j]).chunk_id
                == c.chunk_id ==> #[trigger] stands_for(ranked_views(final(best)@), x, c),
{
    let ghost views = hit_views(which@);
    let ghost start = ranked_views(best@);
    let mut i: usize = 0;
    while i < which.len()
        invariant
            store_ok(store@),
            x.store == store@,
            x.lexical == hit_views(lexical_hits@),
            x.semantic == hit_views(semantic_hits@),
            x.semantic_available == semantic_available,
            x.rrf_k == policy.rrf_k,
            x.origin == match origin {
                Some(o) => Some(o@),
                None => None,
            },
            rank_policy_ok(policy.version, policy.rrf_k),
            forall|k: int| 0 <= k < x.lexical.len() ==> hit_ok(#[trigger] x.lexical[k]),
            forall|k: int| 0 <= k < x.semantic.len() ==> hit_ok(#[trigger] x.semantic[k]),
            views == hit_views(which@),
            views == x.lexical || views == x.semantic,
            i <= which@.len(),
            one_per_note(ranked_views(best@), x),
            forall|c: ChunkModel|
                stands_for(start, x, c) ==> #[trigger] stands_for(ranked_views(best@), x, c),
            forall|c: ChunkModel, j: int|
                is_candidate(x, c) && 0 <= j < i && (#[trigger] views[j]).chunk_id == c.chunk_id
                    ==> #[trigger] stands_for(ranked_views(best@), x, c),
        decreases which@.len() - i,
    {
        let ghost here = ranked_views(best@);
        let ghost id = views[i as int].chunk_id;
        assert(views[i as int] == which@[i as int]@);
        proof {
            lemma_chunk_at(store@, id);
            lemma_channel_best(x.lexical, x.lexical.len() as int, id);
            lemma_channel_best(x.semantic, x.semantic.len() as int, id);
        }
        match store.chunk(which[i].chunk_id.as_str()) {
            Some(chunk) => {
                let excluded: bool = match origin {
                    Some(o) => text_eq(chunk.note_id.as_str(), o),
                    None => false,
                };
                if !excluded {
                    assert(is_candidate(x, chunk@));
                    let hit: RankedNoteHit = rank_chunk(
                        chunk,
                        lexical_hits,
                        semantic_hits,
                        policy,
                        semantic_available,
                        Ghost(x),
                    );
                    keep_best(best, hit, Ghost(x), Ghost(chunk@));
                }
                proof {
                    assert forall|c: ChunkModel|
                        is_candidate(x, c) && c.chunk_id == id implies #[trigger] stands_for(
                        ranked_views(best@),
                        x,
                        c,
                    ) by {
                        let k = choose|k: int|
                            0 <= k < store@.chunks.len() && store@.chunks[k] == c;
                        assert(store@.chunks[k].chunk_id == id);
                        assert(c == chunk@);
                    }
                }
            },
            None => {
                proof {
                    assert forall|c: ChunkModel|
                        is_candidate(x, c) && c.chunk_id == id implies #[trigger] stands_for(
                        ranked_views(best@),
                        x,
                        c,
                    ) by {
                        let k = choose|k: int|
                            0 <= k < store@.chunks.len() && store@.chunks[k] == c;
                        assert(store@.chunks[k].chunk_id == id);
                        assert(false);
                    }
                }
            },
        }
        i += 1;
    }
}

/// Hits in the order of the ranking.
spec fn in_order(out: Seq<RankedModel>) -> bool {
    forall|i: int, j: int|
        0 <= i < j < out.len() ==> ranks_before(#[trigger] out[i], #[trigger] out[j])
}

/// Puts a hit of another note into its place.
fn insert_ranked(out: &mut Vec<RankedNoteHit>, hit: RankedNoteHit)
    requires
        in_order(ranked_views(old(out)@)),
        forall|i: int|
            0 <= i < old(out)@.len() ==> (#[trigger] ranked_views(old(out)@)[i]).note_id
                != hit@.note_id,
    ensures
        in_order(ranked_views(final(out)@)),
        ranked_views(final(out)@).len() == old(out)@.len() + 1,
        forall|m: RankedModel| #[trigger]
            ranked_views(final(out)@).contains(m) <==> m == hit@ || ranked_views(
                old(out)@,
            ).contains(m),
{
    let ghost before = ranked_views(out@);
    let ghost model = hit@;
    let mut at: usize = out.len();
    while at > 0 && is_better_hit(&hit, &out[at - 1])
        invariant
            before == ranked_views(out@),
            in_order(before),
            model == hit@,
            at <= out@.len(),
            forall|k: int| at <= k < before.len() ==> ranks_before(model, #[trigger] before[k]),
        decreases at,
    {
        assert(before[at - 1] == out@[at - 1]@);
        at -= 1;
    }
    proof {
        assert forall|k: int| 0 <= k < at implies ranks_before(#[trigger] before[k], model) by {
            assert(before[at - 1] == out@[at - 1]@);
            law_ranking_order_is_total(before[at - 1], model, model);
            assert(ranks_before(before[at - 1], model));
            if k < at - 1 {
                law_ranking_order_is_total(before[k], before[at - 1], model);
            }
        }
    }
    out.insert(at, hit);
    proof {
        let after = ranked_views(out@);
        assert(after =~= before.insert(at as int, model));
        assert forall|i: int, j: int| 0 <= i < j < after.len() implies ranks_before(
            #[trigger] after[i],
            #[trigger] after[j],
        ) by {
            let a = if i < at {
                before[i]
            } else if i == at {
                model
            } else {
                before[i - 1]
            };
            let b = if j < at {
                before[j]
            } else if j == at {
                model
            } else {
                before[j - 1]
            };
            assert(after[i] == a);
            assert(after[j] == b);
        }
        assert forall|m: RankedModel| #[trigger] after.contains(m) <==> m == model
            || before.contains(m) by {
            assert(after[at as int] == model);
            if before.contains(m) {
                let i = choose|i: int| 0 <= i < before.len() && before[i] == m;
                if i < at {
                    assert(after[i] == m);
                } else {
                    assert(after[i + 1] == m);
                }
            }
            if after.contains(m) && m != model {
                let i = choose|i: int| 0 <= i < after.len() && after[i] == m;
                if i < at {
                    assert(before[i] == m);
                } else {
                    assert(before[i - 1] == m);
                }
            }
        }
    }
}

/// The hits of different notes, in the order of the ranking.
fn sort_ranked(best: Vec<RankedNoteHit>, Ghost(x): Ghost<RankInput>) -> (r: Vec<RankedNoteHit>)
    requires
        one_per_note(ranked_views(best@), x),
    ensures
        in_order(ranked_views(r@)),
        forall|m: RankedModel| #[trigger]
            ranked_views(r@).contains(m) <==> ranked_views(best@).contains(m),
{
    let mut rest: Vec<RankedNoteHit> = best;
    let ghost all = ranked_views(rest@);
    let mut out: Vec<RankedNoteHit> = Vec::new();
    assert(ranked_views(out@) =~= Seq::empty());
    assert(forall|i: int, j: int|
        0 <= i < j < all.len() ==> (#[trigger] all[i]).note_id != (#[trigger] all[j]).note_id) by {
        reveal(one_per_note);
    }
    while rest.len() > 0
        invariant
            rest@.len() <= all.len(),
            ranked_views(rest@) == all.take(rest@.len() as int),
            in_order(ranked_views(out@)),
            forall|i: int, j: int|
                0 <= i < j < all.len() ==> (#[trigger] all[i]).note_id != (
                #[trigger] all[j]).note_id,
            forall|m: RankedModel| #[trigger]
                ranked_views(out@).contains(m) <==> all.skip(rest@.len() as int).contains(m),
        decreases rest@.len(),
    {
        let ghost n = rest@.len() as int;
        let ghost done = ranked_views(out@);
        let hit: RankedNoteHit = match rest.pop() {
            Some(h) => h,
            None => {
                assert(false);
                return out;
            },
        };
        let ghost model = hit@;
        proof {
            assert(all.take(n)[n - 1] == model);
            assert(all[n - 1] == model);
            assert(ranked_views(rest@) =~= all.take(n - 1));
            assert forall|i: int| 0 <= i < done.len() implies (#[trigger] done[i]).note_id
                != model.note_id by {
                assert(done.contains(done[i]));
                let k = choose|k: int|
                    0 <= k < all.skip(n).len() && all.skip(n)[k] == done[i];
                assert(all[n + k] == done[i]);
            }
        }
        insert_ranked(&mut out, hit);
        proof {
            let old_tail = all.skip(n);
            let tail = all.skip(n - 1);
            assert(tail =~= seq![model] + old_tail);
            assert forall|m: RankedModel| #[trigger] tail.contains(m) <==> m == model
                || old_tail.contains(m) by {
                assert(tail[0] == model);
                if old_tail.contains(m) {
                    let k = choose|k: int| 0 <= k < old_tail.len() && old_tail[k] == m;
                    assert(tail[k + 1] == m);
                }
                if tail.contains(m) && m != model {
                    let k = choose|k: int| 0 <= k < tail.len() && tail[k] == m;
                    assert(old_tail[k - 1] == m);
                }
            }
        }
    }
    assert(all.skip(0) =~= all);
    out
}

/// Ranks the notes whose chunks the channels hit.
pub fn rank_candidates(
    store: &ChunkStore,
    lexical_hits: &Vec<ChannelHit>,
    semantic_hits: &Vec<ChannelHit>,
    origin: Option<&str>,
    policy: &RankFusionPolicy,
    semantic_available: bool,
    limit: usize,
) -> (r: Vec<RankedNoteHit>)
    requires
        store_ok(store@),
        rank_policy_ok(policy.version, policy.rrf_k),
        forall|i: int|
            0 <= i < lexical_hits@.len() ==> hit_ok(#[trigger] hit_views(lexical_hits@)[i]),
        forall|i: int|
            0 <= i < semantic_hits@.len() ==> hit_ok(#[trigger] hit_views(semantic_hits@)[i]),
    ensures
        is_ranking(
            ranked_views(r@),
            (RankInput {
                store: store@,
                lexical: hit_views(lexical_hits@),
                semantic: hit_views(semantic_hits@),
                origin: match origin {
                    Some(o) => Some(o@),
                    None => None,
                },
                rrf_k: policy.rrf_k,
                semantic_available,
            }),
            limit as int,
        ),
{
    let ghost x = RankInput {
        store: store@,
        lexical: hit_views(lexical_hits@),
        semantic: hit_views(semantic_hits@),
        origin: match origin {
            Some(o) => Some(o@),
            None => None,
        },
        rrf_k: policy.rrf_k,
        semantic_available,
    };
    let mut best: Vec<RankedNoteHit> = Vec::new();
    assert(ranked_views(best@) =~= Seq::empty());
    assert(one_per_note(ranked_views(best@), x)) by {
        reveal(one_per_note);
    }
    collect_channel(
        &mut best,
        lexical_hits,
        store,
        lexical_hits,
        semantic_hits,
        origin,
        policy,
        semantic_available,
        Ghost(x),
    );
    let ghost half = ranked_views(best@);
    collect_channel(
        &mut best,
        semantic_hits,
        store,
        lexical_hits,
        semantic_hits,
        origin,
        policy,
        semantic_available,
        Ghost(x),
    );
    let ghost all = ranked_views(best@);
    proof {
        assert forall|c: ChunkModel| #[trigger] is_candidate(x, c) implies stands_for(
            all,
            x,
            c,
        ) by {
            let id = c.chunk_id;
            lemma_channel_best(x.lexical, x.lexical.len() as int, id);
            lemma_channel_best(x.semantic, x.semantic.len() as int, id);
            if lexical_hit(x, id) is Some {
                let j = choose|j: int|
                    0 <= j < x.lexical.len() && (#[trigger] x.lexical[j]).chunk_id == id;
                assert(hit_views(lexical_hits@)[j].chunk_id == c.chunk_id);
                assert(stands_for(half, x, c));
            } else {
                let j = choose|j: int|
                    0 <= j < x.semantic.len() && (#[trigger] x.semantic[j]).chunk_id == id;
                assert(hit_views(semantic_hits@)[j].chunk_id == c.chunk_id);
            }
        }
    }
    let mut out: Vec<RankedNoteHit> = sort_ranked(best, Ghost(x));
    let ghost whole = ranked_views(out@);
    out.truncate(limit);
    proof {
        let cut = ranked_views(out@);
        lemma_sorted_one_per_note(all, whole, x);
        assert forall|c: ChunkModel| #[trigger] is_candidate(x, c) implies stands_for(
            whole,
            x,
            c,
        ) by {
            lemma_sorted_stands_for(all, whole, x, c);
        }
        if whole.len() <= limit {
            assert(cut =~= whole);
        } else {
            assert(cut =~= whole.take(limit as int));
        }
        lemma_cut_ranking(whole, cut, x, limit as int);
    }
    out
}

/// Sorting keeps the hits.
proof fn lemma_sorted_one_per_note(all: Seq<RankedModel>, whole: Seq<RankedModel>, x: RankInput)
    requires
        one_per_note(all, x),
        in_order(whole),
        forall|m: RankedModel| #[trigger] whole.contains(m) <==> all.contains(m),
    ensures
        one_per_note(whole, x),
{
    reveal(one_per_note);
    assert forall|i: int| 0 <= i < whole.len() implies exists|c: ChunkModel|
        is_candidate(x, c) && #[trigger] whole[i] == #[trigger] ranked_of(x, c) by {
        assert(whole.contains(whole[i]));
        let k = choose|k: int| 0 <= k < all.len() && all[k] == whole[i];
        let c = choose|c: ChunkModel| is_candidate(x, c) && all[k] == #[trigger] ranked_of(x, c);
        assert(is_candidate(x, c) && whole[i] == ranked_of(x, c));
    }
    assert forall|i: int, j: int| 0 <= i < j < whole.len() implies (#[trigger] whole[i]).note_id != (
    #[trigger] whole[j]).note_id by {
        assert(whole.contains(whole[i]));
        assert(whole.contains(whole[j]));
        let k = choose|k: int| 0 <= k < all.len() && all[k] == whole[i];
        let m = choose|m: int| 0 <= m < all.len() && all[m] == whole[j];
        law_ranking_order_is_total(whole[i], whole[j], whole[j]);
        assert(ranks_before(whole[i], whole[j]));
        assert(k != m);
        if k < m {
            assert(all[k].note_id != all[m].note_id);
        } else {
            assert(all[m].note_id != all[k].note_id);
        }
    }
}

/// What stands for a candidate still does after sorting.
proof fn lemma_sorted_stands_for(
    all: Seq<RankedModel>,
    whole: Seq<RankedModel>,
    x: RankInput,
    c: ChunkModel,
)
    requires
        forall|m: RankedModel| #[trigger] whole.contains(m) <==> all.contains(m),
        stands_for(all, x, c),
    ensures
        stands_for(whole, x, c),
{
    let k = choose|k: int|
        0 <= k < all.len() && (#[trigger] all[k]).note_id == c.note_id && !ranks_before(
            ranked_of(x, c),
            all[k],
        );
    assert(all.contains(all[k]));
    assert(whole.contains(all[k]));
    let i = choose|i: int| 0 <= i < whole.len() && whole[i] == all[k];
    assert(whole[i].note_id == c.note_id);
}

/// Cutting a sorted list leaves out only what comes after all that stays.
proof fn lemma_cut_ranking(
    whole: Seq<RankedModel>,
    cut: Seq<RankedModel>,
    x: RankInput,
    limit: int,
)
    requires
        one_per_note(whole, x),
        in_order(whole),
        forall|c: ChunkModel| #[trigger] is_candidate(x, c) ==> stands_for(whole, x, c),
        0 <= limit,
        cut == if whole.len() <= limit {
            whole
        } else {
            whole.take(limit)
        },
    ensures
        is_ranking(cut, x, limit),
{
    assert(one_per_note(cut, x)) by {
        lemma_cut_one_per_note(whole, cut, x, limit);
    }
    assert forall|i: int, j: int| 0 <= i < j < cut.len() implies ranks_before(
        #[trigger] cut[i],
        #[trigger] cut[j],
    ) by {
        assert(cut[i] == whole[i]);
        assert(cut[j] == whole[j]);
    }
    assert forall|c: ChunkModel| #[trigger] is_candidate(x, c) implies stands_for(cut, x, c)
        || crowded_out(cut, x, c, limit) by {
        lemma_cut_candidate(whole, cut, x, limit, c);
    }
}

proof fn lemma_cut_one_per_note(
    whole: Seq<RankedModel>,
    cut: Seq<RankedModel>,
    x: RankInput,
    limit: int,
)
    requires
        one_per_note(whole, x),
        0 <= limit,
        cut == if whole.len() <= limit {
            whole
        } else {
            whole.take(limit)
        },
    ensures
        one_per_note(cut, x),
{
    reveal(one_per_note);
    assert forall|i: int| 0 <= i < cut.len() implies exists|c: ChunkModel|
        is_candidate(x, c) && #[trigger] cut[i] == #[trigger] ranked_of(x, c) by {
        assert(cut[i] == whole[i]);
        let c = choose|c: ChunkModel| is_candidate(x, c) && whole[i] == #[trigger] ranked_of(x, c);
        assert(is_candidate(x, c) && cut[i] == ranked_of(x, c));
    }
    assert forall|i: int, j: int| 0 <= i < j < cut.len() implies (#[trigger] cut[i]).note_id != (
    #[trigger] cut[j]).note_id by {
        assert(cut[i] == whole[i]);
        assert(cut[j] == whole[j]);
    }
}

proof fn lemma_cut_candidate(
    whole: Seq<RankedModel>,
    cut: Seq<RankedModel>,
    x: RankInput,
    limit: int,
    c: ChunkModel,
)
    requires
        in_order(whole),
        one_per_note(whole, x),
        stands_for(whole, x, c),
        0 <= limit,
        cut == if whole.len() <= limit {
            whole
        } else {
            whole.take(limit)
        },
    ensures
        stands_for(cut, x, c) || crowded_out(cut, x, c, limit),
{
    reveal(one_per_note);
    let rc = ranked_of(x, c);
    assert(rc.note_id == c.note_id);
    let k = choose|k: int|
        0 <= k < whole.len() && (#[trigger] whole[k]).note_id == c.note_id && !ranks_before(
            rc,
            whole[k],
        );
    if k < cut.len() {
        assert(cut[k] == whole[k]);
    } else {
        assert forall|i: int| 0 <= i < cut.len() implies ranks_before(#[trigger] cut[i], rc) by {
            assert(cut[i] == whole[i]);
            assert(ranks_before(whole[i], whole[k]));
            assert(whole[i].note_id != whole[k].note_id);
            law_ranking_order_is_total(whole[i], rc, whole[k]);
            law_ranking_order_is_total(rc, whole[i], whole[k]);
        }
    }
}

} // verus!
