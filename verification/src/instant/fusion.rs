//! Fusion of ranked signals by reciprocal ranks, and what a second scorer makes
//! of the result. Scores are the bits of doubles.

use vstd::prelude::*;

use crate::bits::{bits_double_key, double_key};
use crate::double::{
    add_doubles, divide_doubles, double_of, integer_bits, quotient_bits, sum_bits, ONE,
};
use crate::order::{
    candidate_models, lemma_ranked_places, rank_candidates, ranked, Candidate, CandidateModel,
};
use crate::text::text_eq;

verus! {

/// Where a hit comes from.
#[derive(Clone, Copy, Debug, PartialEq, Eq, Hash, Structural)]
pub enum RetrievalSource {
    FullText,
    Vector,
    Graph,
    Custom,
}

/// A document that a signal found, with the signal's own score.
#[derive(Debug, PartialEq, Eq)]
pub struct RetrievalHit {
    pub doc_id: String,
    pub text: String,
    pub score_bits: u64,
    pub source: RetrievalSource,
}

#[verifier::ext_equal]
pub struct HitModel {
    pub doc_id: Seq<char>,
    pub text: Seq<char>,
    pub score_bits: u64,
    pub source: RetrievalSource,
}

impl View for RetrievalHit {
    type V = HitModel;

    open spec fn view(&self) -> HitModel {
        HitModel {
            doc_id: self.doc_id@,
            text: self.text@,
            score_bits: self.score_bits,
            source: self.source,
        }
    }
}

pub open spec fn hit_models(v: Seq<RetrievalHit>) -> Seq<HitModel> {
    v.map_values(|x: RetrievalHit| x@)
}

pub open spec fn signal_models(v: Seq<Vec<RetrievalHit>>) -> Seq<Seq<HitModel>> {
    v.map_values(|x: Vec<RetrievalHit>| hit_models(x@))
}

/// The weights that were given to sources.
#[derive(Clone, Copy, Debug, PartialEq, Eq, Structural)]
pub struct SourceWeights {
    pub full_text: Option<u64>,
    pub vector: Option<u64>,
    pub graph: Option<u64>,
    pub custom: Option<u64>,
}

/// The weight of a source: one if none was given.
pub open spec fn weight_bits(w: SourceWeights, s: RetrievalSource) -> u64 {
    let given = match s {
        RetrievalSource::FullText => w.full_text,
        RetrievalSource::Vector => w.vector,
        RetrievalSource::Graph => w.graph,
        RetrievalSource::Custom => w.custom,
    };
    match given {
        Some(bits) => bits,
        None => ONE,
    }
}

impl SourceWeights {
    /// Gives a weight to a source.
    pub fn insert(&mut self, source: RetrievalSource, bits: u64)
        ensures
            *final(self) == (match source {
                RetrievalSource::FullText => SourceWeights { full_text: Some(bits), ..*old(self) },
                RetrievalSource::Vector => SourceWeights { vector: Some(bits), ..*old(self) },
                RetrievalSource::Graph => SourceWeights { graph: Some(bits), ..*old(self) },
                RetrievalSource::Custom => SourceWeights { custom: Some(bits), ..*old(self) },
            }),
            weight_bits(*final(self), source) == bits,
    {
        match source {
            RetrievalSource::FullText => {
                self.full_text = Some(bits);
            },
            RetrievalSource::Vector => {
                self.vector = Some(bits);
            },
            RetrievalSource::Graph => {
                self.graph = Some(bits);
            },
            RetrievalSource::Custom => {
                self.custom = Some(bits);
            },
        }
    }

    /// The weight of a source.
    pub fn weight(&self, source: RetrievalSource) -> (r: u64)
        ensures
            r == weight_bits(*self, source),
    {
        let given: Option<u64> = match source {
            RetrievalSource::FullText => self.full_text,
            RetrievalSource::Vector => self.vector,
            RetrievalSource::Graph => self.graph,
            RetrievalSource::Custom => self.custom,
        };
        match given {
            Some(bits) => bits,
            None => ONE,
        }
    }
}

/// The settings of a fusion. The constant added to ranks is the bits of a
/// double.
#[derive(Clone, Copy, Debug, PartialEq, Eq, Structural)]
pub struct FusionConfig {
    pub rrf_k: u64,
    pub source_weights: SourceWeights,
    pub fusion_top_k: usize,
    pub final_top_k: usize,
}

impl Default for FusionConfig {
    /// Sixty is added to ranks, and every source weighs one.
    fn default() -> (r: Self)
        ensures
            r == (FusionConfig {
                rrf_k: 0x404e_0000_0000_0000,
                source_weights: SourceWeights {
                    full_text: Some(ONE),
                    vector: Some(ONE),
                    graph: Some(ONE),
                    custom: Some(ONE),
                },
                fusion_top_k: 50,
                final_top_k: 10,
            }),
    {
        FusionConfig {
            rrf_k: 0x404e_0000_0000_0000,
            source_weights: SourceWeights {
                full_text: Some(ONE),
                vector: Some(ONE),
                graph: Some(ONE),
                custom: Some(ONE),
            },
            fusion_top_k: 50,
            final_top_k: 10,
        }
    }
}

/// A rank, from one on, in a signal of a source.
#[derive(Clone, Copy, Debug, PartialEq, Eq, Structural)]
pub struct SourceRank {
    pub source: RetrievalSource,
    pub rank: usize,
}

/// A document at a rank.
#[verifier::ext_equal]
pub struct Placed {
    pub at: SourceRank,
    pub doc_id: Seq<char>,
    pub text: Seq<char>,
}

/// The documents of a signal. All are of the source of its first hit.
pub open spec fn signal_places(hits: Seq<HitModel>) -> Seq<Placed> {
    Seq::new(
        hits.len(),
        |i: int|
            Placed {
                at: SourceRank { source: hits[0].source, rank: (i + 1) as usize },
                doc_id: hits[i].doc_id,
                text: hits[i].text,
            },
    )
}

/// The documents of all signals, one signal after the other.
pub open spec fn all_places(signals: Seq<Seq<HitModel>>) -> Seq<Placed>
    decreases signals.len(),
{
    if signals.len() == 0 {
        Seq::empty()
    } else {
        all_places(signals.drop_last()) + signal_places(signals.last())
    }
}

/// What signals say of a document: the text that the first gave, every rank in
/// their order, and every source once.
#[derive(Debug, PartialEq, Eq)]
pub struct FusionDraft {
    pub doc_id: String,
    pub text: String,
    pub ranks: Vec<SourceRank>,
    pub sources: Vec<RetrievalSource>,
}

#[verifier::ext_equal]
pub struct DraftModel {
    pub doc_id: Seq<char>,
    pub text: Seq<char>,
    pub ranks: Seq<SourceRank>,
    pub sources: Seq<RetrievalSource>,
}

impl View for FusionDraft {
    type V = DraftModel;

    open spec fn view(&self) -> DraftModel {
        DraftModel {
            doc_id: self.doc_id@,
            text: self.text@,
            ranks: self.ranks@,
            sources: self.sources@,
        }
    }
}

pub open spec fn draft_models(v: Seq<FusionDraft>) -> Seq<DraftModel> {
    v.map_values(|x: FusionDraft| x@)
}

/// The place of a document among drafts, and the end if it has none.
pub open spec fn draft_place(drafts: Seq<DraftModel>, doc_id: Seq<char>) -> int
    decreases drafts.len(),
{
    if drafts.len() == 0 || drafts[0].doc_id == doc_id {
        0
    } else {
        1 + draft_place(drafts.drop_first(), doc_id)
    }
}

/// The sources with one more, unless it is among them.
pub open spec fn with_source(sources: Seq<RetrievalSource>, s: RetrievalSource) -> Seq<
    RetrievalSource,
> {
    if sources.contains(s) {
        sources
    } else {
        sources.push(s)
    }
}

/// The drafts with one more document at a rank.
pub open spec fn with_place(drafts: Seq<DraftModel>, p: Placed) -> Seq<DraftModel> {
    let at = draft_place(drafts, p.doc_id);
    if at < drafts.len() {
        let d = drafts[at];
        drafts.update(
            at,
            DraftModel {
                ranks: d.ranks.push(p.at),
                sources: with_source(d.sources, p.at.source),
                ..d
            },
        )
    } else {
        drafts.push(
            DraftModel {
                doc_id: p.doc_id,
                text: p.text,
                ranks: seq![p.at],
                sources: seq![p.at.source],
            },
        )
    }
}

/// The drafts of all documents, in the order in which they first come.
pub open spec fn drafts_of(places: Seq<Placed>) -> Seq<DraftModel>
    decreases places.len(),
{
    if places.len() == 0 {
        Seq::empty()
    } else {
        with_place(drafts_of(places.drop_last()), places.last())
    }
}

/// The ranks of a document, in their order.
pub open spec fn ranks_of(places: Seq<Placed>, doc_id: Seq<char>) -> Seq<SourceRank>
    decreases places.len(),
{
    if places.len() == 0 {
        Seq::empty()
    } else {
        let before = ranks_of(places.drop_last(), doc_id);
        if places.last().doc_id == doc_id {
            before.push(places.last().at)
        } else {
            before
        }
    }
}

/// What a rank adds to a score: the weight of its source divided by the
/// constant and the rank.
pub open spec fn contribution(c: FusionConfig, at: SourceRank) -> u64 {
    quotient_bits(
        weight_bits(c.source_weights, at.source),
        sum_bits(c.rrf_k, integer_bits(at.rank as nat)),
    )
}

/// The score of ranks: what they add up to, in their order.
pub open spec fn rank_score(c: FusionConfig, ranks: Seq<SourceRank>) -> u64
    decreases ranks.len(),
{
    if ranks.len() == 0 {
        0
    } else {
        sum_bits(rank_score(c, ranks.drop_last()), contribution(c, ranks.last()))
    }
}

/// A document of the fused ranking.
#[derive(Debug, PartialEq, Eq)]
pub struct FusedResult {
    pub doc_id: String,
    pub text: String,
    pub rrf_score: u64,
    pub sources: Vec<RetrievalSource>,
    pub rerank_score: Option<u64>,
}

#[verifier::ext_equal]
pub struct FusedModel {
    pub doc_id: Seq<char>,
    pub text: Seq<char>,
    pub rrf_score: u64,
    pub sources: Seq<RetrievalSource>,
    pub rerank_score: Option<u64>,
}

impl View for FusedResult {
    type V = FusedModel;

    open spec fn view(&self) -> FusedModel {
        FusedModel {
            doc_id: self.doc_id@,
            text: self.text@,
            rrf_score: self.rrf_score,
            sources: self.sources@,
            rerank_score: self.rerank_score,
        }
    }
}

pub open spec fn fused_models(v: Seq<FusedResult>) -> Seq<FusedModel> {
    v.map_values(|x: FusedResult| x@)
}

/// Drafts as candidates, the best score first, of equal scores the smaller
/// identifier.
pub open spec fn draft_candidates(drafts: Seq<DraftModel>, scores: Seq<u64>) -> Seq<
    CandidateModel,
> {
    Seq::new(
        drafts.len(),
        |i: int|
            CandidateModel {
                key: double_key(scores[i]) as i64,
                id: drafts[i].doc_id,
                index: i as usize,
            },
    )
}

/// What becomes of a draft with a score.
pub open spec fn fused_of(d: DraftModel, score: u64) -> FusedModel {
    FusedModel {
        doc_id: d.doc_id,
        text: d.text,
        rrf_score: score,
        sources: d.sources,
        rerank_score: None,
    }
}

/// The best drafts, no more than `limit`.
pub open spec fn best_drafts(drafts: Seq<DraftModel>, scores: Seq<u64>, limit: int) -> Seq<
    FusedModel,
> {
    let order = ranked(draft_candidates(drafts, scores));
    let n = if limit < drafts.len() {
        limit as nat
    } else {
        drafts.len()
    };
    Seq::new(n, |i: int| fused_of(drafts[order[i].index as int], scores[order[i].index as int]))
}

/// The scores of drafts.
pub open spec fn draft_scores(c: FusionConfig, drafts: Seq<DraftModel>) -> Seq<u64> {
    drafts.map_values(|d: DraftModel| rank_score(c, d.ranks))
}

/// The fused ranking of signals.
pub open spec fn fusion(signals: Seq<Seq<HitModel>>, c: FusionConfig) -> Seq<FusedModel> {
    let drafts = drafts_of(all_places(signals));
    best_drafts(drafts, draft_scores(c, drafts), c.fusion_top_k as int)
}

/// The results with the scores of a second scorer, as far as there are scores.
pub open spec fn rescored(fused: Seq<FusedModel>, scores: Seq<u64>) -> Seq<FusedModel> {
    Seq::new(
        fused.len(),
        |i: int|
            if i < scores.len() {
                FusedModel { rerank_score: Some(scores[i]), ..fused[i] }
            } else {
                fused[i]
            },
    )
}

/// The second score of a result: zero if it has none.
pub open spec fn second_score(f: FusedModel) -> u64 {
    match f.rerank_score {
        Some(bits) => bits,
        None => 0,
    }
}

/// Results as candidates, the best second score first.
pub open spec fn second_candidates(fused: Seq<FusedModel>) -> Seq<CandidateModel> {
    Seq::new(
        fused.len(),
        |i: int|
            CandidateModel {
                key: double_key(second_score(fused[i])) as i64,
                id: Seq::empty(),
                index: i as usize,
            },
    )
}

/// The results in the order of their second scores, of equal scores in the
/// order they had, no more than `limit`.
pub open spec fn reranked(fused: Seq<FusedModel>, scores: Seq<u64>, limit: int) -> Seq<FusedModel> {
    let all = rescored(fused, scores);
    let order = ranked(second_candidates(all));
    let n = if limit < all.len() {
        limit as nat
    } else {
        all.len()
    };
    Seq::new(n, |i: int| all[order[i].index as int])
}

pub proof fn lemma_draft_place(drafts: Seq<DraftModel>, doc_id: Seq<char>)
    ensures
        0 <= draft_place(drafts, doc_id) <= drafts.len(),
        forall|i: int|
            0 <= i < draft_place(drafts, doc_id) ==> (#[trigger] drafts[i]).doc_id != doc_id,
        draft_place(drafts, doc_id) < drafts.len() ==> drafts[draft_place(drafts, doc_id)].doc_id
            == doc_id,
    decreases drafts.len(),
{
    if drafts.len() > 0 && drafts[0].doc_id != doc_id {
        let rest = drafts.drop_first();
        lemma_draft_place(rest, doc_id);
        assert forall|i: int| 0 <= i < draft_place(drafts, doc_id) implies (
        #[trigger] drafts[i]).doc_id != doc_id by {
            if i > 0 {
                assert(drafts[i] == rest[i - 1]);
            }
        }
    }
}

fn find_draft(drafts: &Vec<FusionDraft>, doc_id: &str) -> (r: usize)
    ensures
        r == draft_place(draft_models(drafts@), doc_id@),
        r <= drafts@.len(),
{
    let ghost models = draft_models(drafts@);
    proof {
        lemma_draft_place(models, doc_id@);
    }
    let ghost p = draft_place(models, doc_id@);
    let mut i: usize = 0;
    while i < drafts.len() && !text_eq(drafts[i].doc_id.as_str(), doc_id)
        invariant
            i <= p <= drafts@.len(),
            models == draft_models(drafts@),
            p == draft_place(models, doc_id@),
            p < models.len() ==> models[p].doc_id == doc_id@,
        decreases drafts@.len() - i,
    {
        assert(models[i as int] == drafts@[i as int]@);
        i += 1;
    }
    proof {
        if i < drafts@.len() && i < p {
            lemma_draft_place(models, doc_id@);
            assert(models[i as int] == drafts@[i as int]@);
        }
    }
    i
}

fn holds_source(sources: &Vec<RetrievalSource>, s: RetrievalSource) -> (r: bool)
    ensures
        r == sources@.contains(s),
{
    let mut i: usize = 0;
    while i < sources.len()
        invariant
            i <= sources@.len(),
            forall|k: int| 0 <= k < i ==> #[trigger] sources@[k] != s,
        decreases sources@.len() - i,
    {
        if sources[i] == s {
            return true;
        }
        i += 1;
    }
    false
}

fn add_place(drafts: &mut Vec<FusionDraft>, at: SourceRank, doc_id: &str, text: &str)
    ensures
        draft_models(final(drafts)@) == with_place(
            draft_models(old(drafts)@),
            Placed { at, doc_id: doc_id@, text: text@ },
        ),
{
    let ghost before = draft_models(drafts@);
    let ghost p = Placed { at, doc_id: doc_id@, text: text@ };
    let i: usize = find_draft(drafts, doc_id);
    if i < drafts.len() {
        assert(before[i as int] == drafts@[i as int]@);
        drafts[i].ranks.push(at);
        if !holds_source(&drafts[i].sources, at.source) {
            drafts[i].sources.push(at.source);
        }
        assert(draft_models(drafts@) =~= with_place(before, p));
    } else {
        let mut ranks: Vec<SourceRank> = Vec::new();
        ranks.push(at);
        let mut sources: Vec<RetrievalSource> = Vec::new();
        sources.push(at.source);
        let d: FusionDraft = FusionDraft {
            doc_id: doc_id.to_owned(),
            text: text.to_owned(),
            ranks,
            sources,
        };
        assert(d.ranks@ =~= seq![at]);
        assert(d.sources@ =~= seq![at.source]);
        drafts.push(d);
        assert(draft_models(drafts@) =~= with_place(before, p));
    }
}

/// What the signals say of every document, in the order in which documents
/// first come.
pub fn collect_signals(signals: &Vec<Vec<RetrievalHit>>) -> (r: Vec<FusionDraft>)
    ensures
        draft_models(r@) == drafts_of(all_places(signal_models(signals@))),
{
    let ghost models = signal_models(signals@);
    let mut out: Vec<FusionDraft> = Vec::new();
    let mut s: usize = 0;
    assert(draft_models(out@) =~= Seq::empty());
    assert(models.take(0) =~= Seq::empty());
    while s < signals.len()
        invariant
            s <= signals@.len(),
            models == signal_models(signals@),
            draft_models(out@) == drafts_of(all_places(models.take(s as int))),
        decreases signals@.len() - s,
    {
        let hits: &Vec<RetrievalHit> = &signals[s];
        let ghost so_far = all_places(models.take(s as int));
        let ghost hs = hit_models(hits@);
        let ghost more = signal_places(hs);
        proof {
            assert(models.take(s + 1).drop_last() =~= models.take(s as int));
            assert(models.take(s + 1).last() == hs);
            assert(so_far + more.take(0) =~= so_far);
        }
        let mut i: usize = 0;
        while i < hits.len()
            invariant
                i <= hits@.len(),
                hs == hit_models(hits@),
                more == signal_places(hs),
                draft_models(out@) == drafts_of(so_far + more.take(i as int)),
            decreases hits@.len() - i,
        {
            let at: SourceRank = SourceRank { source: hits[0].source, rank: i + 1 };
            assert(hs[0] == hits@[0]@);
            assert(hs[i as int] == hits@[i as int]@);
            add_place(&mut out, at, hits[i].doc_id.as_str(), hits[i].text.as_str());
            proof {
                let next = so_far + more.take(i + 1);
                assert(next.drop_last() =~= so_far + more.take(i as int));
                assert(next.last() == more[i as int]);
            }
            i += 1;
        }
        assert(more.take(hits@.len() as int) =~= more);
        s += 1;
    }
    assert(models.take(signals@.len() as int) =~= models);
    out
}

/// The score of ranks.
pub fn score_ranks(c: &FusionConfig, ranks: &Vec<SourceRank>) -> (r: u64)
    ensures
        r == rank_score(*c, ranks@),
{
    let mut t: u64 = 0;
    let mut i: usize = 0;
    assert(ranks@.take(0) =~= Seq::empty());
    while i < ranks.len()
        invariant
            i <= ranks@.len(),
            t == rank_score(*c, ranks@.take(i as int)),
        decreases ranks@.len() - i,
    {
        assert(ranks@.take(i + 1).drop_last() =~= ranks@.take(i as int));
        let weight: u64 = c.source_weights.weight(ranks[i].source);
        let below: u64 = add_doubles(c.rrf_k, double_of(ranks[i].rank as u64));
        t = add_doubles(t, divide_doubles(weight, below));
        i += 1;
    }
    assert(ranks@.take(ranks@.len() as int) =~= ranks@);
    t
}

fn copy_sources(sources: &Vec<RetrievalSource>) -> (r: Vec<RetrievalSource>)
    ensures
        r@ == sources@,
{
    let mut out: Vec<RetrievalSource> = Vec::new();
    let mut i: usize = 0;
    while i < sources.len()
        invariant
            i <= sources@.len(),
            out@ =~= sources@.take(i as int),
        decreases sources@.len() - i,
    {
        out.push(sources[i]);
        i += 1;
    }
    out
}

/// The best drafts, each with its score, no more than `limit`.
pub fn rank_drafts(drafts: &Vec<FusionDraft>, scores: &Vec<u64>, limit: usize) -> (r: Vec<
    FusedResult,
>)
    requires
        drafts@.len() == scores@.len(),
    ensures
        fused_models(r@) == best_drafts(draft_models(drafts@), scores@, limit as int),
{
    let ghost models = draft_models(drafts@);
    let ghost wanted = draft_candidates(models, scores@);
    let len: usize = drafts.len();
    let mut cs: Vec<Candidate> = Vec::new();
    let mut i: usize = 0;
    while i < len
        invariant
            i <= len == drafts@.len() == scores@.len(),
            models == draft_models(drafts@),
            wanted == draft_candidates(models, scores@),
            candidate_models(cs@) =~= wanted.take(i as int),
        decreases len - i,
    {
        let ghost before = candidate_models(cs@);
        assert(models[i as int] == drafts@[i as int]@);
        let c: Candidate = Candidate {
            key: bits_double_key(scores[i]),
            id: drafts[i].doc_id.clone(),
            index: i,
        };
        cs.push(c);
        assert(c@ =~= wanted[i as int]);
        assert(candidate_models(cs@) =~= before.push(c@));
        i += 1;
    }
    assert(wanted.take(len as int) =~= wanted);
    let order: Vec<Candidate> = rank_candidates(cs);
    proof {
        lemma_ranked_places(wanted);
    }
    let n: usize = if limit < len {
        limit
    } else {
        len
    };
    let ghost goal = best_drafts(models, scores@, limit as int);
    let mut out: Vec<FusedResult> = Vec::new();
    let mut k: usize = 0;
    while k < n
        invariant
            k <= n <= len == drafts@.len() == scores@.len(),
            n == goal.len(),
            models == draft_models(drafts@),
            wanted == draft_candidates(models, scores@),
            goal == best_drafts(models, scores@, limit as int),
            candidate_models(order@) == ranked(wanted),
            order@.len() == len,
            forall|j: int| 0 <= j < len ==> (#[trigger] ranked(wanted)[j]).index < len,
            fused_models(out@) =~= goal.take(k as int),
        decreases n - k,
    {
        let ghost before = fused_models(out@);
        assert(candidate_models(order@)[k as int] == order@[k as int]@);
        assert(ranked(wanted)[k as int].index < len);
        let at: usize = order[k].index;
        assert(models[at as int] == drafts@[at as int]@);
        let f: FusedResult = FusedResult {
            doc_id: drafts[at].doc_id.clone(),
            text: drafts[at].text.clone(),
            rrf_score: scores[at],
            sources: copy_sources(&drafts[at].sources),
            rerank_score: None,
        };
        assert(f@ =~= goal[k as int]);
        out.push(f);
        assert(fused_models(out@) =~= before.push(f@));
        k += 1;
    }
    assert(goal.take(n as int) =~= goal);
    out
}

/// The fused ranking of signals: the score of a document is the sum, over the
/// signals that found it, of the weight of their source divided by the constant
/// and its rank.
pub fn reciprocal_rank_fusion(signals: &Vec<Vec<RetrievalHit>>, config: &FusionConfig) -> (r: Vec<
    FusedResult,
>)
    ensures
        fused_models(r@) == fusion(signal_models(signals@), *config),
{
    let drafts: Vec<FusionDraft> = collect_signals(signals);
    let ghost models = draft_models(drafts@);
    let mut scores: Vec<u64> = Vec::new();
    let mut i: usize = 0;
    while i < drafts.len()
        invariant
            i <= drafts@.len(),
            models == draft_models(drafts@),
            scores@ =~= draft_scores(*config, models).take(i as int),
        decreases drafts@.len() - i,
    {
        assert(models[i as int] == drafts@[i as int]@);
        scores.push(score_ranks(config, &drafts[i].ranks));
        i += 1;
    }
    assert(scores@ =~= draft_scores(*config, models));
    rank_drafts(&drafts, &scores, config.fusion_top_k)
}

} // verus!
