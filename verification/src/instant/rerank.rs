//! A second scorer over the fused ranking, and one that counts terms.

use vstd::prelude::*;

use super::fusion::{
    fused_models, fusion, reciprocal_rank_fusion, reranked, rescored, second_candidates,
    signal_models, FusedModel, FusedResult, FusionConfig, RetrievalHit, RetrievalSource,
};
use crate::bits::bits_double_key;
use crate::digest::texts;
use crate::double::NEGATIVE_ZERO;
use crate::float::{
    divide, is_number, number_two_to, plus, positive_double_bits, product, quotient, round_integer,
    rounded, sum, times, to_positive_double_bits, two_to, Number, Rounded,
};
use crate::keys::string_views;
use crate::order::{candidate_models, lemma_ranked_places, rank_candidates, ranked, Candidate};
use crate::shadow::matching::{lower_text, lowercase};
use crate::text::text_eq;
use crate::words::{split_words, words};

verus! {

/// A scorer of documents for a query.
pub trait CrossEncoder {
    /// The scores of documents, in their order: the greater, the better.
    fn score_batch(&self, query: &str, documents: &[&str]) -> (r: Vec<u64>);
}

/// The number of words that equal a term, whatever the case of their letters.
pub open spec fn term_count(term: Seq<char>, ws: Seq<Seq<char>>) -> nat
    decreases ws.len(),
{
    if ws.len() == 0 {
        0
    } else {
        term_count(term, ws.drop_last()) + if lowercase(ws.last()) == lowercase(term) {
            1nat
        } else {
            0
        }
    }
}

/// How fast more occurrences of a term stop to count: 1.2.
pub open spec fn saturation() -> Number {
    Number { m: 0x13_3333_3333_3333, e: -52 }
}

/// The part of a score that depends on the length of a document: three
/// quarters.
pub open spec fn length_part() -> Number {
    Number { m: 0x18_0000_0000_0000, e: -53 }
}

/// The number of words of documents, added up.
pub open spec fn total_words(documents: Seq<Seq<char>>) -> Number
    decreases documents.len(),
{
    if documents.len() == 0 {
        Number { m: 0, e: 0 }
    } else {
        sum(
            53,
            total_words(documents.drop_last()),
            rounded(53, words(documents.last()).len() as int, 1),
        )
    }
}

/// The mean number of words of documents.
pub open spec fn mean_words(documents: Seq<Seq<char>>) -> Number {
    quotient(
        53,
        total_words(documents),
        rounded(
            53,
            if documents.len() == 0 {
                1
            } else {
                documents.len() as int
            },
            1,
        ),
    )
}

/// What a term that occurs `count` times in a document of `length` words adds
/// to its score: nothing if it does not occur.
pub open spec fn term_score(count: nat, length: nat, mean: Number) -> Number {
    if count == 0 {
        Number { m: 0, e: 0 }
    } else {
        let n = rounded(53, count as int, 1);
        quotient(
            53,
            product(53, n, sum(53, saturation(), two_to(53, 0))),
            sum(
                53,
                n,
                product(
                    53,
                    saturation(),
                    sum(
                        53,
                        two_to(53, -2),
                        quotient(53, product(53, length_part(), rounded(53, length as int, 1)), mean),
                    ),
                ),
            ),
        )
    }
}

/// What terms add to the score of a document.
pub open spec fn terms_score(terms: Seq<Seq<char>>, ws: Seq<Seq<char>>, mean: Number) -> Number
    decreases terms.len(),
{
    if terms.len() == 0 {
        Number { m: 0, e: 0 }
    } else {
        sum(
            53,
            terms_score(terms.drop_last(), ws, mean),
            term_score(term_count(terms.last(), ws), ws.len(), mean),
        )
    }
}

/// The bits of the score of a document. A sum of nothing is the negative zero.
pub open spec fn count_score(terms: Seq<Seq<char>>, ws: Seq<Seq<char>>, mean: Number) -> u64 {
    if terms.len() == 0 {
        NEGATIVE_ZERO
    } else {
        positive_double_bits(terms_score(terms, ws, mean)) as u64
    }
}

/// The scores that counting terms gives to documents.
pub open spec fn count_scores(query: Seq<char>, documents: Seq<Seq<char>>) -> Seq<u64> {
    let mean = mean_words(documents);
    documents.map_values(|d: Seq<char>| count_score(words(query), words(d), mean))
}

fn count_term(term_lower: &str, ws: &Vec<String>, Ghost(term): Ghost<Seq<char>>) -> (r: usize)
    requires
        term_lower@ == lowercase(term),
    ensures
        r == term_count(term, string_views(ws@)),
        r <= ws@.len(),
{
    let ghost views = string_views(ws@);
    let mut n: usize = 0;
    let mut i: usize = 0;
    assert(views.take(0) =~= Seq::empty());
    while i < ws.len()
        invariant
            i <= ws@.len(),
            n <= i,
            views == string_views(ws@),
            term_lower@ == lowercase(term),
            n == term_count(term, views.take(i as int)),
        decreases ws@.len() - i,
    {
        assert(views.take(i + 1).drop_last() =~= views.take(i as int));
        assert(views.take(i + 1).last() == ws@[i as int]@);
        let lower: String = lower_text(ws[i].as_str());
        if text_eq(lower.as_str(), term_lower) {
            n += 1;
        }
        i += 1;
    }
    assert(views.take(ws@.len() as int) =~= views);
    n
}

fn count_words(documents: &[&str]) -> (r: Rounded)
    ensures
        r@ == total_words(texts(documents@)),
        is_number(53, r@),
        r.m >= 0,
        r.m > 0 ==> -52 <= r.e <= 69,
        r.m == 0 ==> r.e == 0,
        r.m == 0 ==> forall|i: int|
            0 <= i < documents@.len() ==> words(#[trigger] texts(documents@)[i]).len() == 0,
{
    let ghost all = texts(documents@);
    let mut t: Rounded = Rounded { m: 0, e: 0 };
    let mut i: usize = 0;
    assert(all.take(0) =~= Seq::empty());
    while i < documents.len()
        invariant
            i <= documents@.len(),
            all == texts(documents@),
            t@ == total_words(all.take(i as int)),
            is_number(53, t@),
            t.m >= 0,
            t.m > 0 ==> -52 <= t.e <= 69,
            t.m == 0 ==> t.e == 0,
            t.m == 0 ==> forall|k: int| 0 <= k < i ==> words(#[trigger] all[k]).len() == 0,
        decreases documents@.len() - i,
    {
        assert(all.take(i + 1).drop_last() =~= all.take(i as int));
        assert(all.take(i + 1).last() == documents@[i as int]@);
        let ws: Vec<String> = split_words(documents[i]);
        assert(string_views(ws@).len() == ws@.len());
        t = plus(53, t, round_integer(53, ws.len() as u64));
        i += 1;
    }
    assert(all.take(documents@.len() as int) =~= all);
    t
}

fn score_term(count: usize, length: usize, mean: Rounded) -> (r: Rounded)
    requires
        is_number(53, mean@),
        count > 0 ==> length > 0 && mean.m > 0,
        -200 <= mean.e <= 200,
    ensures
        r@ == term_score(count as nat, length as nat, mean@),
        is_number(53, r@),
        r.m >= 0,
        r.m > 0 ==> -700 <= r.e <= 100,
        r.m == 0 ==> r.e == 0,
{
    if count == 0 {
        return Rounded { m: 0, e: 0 };
    }
    proof {
        crate::float::lemma_pow2_values();
    }
    let k: Rounded = Rounded { m: 0x13_3333_3333_3333, e: -52 };
    let b: Rounded = Rounded { m: 0x18_0000_0000_0000, e: -53 };
    let n: Rounded = round_integer(53, count as u64);
    let over: Rounded = times(53, n, plus(53, k, number_two_to(53, 0)));
    let part: Rounded = divide(53, times(53, b, round_integer(53, length as u64)), mean);
    let under: Rounded = plus(53, n, times(53, k, plus(53, number_two_to(53, -2), part)));
    divide(53, over, under)
}

fn lower_terms(query: &str) -> (r: Vec<String>)
    ensures
        r@.len() == words(query@).len(),
        forall|i: int|
            0 <= i < r@.len() ==> (#[trigger] r@[i])@ == lowercase(words(query@)[i]),
{
    let terms: Vec<String> = split_words(query);
    let ghost views = string_views(terms@);
    let mut out: Vec<String> = Vec::new();
    let mut i: usize = 0;
    while i < terms.len()
        invariant
            i <= terms@.len(),
            out@.len() == i,
            views == string_views(terms@),
            views == words(query@),
            forall|k: int| 0 <= k < i ==> (#[trigger] out@[k])@ == lowercase(words(query@)[k]),
        decreases terms@.len() - i,
    {
        assert(views[i as int] == terms@[i as int]@);
        out.push(lower_text(terms[i].as_str()));
        i += 1;
    }
    assert(string_views(terms@).len() == terms@.len());
    out
}

fn score_terms(
    terms: &Vec<String>,
    ws: &Vec<String>,
    mean: Rounded,
    Ghost(query): Ghost<Seq<Seq<char>>>,
) -> (r: Rounded)
    requires
        terms@.len() == query.len(),
        forall|i: int| 0 <= i < terms@.len() ==> (#[trigger] terms@[i])@ == lowercase(query[i]),
        is_number(53, mean@),
        ws@.len() > 0 ==> mean.m > 0,
        -200 <= mean.e <= 200,
    ensures
        r@ == terms_score(query, string_views(ws@), mean@),
        is_number(53, r@),
        r.m >= 0,
        r.m > 0 ==> -700 <= r.e <= 160,
{
    let mut t: Rounded = Rounded { m: 0, e: 0 };
    let mut i: usize = 0;
    assert(query.take(0) =~= Seq::empty());
    while i < terms.len()
        invariant
            i <= terms@.len() == query.len(),
            forall|k: int|
                0 <= k < terms@.len() ==> (#[trigger] terms@[k])@ == lowercase(query[k]),
            is_number(53, mean@),
            ws@.len() > 0 ==> mean.m > 0,
            -200 <= mean.e <= 200,
            t@ == terms_score(query.take(i as int), string_views(ws@), mean@),
            is_number(53, t@),
            t.m >= 0,
            t.m > 0 ==> -700 <= t.e <= 160,
            t.m == 0 ==> t.e == 0,
        decreases terms@.len() - i,
    {
        assert(query.take(i + 1).drop_last() =~= query.take(i as int));
        assert(terms@[i as int]@ == lowercase(query[i as int]));
        let n: usize = count_term(terms[i].as_str(), ws, Ghost(query[i as int]));
        assert(string_views(ws@).len() == ws@.len());
        let x: Rounded = score_term(n, ws.len(), mean);
        t = plus(53, t, x);
        i += 1;
    }
    assert(query.take(query.len() as int) =~= query);
    t
}

/// A scorer that counts the terms of the query, for want of a better one.
#[derive(Clone, Copy, Debug, PartialEq, Eq, Structural)]
pub struct BM25CrossEncoder {}

impl Default for BM25CrossEncoder {
    fn default() -> (r: Self)
        ensures
            r == (BM25CrossEncoder {  }),
    {
        BM25CrossEncoder {  }
    }
}

impl BM25CrossEncoder {
    pub fn new() -> (r: Self)
        ensures
            r == (BM25CrossEncoder {  }),
    {
        BM25CrossEncoder {  }
    }
}

impl CrossEncoder for BM25CrossEncoder {
    fn score_batch(&self, query: &str, documents: &[&str]) -> (r: Vec<u64>)
        ensures
            r@ == count_scores(query@, texts(documents@)),
    {
        let terms: Vec<String> = lower_terms(query);
        let ghost all = texts(documents@);
        let n: u64 = if documents.len() == 0 {
            1
        } else {
            documents.len() as u64
        };
        let words_in_all: Rounded = count_words(documents);
        let mean: Rounded = divide(53, words_in_all, round_integer(53, n));
        let ghost goal = count_scores(query@, all);
        let mut out: Vec<u64> = Vec::new();
        let mut i: usize = 0;
        while i < documents.len()
            invariant
                i <= documents@.len(),
                all == texts(documents@),
                goal == count_scores(query@, all),
                mean@ == mean_words(all),
                is_number(53, mean@),
                -200 <= mean.e <= 200,
                mean.m >= 0,
                mean.m == 0 ==> forall|k: int|
                    0 <= k < documents@.len() ==> words(#[trigger] all[k]).len() == 0,
                terms@.len() == words(query@).len(),
                forall|k: int|
                    0 <= k < terms@.len() ==> (#[trigger] terms@[k])@ == lowercase(
                        words(query@)[k],
                    ),
                out@ =~= goal.take(i as int),
            decreases documents@.len() - i,
        {
            let ws: Vec<String> = split_words(documents[i]);
            assert(all[i as int] == documents@[i as int]@);
            assert(string_views(ws@).len() == ws@.len());
            let t: Rounded = score_terms(&terms, &ws, mean, Ghost(words(query@)));
            let bits: u64 = if terms.len() == 0 {
                NEGATIVE_ZERO
            } else {
                to_positive_double_bits(t)
            };
            assert(bits == goal[i as int]);
            out.push(bits);
            i += 1;
        }
        out
    }
}

fn copy_result(f: &FusedResult, second: Option<u64>) -> (r: FusedResult)
    ensures
        r@ == (FusedModel { rerank_score: second, ..f@ }),
{
    let mut sources: Vec<RetrievalSource> = Vec::new();
    let mut i: usize = 0;
    while i < f.sources.len()
        invariant
            i <= f.sources@.len(),
            sources@ =~= f.sources@.take(i as int),
        decreases f.sources@.len() - i,
    {
        sources.push(f.sources[i]);
        i += 1;
    }
    FusedResult {
        doc_id: f.doc_id.clone(),
        text: f.text.clone(),
        rrf_score: f.rrf_score,
        sources,
        rerank_score: second,
    }
}

/// The results in the order of the scores of a second scorer, no more than
/// `final_top_k`.
pub fn rerank(fused: &Vec<FusedResult>, scores: &Vec<u64>, final_top_k: usize) -> (r: Vec<
    FusedResult,
>)
    ensures
        fused_models(r@) == reranked(fused_models(fused@), scores@, final_top_k as int),
{
    let ghost models = fused_models(fused@);
    let ghost all = rescored(models, scores@);
    let ghost wanted = second_candidates(all);
    let len: usize = fused.len();
    let mut seconds: Vec<Option<u64>> = Vec::new();
    let mut cs: Vec<Candidate> = Vec::new();
    let mut i: usize = 0;
    while i < len
        invariant
            i <= len == fused@.len(),
            models == fused_models(fused@),
            all == rescored(models, scores@),
            wanted == second_candidates(all),
            seconds@.len() == i,
            forall|k: int| 0 <= k < i ==> #[trigger] seconds@[k] == all[k].rerank_score,
            candidate_models(cs@) =~= wanted.take(i as int),
        decreases len - i,
    {
        let ghost before = candidate_models(cs@);
        assert(models[i as int] == fused@[i as int]@);
        let second: Option<u64> = if i < scores.len() {
            Some(scores[i])
        } else {
            fused[i].rerank_score
        };
        let bits: u64 = match second {
            Some(b) => b,
            None => 0,
        };
        let c: Candidate = Candidate { key: bits_double_key(bits), id: String::new(), index: i };
        seconds.push(second);
        cs.push(c);
        assert(c@ =~= wanted[i as int]);
        assert(candidate_models(cs@) =~= before.push(c@));
        i += 1;
    }
    assert(wanted.take(len as int) =~= wanted);
    let order: Vec<Candidate> = rank_candidates(cs);
    proof {
        lemma_ranked_places(wanted);
    }
    let n: usize = if final_top_k < len {
        final_top_k
    } else {
        len
    };
    let ghost goal = reranked(models, scores@, final_top_k as int);
    let mut out: Vec<FusedResult> = Vec::new();
    let mut k: usize = 0;
    while k < n
        invariant
            k <= n <= len == fused@.len(),
            n == goal.len(),
            models == fused_models(fused@),
            all == rescored(models, scores@),
            wanted == second_candidates(all),
            goal == reranked(models, scores@, final_top_k as int),
            seconds@.len() == len,
            forall|j: int| 0 <= j < len ==> #[trigger] seconds@[j] == all[j].rerank_score,
            candidate_models(order@) == ranked(wanted),
            order@.len() == len,
            forall|j: int| 0 <= j < len ==> (#[trigger] ranked(wanted)[j]).index < len,
            fused_models(out@) =~= goal.take(k as int),
        decreases n - k,
    {
        let ghost before = fused_models(out@);
        assert(candidate_models(order@)[k as int] == order@[k as int]@);
        assert(ranked(wanted)[k as int].index < len);
        let at: usize = order[k].index;
        assert(models[at as int] == fused@[at as int]@);
        let f: FusedResult = copy_result(&fused[at], seconds[at]);
        assert(f@ =~= goal[k as int]);
        out.push(f);
        assert(fused_models(out@) =~= before.push(f@));
        k += 1;
    }
    assert(goal.take(n as int) =~= goal);
    out
}

/// The texts of results.
pub open spec fn result_texts(fused: Seq<FusedModel>) -> Seq<Seq<char>> {
    fused.map_values(|f: FusedModel| f.text)
}

/// Whether an encoder may give results this order: it scores their texts, and
/// they are ordered by the scores.
pub open spec fn may_rerank<E: CrossEncoder>(
    encoder: &E,
    query: &str,
    fused: Seq<FusedModel>,
    limit: int,
    after: Seq<FusedModel>,
) -> bool {
    exists|documents: &[&str], scores: Vec<u64>| #[trigger]
        call_ensures(E::score_batch, (encoder, query, documents), scores) && texts(documents@)
            == result_texts(fused) && after == reranked(fused, scores@, limit)
}

/// The results in the order of the scores of an encoder, no more than
/// `final_top_k`. Without results the encoder is not asked.
pub fn cross_encoder_rerank<E: CrossEncoder>(
    query: &str,
    fused: Vec<FusedResult>,
    encoder: &E,
    final_top_k: usize,
) -> (r: Vec<FusedResult>)
    ensures
        fused@.len() == 0 ==> r@.len() == 0,
        fused@.len() > 0 ==> may_rerank(
            encoder,
            query,
            fused_models(fused@),
            final_top_k as int,
            fused_models(r@),
        ),
{
    if fused.len() == 0 {
        return fused;
    }
    let mut documents: Vec<&str> = Vec::new();
    let mut i: usize = 0;
    while i < fused.len()
        invariant
            i <= fused@.len(),
            texts(documents@) =~= result_texts(fused_models(fused@)).take(i as int),
        decreases fused@.len() - i,
    {
        let ghost before = texts(documents@);
        documents.push(fused[i].text.as_str());
        assert(texts(documents@) =~= before.push(fused@[i as int].text@));
        i += 1;
    }
    let slice: &[&str] = documents.as_slice();
    assert(texts(slice@) =~= result_texts(fused_models(fused@)));
    let scores: Vec<u64> = encoder.score_batch(query, slice);
    rerank(&fused, &scores, final_top_k)
}

/// A fusion with an encoder behind it.
pub struct HybridSearchPipeline<E: CrossEncoder> {
    pub config: FusionConfig,
    pub cross_encoder: E,
}

/// Whether a pipeline may answer signals in this way.
pub open spec fn may_answer<E: CrossEncoder>(
    encoder: &E,
    query: &str,
    fused: Seq<FusedModel>,
    limit: int,
    after: Seq<FusedModel>,
) -> bool {
    if fused.len() == 0 {
        after.len() == 0
    } else {
        may_rerank(encoder, query, fused, limit, after)
    }
}

impl HybridSearchPipeline<BM25CrossEncoder> {
    /// A pipeline whose encoder counts terms.
    pub fn with_bm25_fallback(config: FusionConfig) -> (r: Self)
        ensures
            r.config == config,
            r.cross_encoder == (BM25CrossEncoder {  }),
    {
        HybridSearchPipeline { config, cross_encoder: BM25CrossEncoder::new() }
    }
}

impl<E: CrossEncoder> HybridSearchPipeline<E> {
    /// A pipeline with an encoder.
    pub fn with_encoder(config: FusionConfig, encoder: E) -> (r: Self)
        ensures
            r.config == config,
            r.cross_encoder == encoder,
    {
        HybridSearchPipeline { config, cross_encoder: encoder }
    }

    /// Fuses signals and lets the encoder order the result.
    pub fn execute(&self, query: &str, signals: &Vec<Vec<RetrievalHit>>) -> (r: Vec<FusedResult>)
        ensures
            may_answer(
                &self.cross_encoder,
                query,
                fusion(signal_models(signals@), self.config),
                self.config.final_top_k as int,
                fused_models(r@),
            ),
    {
        let fused: Vec<FusedResult> = reciprocal_rank_fusion(signals, &self.config);
        assert(fused_models(fused@).len() == fused@.len());
        cross_encoder_rerank(query, fused, &self.cross_encoder, self.config.final_top_k)
    }
}

/// The counting encoder can only give results one order.
pub proof fn law_counting_decides_the_order(
    encoder: &BM25CrossEncoder,
    query: &str,
    fused: Seq<FusedModel>,
    limit: int,
    after: Seq<FusedModel>,
)
    requires
        may_rerank(encoder, query, fused, limit, after),
    ensures
        after == reranked(fused, count_scores(query@, result_texts(fused)), limit),
{
}

} // verus!
