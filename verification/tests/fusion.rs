use epistemos_recall::double::{add_doubles, divide_doubles, double_of, multiply_doubles};
use epistemos_recall::instant::fusion::{
    collect_signals, rank_drafts, reciprocal_rank_fusion, score_ranks, FusedResult, FusionConfig,
    RetrievalHit, RetrievalSource, SourceRank,
};
use epistemos_recall::instant::rerank::{
    cross_encoder_rerank, rerank, BM25CrossEncoder, CrossEncoder, HybridSearchPipeline,
};

fn hit(id: &str, text: &str, score: f64, source: RetrievalSource) -> RetrievalHit {
    RetrievalHit {
        doc_id: id.into(),
        text: text.into(),
        score_bits: score.to_bits(),
        source,
    }
}

fn make_fts_hits() -> Vec<RetrievalHit> {
    let source = RetrievalSource::FullText;
    vec![
        hit("doc-a", "Rust systems programming", 5.0, source),
        hit("doc-b", "Swift macOS development", 4.0, source),
        hit("doc-c", "Python data science", 3.0, source),
    ]
}

fn make_vector_hits() -> Vec<RetrievalHit> {
    let source = RetrievalSource::Vector;
    vec![
        hit("doc-b", "Swift macOS development", 0.9, source),
        hit("doc-a", "Rust systems programming", 0.8, source),
        hit("doc-d", "Machine learning neural nets", 0.7, source),
    ]
}

#[test]
fn rrf_merges_signals() {
    let config = FusionConfig::default();
    let fused = reciprocal_rank_fusion(&vec![make_fts_hits(), make_vector_hits()], &config);
    assert!(!fused.is_empty());
    let top_ids: Vec<&str> = fused.iter().take(2).map(|r| r.doc_id.as_str()).collect();
    assert!(
        top_ids.contains(&"doc-a") || top_ids.contains(&"doc-b"),
        "Documents in both signals should rank highly"
    );
}

#[test]
fn rrf_handles_single_signal() {
    let config = FusionConfig::default();
    let fused = reciprocal_rank_fusion(&vec![make_fts_hits()], &config);
    assert_eq!(fused.len(), 3);
}

#[test]
fn rrf_handles_empty_signals() {
    let config = FusionConfig::default();
    let fused = reciprocal_rank_fusion(&vec![], &config);
    assert!(fused.is_empty());
}

#[test]
fn rrf_multi_source_tracking() {
    let config = FusionConfig::default();
    let fused = reciprocal_rank_fusion(&vec![make_fts_hits(), make_vector_hits()], &config);

    let doc_a = fused.iter().find(|r| r.doc_id == "doc-a").unwrap();
    assert!(doc_a.sources.contains(&RetrievalSource::FullText));
    assert!(doc_a.sources.contains(&RetrievalSource::Vector));
    assert_eq!(doc_a.sources.len(), 2);

    let doc_d = fused.iter().find(|r| r.doc_id == "doc-d").unwrap();
    assert_eq!(doc_d.sources.len(), 1);
    assert_eq!(doc_d.sources[0], RetrievalSource::Vector);
}

#[test]
fn bm25_cross_encoder_scores() {
    let encoder = BM25CrossEncoder::new();
    let scores: Vec<f64> = encoder
        .score_batch(
            "Rust programming",
            &[
                "Rust systems programming language",
                "Python data science",
                "Rust and Go comparison",
            ],
        )
        .into_iter()
        .map(f64::from_bits)
        .collect();
    assert_eq!(scores.len(), 3);
    assert!(
        scores[0] > scores[1],
        "Doc with query terms should score higher"
    );
}

fn fused(id: &str, text: &str, score: f64, source: RetrievalSource) -> FusedResult {
    FusedResult {
        doc_id: id.into(),
        text: text.into(),
        rrf_score: score.to_bits(),
        sources: vec![source],
        rerank_score: None,
    }
}

#[test]
fn cross_encoder_rerank_reorders() {
    let results = vec![
        fused("low", "cooking recipes", 0.5, RetrievalSource::FullText),
        fused("high", "Rust programming systems", 0.3, RetrievalSource::Vector),
    ];
    let encoder = BM25CrossEncoder::new();
    let reranked = cross_encoder_rerank("Rust programming", results, &encoder, 2);

    assert_eq!(reranked.len(), 2);
    assert_eq!(reranked[0].doc_id, "high");
    assert!(reranked[0].rerank_score.is_some());
}

#[test]
fn full_pipeline_end_to_end() {
    let config = FusionConfig {
        final_top_k: 2,
        ..Default::default()
    };
    let pipeline = HybridSearchPipeline::with_bm25_fallback(config);
    let results = pipeline.execute(
        "Rust systems programming",
        &vec![make_fts_hits(), make_vector_hits()],
    );
    assert!(results.len() <= 2);
    assert!(results[0].rerank_score.is_some());
}

#[test]
fn rrf_respects_source_weights() {
    let mut config = FusionConfig::default();
    config
        .source_weights
        .insert(RetrievalSource::FullText, 2.0_f64.to_bits());
    config
        .source_weights
        .insert(RetrievalSource::Vector, 0.5_f64.to_bits());

    let fused = reciprocal_rank_fusion(&vec![make_fts_hits(), make_vector_hits()], &config);
    let doc_c = fused.iter().find(|r| r.doc_id == "doc-c").unwrap();
    let doc_d = fused.iter().find(|r| r.doc_id == "doc-d").unwrap();
    assert!(
        f64::from_bits(doc_c.rrf_score) > f64::from_bits(doc_d.rrf_score),
        "FTS-only doc with 2x weight should beat vector-only doc with 0.5x weight"
    );
}

#[test]
fn fused_scores_are_what_the_hardware_computes() {
    let config = FusionConfig::default();
    let results = reciprocal_rank_fusion(&vec![make_fts_hits(), make_vector_hits()], &config);
    let score = |id: &str| {
        f64::from_bits(results.iter().find(|r| r.doc_id == id).unwrap().rrf_score)
    };
    assert_eq!(score("doc-a"), 1.0 / (60.0 + 1.0) + 1.0 / (60.0 + 2.0));
    assert_eq!(score("doc-b"), 1.0 / (60.0 + 2.0) + 1.0 / (60.0 + 1.0));
    assert_eq!(score("doc-c"), 1.0 / (60.0 + 3.0));
    assert_eq!(results[0].doc_id, "doc-a");
    assert_eq!(results[0].rerank_score, None);
    let ranks = vec![
        SourceRank { source: RetrievalSource::Graph, rank: 7 },
        SourceRank { source: RetrievalSource::Custom, rank: 11 },
    ];
    assert_eq!(
        f64::from_bits(score_ranks(&config, &ranks)),
        1.0 / 67.0 + 1.0 / 71.0
    );
}

#[test]
fn drafts_can_be_ranked_by_scores_from_elsewhere() {
    let drafts = collect_signals(&vec![make_fts_hits()]);
    assert_eq!(drafts.len(), 3);
    let scores = vec![(-1.0_f64).to_bits(), 0.25_f64.to_bits(), 0.5_f64.to_bits()];
    let ranked = rank_drafts(&drafts, &scores, 2);
    assert_eq!(ranked.len(), 2);
    assert_eq!(ranked[0].doc_id, "doc-c");
    assert_eq!(ranked[1].doc_id, "doc-b");
}

#[test]
fn the_fusion_is_cut_to_its_limit() {
    let config = FusionConfig { fusion_top_k: 1, ..Default::default() };
    let results = reciprocal_rank_fusion(&vec![make_fts_hits()], &config);
    assert_eq!(results.len(), 1);
    assert_eq!(results[0].doc_id, "doc-a");
}

fn same_double(ours: u64, expected: f64) -> bool {
    ours == expected.to_bits() || f64::from_bits(ours).is_nan() && expected.is_nan()
}

#[test]
fn any_settings_score_as_the_hardware_computes() {
    let numbers = [
        0.0,
        -0.0,
        1.0,
        60.0,
        0.3,
        -1.0,
        -7.5,
        1e300,
        -1e300,
        f64::MAX,
        f64::MIN_POSITIVE,
        f64::MIN_POSITIVE * 0.37,
        5e-324,
        -5e-324,
        1e-310,
        f64::INFINITY,
        f64::NEG_INFINITY,
        f64::NAN,
    ];
    for k in numbers {
        for weight in numbers {
            for first in [1, 3, 7, 1_000_000_007, usize::MAX] {
                let mut config = FusionConfig { rrf_k: k.to_bits(), ..Default::default() };
                config.source_weights.insert(RetrievalSource::Graph, weight.to_bits());
                let ranks = vec![
                    SourceRank { source: RetrievalSource::Graph, rank: first },
                    SourceRank { source: RetrievalSource::Graph, rank: 7 },
                    SourceRank { source: RetrievalSource::Vector, rank: 2 },
                ];
                let mut expected = 0.0_f64;
                for at in &ranks {
                    let w = if at.source == RetrievalSource::Graph { weight } else { 1.0 };
                    expected += w / (k + at.rank as f64);
                }
                assert!(same_double(score_ranks(&config, &ranks), expected));
            }
        }
    }
}

#[test]
fn every_source_weighs_one_by_default() {
    let config = FusionConfig::default();
    assert_eq!(f64::from_bits(config.rrf_k), 60.0);
    for source in [
        RetrievalSource::FullText,
        RetrievalSource::Vector,
        RetrievalSource::Graph,
        RetrievalSource::Custom,
    ] {
        assert_eq!(f64::from_bits(config.source_weights.weight(source)), 1.0);
    }
}

#[test]
fn a_missing_weight_is_one() {
    let mut config = FusionConfig::default();
    config.source_weights.graph = None;
    let ranks = vec![SourceRank { source: RetrievalSource::Graph, rank: 1 }];
    assert_eq!(f64::from_bits(score_ranks(&config, &ranks)), 1.0 / 61.0);
}

#[test]
fn a_negative_weight_turns_the_order_round() {
    let mut config = FusionConfig::default();
    config.source_weights.insert(RetrievalSource::FullText, (-0.5_f64).to_bits());
    let results = reciprocal_rank_fusion(&vec![make_fts_hits()], &config);
    let ids: Vec<&str> = results.iter().map(|r| r.doc_id.as_str()).collect();
    assert_eq!(ids, vec!["doc-c", "doc-b", "doc-a"]);
}

#[test]
fn double_arithmetic_is_that_of_the_hardware() {
    let mut patterns: Vec<u64> = vec![
        0,
        0x8000_0000_0000_0000,
        1,
        0x000f_ffff_ffff_ffff,
        0x0010_0000_0000_0000,
        0x7fef_ffff_ffff_ffff,
        0x7ff0_0000_0000_0000,
        0xfff0_0000_0000_0000,
        0x7ff8_0000_0000_0000,
    ];
    let mut state = 0x2545_f491_4f6c_dd1d_u64;
    for _ in 0..160 {
        state ^= state << 13;
        state ^= state >> 7;
        state ^= state << 17;
        patterns.push(state);
        patterns.push(state & 0x803f_ffff_ffff_ffff);
        patterns.push(state % 0x0020_0000_0000_0000);
        patterns.push(0x3ff0_0000_0000_0000 | state >> 12);
    }
    for a in &patterns {
        for b in &patterns {
            let (x, y) = (f64::from_bits(*a), f64::from_bits(*b));
            assert!(same_double(add_doubles(*a, *b), x + y));
            assert!(same_double(multiply_doubles(*a, *b), x * y));
            assert!(same_double(divide_doubles(*a, *b), x / y));
        }
        assert_eq!(f64::from_bits(double_of(*a)), *a as f64);
    }
}

struct ByLength;

impl CrossEncoder for ByLength {
    fn score_batch(&self, _query: &str, documents: &[&str]) -> Vec<u64> {
        documents.iter().map(|d| (d.len() as f64).to_bits()).collect()
    }
}

#[test]
fn another_encoder_decides_the_order() {
    let pipeline = HybridSearchPipeline::with_encoder(FusionConfig::default(), ByLength);
    let results = pipeline.execute("anything", &vec![make_fts_hits(), make_vector_hits()]);
    let ids: Vec<&str> = results.iter().map(|r| r.doc_id.as_str()).collect();
    assert_eq!(ids, vec!["doc-d", "doc-a", "doc-b", "doc-c"]);
    assert_eq!(results[0].rerank_score, Some(28.0_f64.to_bits()));
}

#[test]
fn a_second_ranking_keeps_the_order_of_equals() {
    let results = vec![
        fused("first", "x", 0.1, RetrievalSource::Graph),
        fused("second", "y", 0.2, RetrievalSource::Graph),
        fused("third", "z", 0.3, RetrievalSource::Graph),
    ];
    let scores = vec![1.0_f64.to_bits(), 2.0_f64.to_bits(), 1.0_f64.to_bits()];
    let ranked = rerank(&results, &scores, 10);
    let ids: Vec<&str> = ranked.iter().map(|r| r.doc_id.as_str()).collect();
    assert_eq!(ids, vec!["second", "first", "third"]);
    assert_eq!(rerank(&results, &scores, 1).len(), 1);
}

#[test]
fn word_counts_score_as_the_hardware_computes() {
    let documents = ["one two two three", "two", "four five six seven eight", ""];
    let words: usize = documents.iter().map(|d| d.split_whitespace().count()).sum();
    let mean = words as f64 / documents.len() as f64;
    let expected: Vec<u64> = documents
        .iter()
        .map(|d| {
            let terms: Vec<&str> = d.split_whitespace().collect();
            let mut score = 0.0_f64;
            for q in ["two", "three", "two"] {
                let tf = terms.iter().filter(|t| **t == q).count() as f64;
                if tf > 0.0 {
                    let length = terms.len() as f64;
                    score += (tf * (1.2 + 1.0)) / (tf + 1.2 * (1.0 - 0.75 + 0.75 * length / mean));
                }
            }
            score.to_bits()
        })
        .collect();
    let scores = BM25CrossEncoder::new().score_batch("TWO Three two", &documents);
    assert_eq!(scores, expected);
    assert!(BM25CrossEncoder::default().score_batch("two", &[]).is_empty());
    let nothing: f64 = Vec::<f64>::new().into_iter().sum();
    assert_eq!(
        BM25CrossEncoder::new().score_batch(" ", &["one"]),
        vec![nothing.to_bits()]
    );
}

#[test]
fn better_and_further_ranks_never_score_less() {
    let config = FusionConfig::default();
    let at = |source, rank| SourceRank { source, rank };
    let score = |ranks: Vec<SourceRank>| f64::from_bits(score_ranks(&config, &ranks));
    for rank in 1..300 {
        let one = score(vec![at(RetrievalSource::Vector, rank)]);
        assert!(one >= score(vec![at(RetrievalSource::Vector, rank + 1)]));
        let two = score(vec![
            at(RetrievalSource::Vector, rank),
            at(RetrievalSource::Graph, 1_000_000),
        ]);
        assert!(two >= one);
    }
}
