use epistemos_recall::instant::config::InstantRecallConfig;
use epistemos_recall::instant::embedder::TrigramEmbedder;
use epistemos_recall::instant::index::{InstantRecallIndex, RecallResult};
use epistemos_recall::instant::progressive::{
    extract_keywords, MemoryEntry, MemoryLayer, ProgressiveConfig, ProgressiveRetriever,
};
use epistemos_recall::instant::segment::{
    GrowingEntry, SegmentConfig, SegmentSearchResult, SegmentedIndex,
};
use epistemos_recall::quant::butterfly::{ButterflyRotation, RotationTurns, StageTurns};
use epistemos_recall::quant::turbo::{
    turbo_dot_product_pre_rotated, turbo_quantize_pre_rotated, TurboQuantBits,
};

fn floats(bits: &[u32]) -> Vec<f32> {
    bits.iter().map(|&b| f32::from_bits(b)).collect()
}

fn bits(values: &[f32]) -> Vec<u32> {
    values.iter().map(|x| x.to_bits()).collect()
}

fn dot(a: &[f32], b: &[f32]) -> f32 {
    let mut sum = 0.0_f32;
    for i in 0..a.len() {
        sum += a[i] * b[i];
    }
    sum
}

fn norm(v: &[f32]) -> f32 {
    v.iter().map(|&x| x * x).sum::<f32>().sqrt()
}

// The embedder.

#[test]
fn encode_produces_correct_dimension() {
    let embedder = TrigramEmbedder::new(1024);
    let embedding = embedder.encode("hello world");
    assert_eq!(embedding.len(), 1024);
}

#[test]
fn encode_is_normalized() {
    let embedder = TrigramEmbedder::new(1024);
    let norm = norm(&floats(&embedder.encode("hello world")));
    assert!((norm - 1.0).abs() < 1e-5, "Expected unit norm, got {}", norm);
}

#[test]
fn encode_is_deterministic() {
    let embedder = TrigramEmbedder::new(1024);
    let a = embedder.encode("test document about Rust");
    let b = embedder.encode("test document about Rust");
    assert_eq!(a, b);
}

#[test]
fn similar_texts_have_high_similarity() {
    let embedder = TrigramEmbedder::new(1024);
    let a = floats(&embedder.encode("Rust programming language"));
    let b = floats(&embedder.encode("Rust programming systems"));
    let sim: f32 = a.iter().zip(b.iter()).map(|(&x, &y)| x * y).sum();
    assert!(sim > 0.5, "Expected high similarity, got {}", sim);
}

#[test]
fn dissimilar_texts_have_low_similarity() {
    let embedder = TrigramEmbedder::new(1024);
    let a = floats(&embedder.encode("Rust programming language systems design"));
    let b = floats(&embedder.encode("Italian cooking pasta recipes carbonara"));
    let sim: f32 = a.iter().zip(b.iter()).map(|(&x, &y)| x * y).sum();
    assert!(sim < 0.3, "Expected low similarity, got {}", sim);
}

#[test]
fn empty_text_produces_zero_vector() {
    let embedder = TrigramEmbedder::new(1024);
    let embedding = floats(&embedder.encode(""));
    assert!(embedding.iter().all(|&x| x == 0.0));
}

#[test]
fn short_text_still_embeds() {
    let embedder = TrigramEmbedder::new(1024);
    let norm = norm(&floats(&embedder.encode("hi")));
    assert!(norm > 0.9, "Expected near-unit norm for short text, got {}", norm);
}

#[test]
fn unicode_text_works() {
    let embedder = TrigramEmbedder::new(1024);
    let norm = norm(&floats(&embedder.encode("日本語のテスト")));
    assert!((norm - 1.0).abs() < 1e-5);
}

#[test]
fn case_insensitive() {
    let embedder = TrigramEmbedder::new(1024);
    let a = embedder.encode("Hello World");
    let b = embedder.encode("hello world");
    assert_eq!(a, b);
}

fn fnv(h: u64, x: u64) -> u64 {
    (h ^ x).wrapping_mul(1099511628211)
}

#[test]
fn embeddings_are_what_the_hardware_computes() {
    let text = "the quick brown fox jumps over the lazy dog";
    let dim = 64_usize;
    let chars: Vec<char> = text.chars().collect();
    let mut w = vec![0.0_f32; dim];
    for t in chars.windows(3) {
        let mut h = 14695981039346656037_u64;
        for &c in t {
            h = fnv(h, c as u64);
        }
        w[h as usize % dim] += 1.0;
        w[h.wrapping_mul(2654435761) as usize % dim] += 0.5;
    }
    for word in text.split_whitespace() {
        let mut h = 14695981039346656037_u64;
        for b in word.bytes() {
            h = fnv(h, b as u64);
        }
        w[h as usize % dim] += 2.0;
    }
    let length = w.iter().fold(0.0_f32, |s, x| s + x * x).sqrt();
    let unit: Vec<f32> = w.iter().map(|x| x / length).collect();
    assert_eq!(TrigramEmbedder::new(dim).encode(text), bits(&unit));
}

// The index.

fn make_config() -> InstantRecallConfig {
    InstantRecallConfig {
        dimension: 16,
        binary_top_k: 10,
        final_top_k: 3,
    }
}

fn make_embedding(seed: u8, dim: usize) -> Vec<f32> {
    (0..dim)
        .map(|i| ((seed as f32) * 0.1 + (i as f32) * 0.01).sin())
        .collect()
}

fn insert(index: &mut InstantRecallIndex, id: &str, embedding: Vec<f32>, text: &str) {
    index.insert(id.to_string(), bits(&embedding), text.to_string());
}

fn search(index: &InstantRecallIndex, query: &[f32], top_k: usize) -> Vec<RecallResult> {
    index.search(&bits(query), top_k)
}

#[test]
fn insert_and_len() {
    let mut index = InstantRecallIndex::new(make_config());
    insert(&mut index, "a", make_embedding(1, 16), "text a");
    insert(&mut index, "b", make_embedding(2, 16), "text b");
    assert_eq!(index.len(), 2);
}

#[test]
fn insert_duplicate_replaces() {
    let mut index = InstantRecallIndex::new(make_config());
    insert(&mut index, "a", make_embedding(1, 16), "old");
    insert(&mut index, "a", make_embedding(2, 16), "new");
    assert_eq!(index.len(), 1);
    let results = search(&index, &make_embedding(2, 16), 1);
    assert_eq!(results[0].text, "new");
}

#[test]
fn remove_existing() {
    let mut index = InstantRecallIndex::new(make_config());
    insert(&mut index, "a", make_embedding(1, 16), "a");
    insert(&mut index, "b", make_embedding(2, 16), "b");
    index.remove("a");
    assert_eq!(index.len(), 1);
}

#[test]
fn remove_nonexistent_is_noop() {
    let mut index = InstantRecallIndex::new(make_config());
    insert(&mut index, "a", make_embedding(1, 16), "a");
    index.remove("z");
    assert_eq!(index.len(), 1);
}

#[test]
fn search_empty_index() {
    let index = InstantRecallIndex::new(make_config());
    let results = search(&index, &make_embedding(1, 16), 5);
    assert!(results.is_empty());
}

#[test]
fn search_returns_correct_count() {
    let mut index = InstantRecallIndex::new(make_config());
    for i in 0..20u8 {
        insert(
            &mut index,
            &format!("doc-{}", i),
            make_embedding(i, 16),
            &format!("text {}", i),
        );
    }
    let results = search(&index, &make_embedding(5, 16), 3);
    assert_eq!(results.len(), 3);
}

#[test]
fn search_returns_most_similar_first() {
    let mut index = InstantRecallIndex::new(make_config());
    let target = make_embedding(42, 16);
    insert(&mut index, "target", target.clone(), "target");
    insert(&mut index, "other", make_embedding(200, 16), "other");

    let results = search(&index, &target, 2);
    assert_eq!(results[0].doc_id, "target");
    assert!(f32::from_bits(results[0].score_bits) > f32::from_bits(results[1].score_bits));
}

#[test]
fn clear_empties_index() {
    let mut index = InstantRecallIndex::new(make_config());
    insert(&mut index, "a", make_embedding(1, 16), "a");
    index.clear();
    assert!(index.is_empty());
    assert_eq!(index.len(), 0);
}

#[test]
fn swap_remove_preserves_id_mapping() {
    let mut index = InstantRecallIndex::new(make_config());
    insert(&mut index, "first", make_embedding(1, 16), "first");
    insert(&mut index, "second", make_embedding(2, 16), "second");
    insert(&mut index, "third", make_embedding(3, 16), "third");

    index.remove("first");
    assert_eq!(index.len(), 2);

    let results = search(&index, &make_embedding(3, 16), 3);
    assert!(results.iter().any(|r| r.doc_id == "third"));
}

#[test]
fn end_to_end_index_and_search() {
    let config = InstantRecallConfig::default();
    let embedder = TrigramEmbedder::new(config.dimension);
    let mut index = InstantRecallIndex::new(config.clone());
    let notes = vec![
        ("note-1", "Rust programming language systems design"),
        ("note-2", "Swift macOS native application development"),
        ("note-3", "Machine learning neural networks deep learning"),
        ("note-4", "Cooking recipes Italian pasta carbonara"),
        ("note-5", "Quantum physics wave function collapse"),
    ];
    for (id, text) in &notes {
        let embedding = embedder.encode(text);
        index.insert(id.to_string(), embedding, text.to_string());
    }
    assert_eq!(index.len(), 5);

    let query_embedding = embedder.encode("systems programming with Rust");
    let results = index.search(&query_embedding, 3);
    assert!(!results.is_empty());
    assert!(results.len() <= 3);
    assert_eq!(results[0].doc_id, "note-1");
}

#[test]
fn empty_index_returns_empty_results() {
    let index = InstantRecallIndex::new(InstantRecallConfig::default());
    let query = vec![0.0f32; 1024];
    let results = search(&index, &query, 5);
    assert!(results.is_empty());
}

#[test]
fn search_with_top_k_larger_than_index() {
    let config = InstantRecallConfig::default();
    let embedder = TrigramEmbedder::new(config.dimension);
    let mut index = InstantRecallIndex::new(config);
    let embedding = embedder.encode("hello world");
    index.insert("only-one".into(), embedding, "hello world".into());

    let query = embedder.encode("hello");
    let results = index.search(&query, 100);
    assert_eq!(results.len(), 1);
}

#[test]
fn remove_document_from_index() {
    let config = InstantRecallConfig::default();
    let embedder = TrigramEmbedder::new(config.dimension);
    let mut index = InstantRecallIndex::new(config);
    let emb = embedder.encode("test document");
    index.insert("doc-1".into(), emb.clone(), "test document".into());
    assert_eq!(index.len(), 1);

    index.remove("doc-1");
    assert_eq!(index.len(), 0);

    let results = index.search(&emb, 5);
    assert!(results.is_empty());
}

#[test]
fn duplicate_id_replaces_existing() {
    let config = InstantRecallConfig::default();
    let embedder = TrigramEmbedder::new(config.dimension);
    let mut index = InstantRecallIndex::new(config);
    let emb1 = embedder.encode("original text");
    index.insert("doc-1".into(), emb1, "original text".into());
    let emb2 = embedder.encode("updated text");
    index.insert("doc-1".into(), emb2, "updated text".into());
    assert_eq!(index.len(), 1);

    let query = embedder.encode("updated");
    let results = index.search(&query, 1);
    assert_eq!(results[0].doc_id, "doc-1");
    assert_eq!(results[0].text, "updated text");
}

#[test]
fn latency_under_threshold_for_1k_notes() {
    let config = InstantRecallConfig::default();
    let embedder = TrigramEmbedder::new(config.dimension);
    let mut index = InstantRecallIndex::new(config);
    for i in 0..1000 {
        let text = format!(
            "Note number {} about topic {} with content {}",
            i,
            i % 50,
            i * 7
        );
        let embedding = embedder.encode(&text);
        index.insert(format!("note-{}", i), embedding, text);
    }

    let query = embedder.encode("topic 25 content");
    let start = std::time::Instant::now();
    let results = index.search(&query, 5);
    let elapsed = start.elapsed();
    assert!(
        elapsed.as_millis() < 10,
        "Search took {}ms, expected <10ms",
        elapsed.as_millis()
    );
    assert_eq!(results.len(), 5);
}

// Layered memory.

fn test_config() -> ProgressiveConfig {
    ProgressiveConfig {
        working_limit: 3,
        session_limit: 5,
        longterm_limit: 5,
        total_limit: 10,
        min_score: 0.01_f64.to_bits(),
        recency_half_life_secs: 3600,
    }
}

fn half_to(power: u64) -> u64 {
    0.5_f64.powf(f64::from_bits(power)).to_bits()
}

fn recall(retriever: &ProgressiveRetriever, query: &str) -> Vec<MemoryEntry> {
    let entries = retriever.gather(query);
    let left = entries
        .iter()
        .map(|entry| retriever.halvings(entry).map_or(0, half_to))
        .collect();
    retriever.search(&entries, &left)
}

#[test]
fn test_working_memory_add_remove() {
    let mut retriever = ProgressiveRetriever::new(test_config());
    retriever.add_working("w1".into(), "Rust programming systems".into());
    retriever.add_working("w2".into(), "Swift macOS development".into());

    let (w, s, l) = retriever.total_entries();
    assert_eq!(w, 2);
    assert_eq!(s, 0);
    assert_eq!(l, 0);

    retriever.remove_working("w1");
    let (w, _, _) = retriever.total_entries();
    assert_eq!(w, 1);
}

#[test]
fn test_working_memory_search() {
    let mut retriever = ProgressiveRetriever::new(test_config());
    retriever.add_working("w1".into(), "Rust programming language".into());
    retriever.add_working("w2".into(), "Swift macOS native".into());

    let results = recall(&retriever, "Rust programming");
    assert!(!results.is_empty());
    assert_eq!(results[0].layer, MemoryLayer::Working);
    assert!(results[0].doc_id == "w1");
}

#[test]
fn test_session_memory_search() {
    let mut retriever = ProgressiveRetriever::new(test_config());
    retriever.add_session(
        "s1".into(),
        "agent completed research on quantum physics".into(),
    );
    retriever.add_session(
        "s2".into(),
        "agent deployed web application successfully".into(),
    );

    let results = recall(&retriever, "quantum physics research");
    assert!(!results.is_empty());
    let session_results: Vec<_> = results
        .iter()
        .filter(|r| r.layer == MemoryLayer::Session)
        .collect();
    assert!(!session_results.is_empty());
}

#[test]
fn test_longterm_memory_search() {
    let mut retriever = ProgressiveRetriever::new(test_config());
    retriever.add_longterm(
        "lt1".into(),
        "machine learning neural networks deep learning".into(),
    );
    retriever.add_longterm("lt2".into(), "Italian cooking pasta recipes".into());

    let results = recall(&retriever, "neural networks deep learning");
    assert!(!results.is_empty());
    let lt_results: Vec<_> = results
        .iter()
        .filter(|r| r.layer == MemoryLayer::LongTerm)
        .collect();
    assert!(!lt_results.is_empty());
}

#[test]
fn test_layer_priority_ordering() {
    let mut retriever = ProgressiveRetriever::new(test_config());
    retriever.add_working("w1".into(), "Rust systems programming".into());
    retriever.add_session("s1".into(), "Rust systems programming notes".into());
    retriever.add_longterm("lt1".into(), "Rust systems programming guide".into());

    let results = recall(&retriever, "Rust systems programming");
    assert!(!results.is_empty());
    assert_eq!(results[0].layer, MemoryLayer::Working);
}

#[test]
fn test_deduplication() {
    let mut retriever = ProgressiveRetriever::new(test_config());
    retriever.add_session("shared-doc".into(), "quantum computing basics".into());
    retriever.add_longterm("shared-doc".into(), "quantum computing basics".into());

    let results = recall(&retriever, "quantum computing");
    let shared_count = results.iter().filter(|r| r.doc_id == "shared-doc").count();
    assert_eq!(shared_count, 1, "Duplicate doc_ids should be merged");
}

#[test]
fn test_recency_decay() {
    let mut retriever = ProgressiveRetriever::new(test_config());
    retriever.add_working("old".into(), "Rust programming guide".into());
    retriever.tick_working(7200);
    retriever.add_working("new".into(), "Rust programming tutorial".into());

    let results = recall(&retriever, "Rust programming");
    let old_entry = results.iter().find(|r| r.doc_id == "old");
    let new_entry = results.iter().find(|r| r.doc_id == "new");
    let (old, new) = (old_entry.unwrap(), new_entry.unwrap());
    assert!(
        f64::from_bits(new.score_bits) >= f64::from_bits(old.score_bits),
        "Newer entries should score higher"
    );
    assert_eq!(old.age_seconds, 7200);
    assert_eq!(
        f64::from_bits(old.score_bits) * 4.0,
        f64::from_bits(new.score_bits)
    );
}

#[test]
fn test_total_limit() {
    let mut config = test_config();
    config.total_limit = 3;
    let mut retriever = ProgressiveRetriever::new(config);
    for i in 0..20 {
        retriever.add_longterm(
            format!("lt{i}"),
            format!("topic {i} about programming systems"),
        );
    }
    let results = recall(&retriever, "programming systems");
    assert!(results.len() <= 3);
}

#[test]
fn test_empty_search() {
    let retriever = ProgressiveRetriever::new(test_config());
    let results = recall(&retriever, "anything");
    assert!(results.is_empty());
}

#[test]
fn test_clear_session() {
    let mut retriever = ProgressiveRetriever::new(test_config());
    retriever.add_session("s1".into(), "some session data".into());
    retriever.clear_session();
    let (_, s, _) = retriever.total_entries();
    assert_eq!(s, 0);
}

#[test]
fn test_extract_keywords() {
    let kw = extract_keywords("The Rust programming language is great for systems");
    assert!(kw.contains(&"rust".to_string()));
    assert!(kw.contains(&"programming".to_string()));
    assert!(!kw.contains(&"the".to_string()));
    assert!(!kw.contains(&"is".to_string()));
}

#[test]
fn test_memory_layer_as_str() {
    assert_eq!(MemoryLayer::Working.as_str(), "working");
    assert_eq!(MemoryLayer::Session.as_str(), "session");
    assert_eq!(MemoryLayer::LongTerm.as_str(), "long_term");
}

#[test]
fn layers_weigh_three_two_and_one() {
    assert_eq!(MemoryLayer::Working.weight(), 3);
    assert_eq!(MemoryLayer::Session.weight(), 2);
    assert_eq!(MemoryLayer::LongTerm.weight(), 1);
    assert_eq!(ProgressiveConfig::default().min_score, 0.1_f64.to_bits());
}

#[test]
fn scores_of_layers_are_weighted_products() {
    let mut retriever = ProgressiveRetriever::new(test_config());
    retriever.add_session("s".into(), "quantum physics".into());
    retriever.add_working("w".into(), "quantum physics".into());
    let entries = retriever.gather("quantum machines");
    let working = entries.iter().find(|e| e.doc_id == "w").unwrap();
    assert_eq!(f64::from_bits(working.score_bits), 0.5 * 3.0);
    let embedder = TrigramEmbedder::new(1024);
    let a = floats(&embedder.encode("quantum physics"));
    let b = floats(&embedder.encode("quantum machines"));
    let session = entries.iter().find(|e| e.doc_id == "s").unwrap();
    assert_eq!(f64::from_bits(session.score_bits), dot(&b, &a) as f64 * 2.0);
}

#[test]
fn working_memory_forgets_the_oldest() {
    let mut retriever = ProgressiveRetriever::new(test_config());
    for i in 0..60 {
        retriever.add_working(format!("w{i}"), format!("memory number {i}"));
    }
    let (w, _, _) = retriever.total_entries();
    assert_eq!(w, 32);
    retriever.remove_working("w27");
    assert_eq!(retriever.total_entries().0, 32);
    retriever.remove_working("w28");
    assert_eq!(retriever.total_entries().0, 31);
}

#[test]
fn each_layer_forgets_what_is_removed_from_it() {
    let mut retriever = ProgressiveRetriever::new(test_config());
    for id in ["a", "b"] {
        retriever.add_session(id.into(), format!("session memory {id}"));
        retriever.add_longterm(id.into(), format!("longterm memory {id}"));
    }
    assert_eq!(retriever.total_entries(), (0, 2, 2));
    retriever.remove_session("a");
    assert_eq!(retriever.total_entries(), (0, 1, 2));
    retriever.remove_longterm("b");
    assert_eq!(retriever.total_entries(), (0, 1, 1));
    retriever.remove_longterm("absent");
    assert_eq!(retriever.total_entries(), (0, 1, 1));
}

// Segments.

fn segment_config() -> SegmentConfig {
    SegmentConfig {
        seal_threshold: 5,
        sealed_bits: TurboQuantBits::Bit4,
        dim: 16,
        temperature_half_life: 100,
    }
}

fn turns(rotation: &ButterflyRotation) -> RotationTurns {
    let stages = rotation
        .stages
        .iter()
        .map(|s| {
            let (sines, cosines): (Vec<f32>, Vec<f32>) =
                floats(&s.angles).iter().map(|a| a.sin_cos()).unzip();
            StageTurns { sines: bits(&sines), cosines: bits(&cosines), stride: s.stride }
        })
        .collect();
    RotationTurns { stages, version: rotation.version }
}

fn no_turns() -> RotationTurns {
    turns(&ButterflyRotation::identity(16))
}

fn seal(index: &mut SegmentedIndex, entries: Option<Vec<GrowingEntry>>) {
    if let Some(entries) = entries {
        index.seal_segment(entries, &no_turns());
    }
}

fn add(index: &mut SegmentedIndex, i: u8) {
    let full = index.insert(
        format!("doc{i}"),
        bits(&make_embedding(i, 16)),
        format!("text{i}"),
    );
    seal(index, full);
}

fn find(index: &mut SegmentedIndex, query: &[f32], top_k: usize) -> Vec<SegmentSearchResult> {
    index.search(&bits(query), &no_turns(), top_k)
}

#[test]
fn insert_into_growing_segment() {
    let mut idx = SegmentedIndex::new(segment_config());
    add(&mut idx, 1);
    add(&mut idx, 2);
    assert_eq!(idx.total_entries(), 2);
    assert_eq!(idx.num_sealed_segments(), 0);
}

#[test]
fn auto_seal_at_threshold() {
    let mut idx = SegmentedIndex::new(segment_config());
    for i in 0..6 {
        add(&mut idx, i);
    }
    assert_eq!(idx.num_sealed_segments(), 1);
    assert_eq!(idx.total_entries(), 6);
}

#[test]
fn search_finds_similar() {
    let mut idx = SegmentedIndex::new(segment_config());
    let target = make_embedding(42, 16);
    let full = idx.insert("target".into(), bits(&target), "target text".into());
    seal(&mut idx, full);
    let full = idx.insert("other".into(), bits(&make_embedding(200, 16)), "other text".into());
    seal(&mut idx, full);

    let results = find(&mut idx, &target, 2);
    assert!(!results.is_empty());
    assert_eq!(results[0].doc_id, "target");
}

#[test]
fn search_across_growing_and_sealed() {
    let mut idx = SegmentedIndex::new(SegmentConfig { seal_threshold: 3, ..segment_config() });
    for i in 0..4 {
        add(&mut idx, i);
    }
    assert_eq!(idx.num_sealed_segments(), 1);
    let results = find(&mut idx, &make_embedding(0, 16), 10);
    assert_eq!(results.len(), 4);
}

#[test]
fn flush_seals_growing() {
    let mut idx = SegmentedIndex::new(segment_config());
    add(&mut idx, 1);
    add(&mut idx, 2);
    assert_eq!(idx.num_sealed_segments(), 0);

    let entries = idx.flush();
    seal(&mut idx, entries);
    assert_eq!(idx.num_sealed_segments(), 1);
    assert_eq!(idx.total_entries(), 2);
    assert!(idx.flush().is_none());
}

#[test]
fn temperature_tracking() {
    let mut idx = SegmentedIndex::new(SegmentConfig { seal_threshold: 2, ..segment_config() });
    for i in 0..4 {
        add(&mut idx, i);
    }
    assert_eq!(idx.num_sealed_segments(), 2);
    for _ in 0..10 {
        find(&mut idx, &make_embedding(0, 16), 1);
    }
    assert_eq!(idx.clock(), 10);
    let left: Vec<u64> = (0..2)
        .map(|i| half_to(idx.segment(i).halvings(idx.clock(), 100)))
        .collect();
    let temps = idx.segments_by_temperature(&left);
    assert_eq!(temps.len(), 2);
    assert!(
        f64::from_bits(temps[0].1) > 0.0,
        "Accessed segments should have positive temperature"
    );
}

#[test]
fn rotation_swap_is_safe() {
    let mut idx = SegmentedIndex::new(segment_config());
    add(&mut idx, 1);

    let new_rot = turns(&ButterflyRotation::random(16, 99));

    let results = idx.search(&bits(&make_embedding(1, 16)), &new_rot, 1);
    assert!(!results.is_empty());
}

#[test]
fn sealed_entries_score_by_their_codes() {
    let mut idx = SegmentedIndex::new(SegmentConfig { seal_threshold: 2, ..segment_config() });
    let rotation = turns(&ButterflyRotation::random(16, 3));
    let embeddings = [make_embedding(7, 16), make_embedding(90, 12)];
    for (i, e) in embeddings.iter().enumerate() {
        if let Some(full) = idx.insert(format!("doc{i}"), bits(e), "text".into()) {
            idx.seal_segment(full, &rotation);
        }
    }
    assert_eq!(idx.segment(0).rotation_version, 0);
    let turned = |v: &[f32]| {
        let mut x = bits(v);
        x.resize(16, 0);
        rotation.rotate_forward(&mut x);
        x
    };
    let query = make_embedding(8, 16);
    let asked = turned(&query);
    let results = idx.search(&bits(&query), &rotation, 5);
    assert_eq!(results.len(), 2);
    for (i, e) in embeddings.iter().enumerate() {
        let v = turbo_quantize_pre_rotated(turned(e), TurboQuantBits::Bit4);
        let score = turbo_dot_product_pre_rotated(&asked, &v);
        let hit = results.iter().find(|r| r.doc_id == format!("doc{i}")).unwrap();
        assert_eq!(hit.score_bits, score);
        assert_eq!(hit.segment_id, 0);
        let exact = dot(&query[..e.len()], e);
        assert!((f32::from_bits(score) - exact).abs() < 0.5);
    }
    assert!(f32::from_bits(results[0].score_bits) >= f32::from_bits(results[1].score_bits));
}

#[test]
fn the_warmest_segment_comes_first() {
    let mut idx = SegmentedIndex::new(SegmentConfig { seal_threshold: 1, ..segment_config() });
    for i in 0..3 {
        add(&mut idx, i);
    }
    for _ in 0..3 {
        find(&mut idx, &make_embedding(0, 16), 1);
    }
    let left = vec![0.5_f64.to_bits(), 0.75_f64.to_bits(), 0.5_f64.to_bits()];
    assert_eq!(
        idx.segments_by_temperature(&left),
        vec![
            (1, 2.25_f64.to_bits()),
            (0, 1.5_f64.to_bits()),
            (2, 1.5_f64.to_bits())
        ]
    );
}

#[test]
fn segments_cool_with_their_age() {
    let mut idx = SegmentedIndex::new(SegmentConfig { seal_threshold: 1, ..segment_config() });
    add(&mut idx, 0);
    find(&mut idx, &make_embedding(0, 16), 1);
    let segment = idx.segment(0);
    let last = segment.last_access;
    assert_eq!(f64::from_bits(segment.halvings(last + 7, 100)), 7.0 / 100.0);
    assert_eq!(f64::from_bits(segment.halvings(last + 7, 0)), 7.0);
    assert_eq!(f64::from_bits(segment.halvings(0, 100)), 0.0);
    assert_eq!(f64::from_bits(segment.temperature(0.3_f64.to_bits())), 0.3);
}

#[test]
fn old_memories_fade() {
    let mut retriever = ProgressiveRetriever::new(test_config());
    retriever.add_working("w".into(), "quantum physics".into());
    retriever.tick_working(1800);
    let entries = retriever.gather("quantum");
    let halvings = retriever.halvings(&entries[0]).map(f64::from_bits);
    assert_eq!(halvings, Some(1800.0 / 3600.0));
    let results = recall(&retriever, "quantum");
    let expected = f64::from_bits(entries[0].score_bits) * 0.5_f64.powf(0.5);
    assert_eq!(f64::from_bits(results[0].score_bits), expected);
    let fresh = ProgressiveRetriever::new(ProgressiveConfig {
        recency_half_life_secs: 0,
        ..test_config()
    });
    assert_eq!(fresh.halvings(&entries[0]), None);
    assert_eq!(fresh.search(&entries, &vec![0])[0].score_bits, entries[0].score_bits);
}
