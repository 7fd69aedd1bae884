//! Notes, found by title, words and similar text.

use epistemos_recall::recall::channels::{rank_titles, title_score};
use epistemos_recall::recall::engine::{
    ambient_query, search_pool, RecallEngine, RecallMode, RecallResult,
};
use epistemos_recall::recall::files::{
    file_document, may_index, report, supported, FileOutcome, IndexReport, MAX_FILE_BYTES,
};
use epistemos_recall::recall::fusion::fuse;
use epistemos_recall::recall::options::{join_from, take_option};
use epistemos_recall::recall::similarity::{cosine, vectorize};
use epistemos_recall::recall::snippet::snippet;
use epistemos_recall::recall::trigrams::text_trigrams;
use epistemos_recall::shadow::documents::{DocumentMap, ShadowDocument};
use epistemos_recall::shadow::notes::RealBackend;

fn note(id: &str, title: &str, body: &str) -> ShadowDocument {
    ShadowDocument {
        doc_id: id.into(),
        title: title.into(),
        body: body.into(),
        domain: "note".into(),
        origin_vault_key: None,
    }
}

fn open() -> RecallEngine {
    RecallEngine::open(DocumentMap::new(), RealBackend::new().unwrap())
}

#[test]
fn modes_are_distinct_and_ambient_excludes_origin() {
    let mut engine = open();
    for (id, title, body) in [
        (
            "a",
            "Meteor notes",
            "The observatory tracks a meteor shower before dawn.",
        ),
        ("b", "Grocery list", "Apples, oats, and tea."),
    ] {
        engine.upsert(note(id, title, body)).unwrap();
    }
    assert_eq!(
        engine.search_sidebar("meteor", 3, 0).unwrap()[0].mode,
        RecallMode::Sidebar
    );
    let ambient = engine
        .recall_ambient(
            Some("a"),
            "I am writing about the observatory and meteor shower",
            3,
            0,
        )
        .unwrap();
    assert!(ambient.iter().all(|hit| hit.doc_id != "a"));
    assert!(ambient.iter().all(|hit| hit.mode == RecallMode::Ambient));
}

#[test]
fn short_ambient_text_does_not_interrupt_typing() {
    let engine = open();
    assert!(engine
        .recall_ambient(None, "too short", 5, 0)
        .unwrap()
        .is_empty());
}

#[test]
fn a_note_that_every_ranking_finds_comes_first() {
    let mut engine = open();
    engine.upsert(note("a", "Meteor", "The meteor shower began.")).unwrap();
    engine.upsert(note("b", "Diary", "One line on the meteor shower.")).unwrap();
    engine.upsert(note("c", "List", "Apples and tea.")).unwrap();
    assert_eq!(engine.document_count(), 3);
    let results: Vec<RecallResult> = engine.search_sidebar("meteor", 5, 42).unwrap();
    assert_eq!(results[0].doc_id, "a");
    assert_eq!(results[0].channels, vec!["bm25", "title", "trigram-vector"]);
    assert_eq!(results[0].elapsed_us, 42);
    assert_eq!(results[0].snippet, "The meteor shower began.");
    assert!(results.iter().all(|r| f32::from_bits(r.score_bits) > 0.0));
    for pair in results.windows(2) {
        assert!(f32::from_bits(pair[0].score_bits) >= f32::from_bits(pair[1].score_bits));
    }
    assert_eq!(engine.search_sidebar("meteor", 1, 0).unwrap().len(), 1);
    assert!(engine.search_sidebar("  ", 5, 0).unwrap().is_empty());
    assert!(engine.search_sidebar("  ", usize::MAX, 0).unwrap().is_empty());
    assert!(engine.recall_ambient(None, "meteor", usize::MAX, 0).unwrap().is_empty());
    assert!(engine.search_sidebar("meteor", 0, 0).unwrap().is_empty());
}

#[test]
fn a_later_note_replaces_an_earlier_one() {
    let mut engine = open();
    engine.upsert(note("a", "Old", "ancient words")).unwrap();
    engine.upsert(note("a", "New", "modern words")).unwrap();
    assert_eq!(engine.document_count(), 1);
    let results = engine.search_sidebar("modern", 5, 0).unwrap();
    assert_eq!(results[0].title, "New");
    assert!(engine.upsert(note("", "t", "b")).is_err());
    assert_eq!(engine.documents().len(), 1);
}

#[test]
fn the_pool_is_six_times_the_limit_and_at_least_thirty() {
    assert_eq!(search_pool("x", 3), Some(30));
    assert_eq!(search_pool("x", 10), Some(60));
    assert_eq!(search_pool("  ", 3), None);
    assert_eq!(search_pool("x", 0), None);
}

#[test]
fn ambient_text_is_long_enough_and_cut_to_its_end() {
    assert_eq!(ambient_query("eleven char"), None);
    assert_eq!(ambient_query("twelve chars").as_deref(), Some("twelve chars"));
    let long = "é".repeat(700);
    assert_eq!(ambient_query(&long).unwrap().chars().count(), 600);
}

#[test]
fn titles_score_by_how_much_of_them_is_asked() {
    assert_eq!(title_score("meteor", "meteor"), Some(3));
    assert_eq!(title_score("meteor notes", "meteor"), Some(2));
    assert_eq!(title_score("on meteor", "meteor"), Some(1));
    assert_eq!(title_score("groceries", "meteor"), None);
    let mut documents = DocumentMap::new();
    documents.put("b", note("b", "On meteors", ""));
    documents.put("a", note("a", "Meteor", ""));
    documents.put("c", note("c", "Tea", ""));
    assert_eq!(rank_titles(&documents, "METEOR", 5), vec!["a", "b"]);
    assert_eq!(rank_titles(&documents, "meteor", 1), vec!["a"]);
}

#[test]
fn fused_rankings_add_reciprocal_ranks() {
    let ids = |v: &[&str]| v.iter().map(|s| s.to_string()).collect::<Vec<String>>();
    let fused = fuse(&ids(&["a", "b"]), &ids(&["b"]), &ids(&["b", "c"]));
    let found: Vec<&str> = fused.iter().map(|f| f.id.as_str()).collect();
    assert_eq!(found, vec!["a", "b", "c"]);
    let term = |weight: f32, rank: f32| weight / (60.0 + rank + 1.0);
    let expected = [
        term(1.35, 0.0),
        term(1.35, 1.0) + term(1.0, 0.0) + term(0.8, 0.0),
        term(0.8, 1.0),
    ];
    let scores: Vec<f32> = fused.iter().map(|f| f32::from_bits(f.score_bits)).collect();
    assert_eq!(scores, expected);
    assert!(fused[1].title && fused[1].bm25 && fused[1].trigram_vector);
    assert!(fused[0].title && !fused[0].bm25 && !fused[0].trigram_vector);
}

fn hardware_vector(text: &str) -> Vec<f32> {
    let counts = text_trigrams(text);
    let mut v: Vec<f32> = counts.iter().map(|&c| f32::from_bits(c)).collect();
    let norm = v.iter().fold(0.0_f32, |s, x| s + x * x).sqrt();
    if norm > 0.0 {
        for x in &mut v {
            *x /= norm;
        }
    }
    v
}

#[test]
fn similarities_are_what_the_hardware_computes() {
    let texts = [
        "The observatory tracks a meteor shower before dawn.",
        "meteor showers at the observatory",
        "Apples, oats, and tea.",
        "",
    ];
    for a in texts {
        for b in texts {
            let (x, y) = (hardware_vector(a), hardware_vector(b));
            let mut expected = 0.0_f32;
            for i in 0..x.len() {
                expected += x[i] * y[i];
            }
            let score = f32::from_bits(cosine(&vectorize(a), &vectorize(b)));
            assert_eq!(score, expected, "{a} / {b}");
        }
    }
}

#[test]
fn snippets_show_the_query() {
    let body = format!("{} meteor {}", "a".repeat(400), "b".repeat(400));
    let shown = snippet(&body, "Meteor").unwrap();
    assert!(shown.contains("meteor"));
    assert!(shown.chars().count() <= 180);
    assert_eq!(snippet("short body", "absent").as_deref(), Some("short body"));
}

#[test]
fn only_small_text_files_are_indexed() {
    assert!(supported(Some("MD")));
    assert!(supported(Some("txt")));
    assert!(!supported(Some("png")));
    assert!(!supported(None));
    assert!(may_index(Some("md"), Some(MAX_FILE_BYTES)));
    assert!(!may_index(Some("md"), Some(MAX_FILE_BYTES + 1)));
}

#[test]
fn a_file_becomes_a_note() {
    let doc = file_document(
        "/vault/Idea.md".to_string(),
        Some("Idea".to_string()),
        Some("/vault".to_string()),
        "text".to_string(),
    );
    assert_eq!(doc.doc_id, "/vault/Idea.md");
    assert_eq!(doc.title, "Idea");
    assert_eq!(doc.domain, "note");
    assert_eq!(doc.body, "text");
}

#[test]
fn a_report_counts_each_file_once() {
    let counts = report(&vec![
        FileOutcome::Indexed,
        FileOutcome::Skipped,
        FileOutcome::Unreadable,
        FileOutcome::Refused,
        FileOutcome::Indexed,
    ]);
    assert_eq!(counts, IndexReport { indexed: 2, skipped: 1, failed: 2 });
    assert_eq!(report(&vec![]), IndexReport::default());
}

#[test]
fn options_are_taken_out_of_arguments() {
    let mut args: Vec<String> = ["search", "--index", "/tmp/x", "two", "words"]
        .iter()
        .map(|s| s.to_string())
        .collect();
    assert_eq!(take_option(&mut args, "--index").as_deref(), Some("/tmp/x"));
    assert_eq!(args, vec!["search", "two", "words"]);
    assert_eq!(join_from(&args, 1), "two words");
    assert_eq!(take_option(&mut args, "--index"), None);
    assert_eq!(args.len(), 3);
    let mut last = vec!["--index".to_string()];
    assert_eq!(take_option(&mut last, "--index"), None);
}
