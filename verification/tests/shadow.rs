use std::sync::Arc;

use epistemos_recall::shadow::backend::{
    build_snippet, check_embedding, embedding_text, is_oversized, restore_notes, stale_ids,
    BackendDocuments, IndexMatch, SearchPlan, EMBED_DIM, MAX_DERIVED_DOCS_BYTES,
};
use epistemos_recall::shadow::documents::{DocumentMap, ShadowDocument};
use epistemos_recall::shadow::error::{outcome_code, ShadowError};
use epistemos_recall::shadow::handle::{argument_error, reply, ArgumentFault, HandleEvent};
use epistemos_recall::shadow::lexical::LexicalIndex;
use epistemos_recall::shadow::memory::{Edition, ShadowState};
use epistemos_recall::shadow::nesting::{shallow, MAX_NEGATIONS, MAX_NESTING};
use epistemos_recall::shadow::notes::{RealBackend, ShadowBackend};
use epistemos_recall::shadow::vectors::{MappingSnapshot, RowPlan, VectorIndex};

fn document(id: &str, domain: &str, title: &str, body: &str) -> ShadowDocument {
    ShadowDocument {
        doc_id: id.to_string(),
        title: title.to_string(),
        body: body.to_string(),
        domain: domain.to_string(),
        origin_vault_key: None,
    }
}

fn note(id: &str, title: &str, body: &str) -> ShadowDocument {
    document(id, "note", title, body)
}

fn fresh_state() -> ShadowState {
    ShadowState::new(Edition::Semantic)
}

// The engine in memory.

#[test]
fn state_insert_then_search_returns_hit() {
    let mut state = fresh_state();
    state
        .insert_document(note("n1", "Kant on duty", "Categorical imperative discussion"))
        .unwrap();
    let hits = state.search("kant", "note", 10).unwrap();
    assert_eq!(hits.len(), 1);
    assert_eq!(hits[0].doc_id, "n1");
    assert!(f32::from_bits(hits[0].score_bits) > 0.0);
    assert_eq!(hits[0].source, "in-memory-substring");
}

#[test]
fn origin_vault_key_round_trips_through_search() {
    let mut state = fresh_state();
    state
        .insert_document(ShadowDocument {
            origin_vault_key: Some("vault-alpha".into()),
            ..note("n-vk", "Kant on duty", "Categorical imperative discussion")
        })
        .unwrap();
    let hits = state.search("kant", "note", 10).unwrap();
    assert_eq!(hits.len(), 1);
    assert_eq!(hits[0].origin_vault_key.as_deref(), Some("vault-alpha"));
}

#[test]
fn origin_vault_key_nil_passthrough_preserved() {
    let mut state = fresh_state();
    state.insert_document(note("n-nil", "Title", "body")).unwrap();
    let hits = state.search("body", "note", 10).unwrap();
    assert_eq!(hits.len(), 1);
    assert!(hits[0].origin_vault_key.is_none());
}

#[test]
fn empty_query_returns_empty_results() {
    let mut state = fresh_state();
    state.insert_document(note("n1", "anything", "anything")).unwrap();
    assert!(state.search("", "note", 10).unwrap().is_empty());
    assert!(state.search("   ", "note", 10).unwrap().is_empty());
}

#[test]
fn unknown_domain_rejected_on_search() {
    let state = fresh_state();
    let err = state.search("kant", "unknown", 10).unwrap_err();
    assert!(matches!(err, ShadowError::InvalidInput { .. }));
}

#[test]
fn unknown_domain_rejected_on_insert() {
    let mut state = fresh_state();
    let err = state
        .insert_document(document("x", "unknown", "x", "x"))
        .unwrap_err();
    assert!(matches!(err, ShadowError::InvalidInput { .. }));
}

#[test]
fn empty_doc_id_rejected_on_insert() {
    let mut state = fresh_state();
    let err = state.insert_document(note("", "t", "b")).unwrap_err();
    assert!(matches!(err, ShadowError::InvalidInput { .. }));
}

#[test]
fn state_search_filters_by_domain() {
    let mut state = fresh_state();
    state.insert_document(note("n1", "kant", "kant body")).unwrap();
    state
        .insert_document(document("c1", "chat", "kant chat", "kant chat body"))
        .unwrap();
    let notes = state.search("kant", "note", 10).unwrap();
    let chats = state.search("kant", "chat", 10).unwrap();
    assert_eq!(notes.len(), 1);
    assert_eq!(chats.len(), 1);
    assert_eq!(notes[0].doc_id, "n1");
    assert_eq!(chats[0].doc_id, "c1");
}

#[test]
fn title_hit_outranks_body_only_hit() {
    let mut state = fresh_state();
    state
        .insert_document(note("title", "kant on duty", "unrelated body"))
        .unwrap();
    state
        .insert_document(note("body", "unrelated title", "this mentions kant in passing"))
        .unwrap();
    let hits = state.search("kant", "note", 10).unwrap();
    assert_eq!(
        hits[0].doc_id, "title",
        "title match must outrank body-only match"
    );
}

#[test]
fn limit_caps_results() {
    let mut state = fresh_state();
    for i in 0..20 {
        state
            .insert_document(note(&format!("n{i}"), "kant", "kant"))
            .unwrap();
    }
    let hits = state.search("kant", "note", 5).unwrap();
    assert_eq!(hits.len(), 5);
}

#[test]
fn remove_then_search_returns_empty() {
    let mut state = fresh_state();
    state.insert_document(note("n1", "kant", "kant")).unwrap();
    state.remove_document("n1").unwrap();
    assert!(state.search("kant", "note", 10).unwrap().is_empty());
}

#[test]
fn remove_unknown_returns_not_found() {
    let mut state = fresh_state();
    let err = state.remove_document("unknown").unwrap_err();
    assert!(matches!(err, ShadowError::NotFound { .. }));
}

#[test]
fn stats_track_counts_per_domain() {
    let mut state = fresh_state();
    state.insert_document(note("n1", "a", "b")).unwrap();
    state.insert_document(note("n2", "c", "d")).unwrap();
    state.insert_document(document("c1", "chat", "x", "y")).unwrap();
    let stats = state.stats(7).unwrap();
    assert_eq!(stats.note_count, 2);
    assert_eq!(stats.chat_count, 1);
    assert!(stats.index_size_bytes > 0);
    assert_eq!(stats.last_flush_ms_ago, 7);
}

#[test]
fn snippet_handles_unicode_boundary() {
    let mut body = String::new();
    for _ in 0..40 {
        body.push_str("hellö ");
    }
    let mut state = fresh_state();
    state.insert_document(note("u", "title", &body)).unwrap();
    let hits = state.search("hellö", "note", 1).unwrap();
    assert!(!hits.is_empty());
    let _ = hits[0].snippet.chars().count();
}

#[test]
fn the_free_edition_holds_notes_only() {
    let mut state = ShadowState::new(Edition::FreeLexical);
    assert!(state.insert_document(document("c", "chat", "t", "b")).is_err());
    assert!(state.search("t", "chat", 5).is_err());
    state.insert_document(note("n", "t", "b")).unwrap();
    assert_eq!(state.search("t", "note", 5).unwrap().len(), 1);
}

#[test]
fn letters_of_both_cases_match() {
    let mut state = fresh_state();
    state.insert_document(note("n", "ÜBER", "straße")).unwrap();
    assert_eq!(state.search("über", "note", 5).unwrap().len(), 1);
    assert_eq!(state.search("STRASSE", "note", 5).unwrap().len(), 0);
}

#[test]
fn a_later_insertion_replaces_an_earlier_one() {
    let mut state = fresh_state();
    state.insert_document(note("n", "first", "x")).unwrap();
    state.insert_document(note("n", "second", "x")).unwrap();
    assert_eq!(state.stats(0).unwrap().note_count, 1);
    assert!(state.search("first", "note", 5).unwrap().is_empty());
    assert_eq!(state.search("second", "note", 5).unwrap()[0].title, "second");
}

// The full-text index.

#[test]
fn lexical_index_insert_then_search_returns_hit() {
    let mut idx = LexicalIndex::new().unwrap();
    idx.insert(&note("a", "Quarterly report", "revenue grew by 12 percent"))
        .unwrap();
    let hits = idx.search("revenue", "note", 10).unwrap();
    assert_eq!(hits.len(), 1);
    assert_eq!(hits[0].doc_id, "a");
    assert!(f32::from_bits(hits[0].score_bits) > 0.0);
}

#[test]
fn lexical_index_search_filters_by_domain() {
    let mut idx = LexicalIndex::new().unwrap();
    idx.insert(&note("a", "x", "report")).unwrap();
    idx.insert(&document("b", "chat", "y", "report")).unwrap();
    let note_hits = idx.search("report", "note", 10).unwrap();
    let chat_hits = idx.search("report", "chat", 10).unwrap();
    assert_eq!(note_hits.len(), 1);
    assert_eq!(note_hits[0].doc_id, "a");
    assert_eq!(chat_hits.len(), 1);
    assert_eq!(chat_hits[0].doc_id, "b");
}

#[test]
fn remove_excludes_from_search() {
    let mut idx = LexicalIndex::new().unwrap();
    idx.insert(&note("a", "x", "important")).unwrap();
    idx.remove("a").unwrap();
    let hits = idx.search("important", "note", 10).unwrap();
    assert!(hits.is_empty());
}

#[test]
fn lexical_index_remove_unknown_is_idempotent() {
    let mut idx = LexicalIndex::new().unwrap();
    idx.remove("never-inserted").unwrap();
    idx.remove("never-inserted").unwrap();
    assert_eq!(idx.doc_count(), 0);
}

#[test]
fn empty_query_returns_empty() {
    let mut idx = LexicalIndex::new().unwrap();
    idx.insert(&note("a", "x", "body")).unwrap();
    assert!(idx.search("", "note", 10).unwrap().is_empty());
    assert!(idx.search("   ", "note", 10).unwrap().is_empty());
}

#[test]
fn limit_zero_returns_empty() {
    let mut idx = LexicalIndex::new().unwrap();
    idx.insert(&note("a", "x", "body")).unwrap();
    assert!(idx.search("body", "note", 0).unwrap().is_empty());
}

#[test]
fn special_chars_in_query_dont_panic() {
    let mut idx = LexicalIndex::new().unwrap();
    idx.insert(&note("a", "x", "body")).unwrap();
    for query in [":", "!@#$", "AND", "OR", "()", "[]", "+-*/"] {
        let result = idx.search(query, "note", 10);
        assert!(
            result.is_ok(),
            "punctuation query '{query}' MUST NOT bubble parser error; got {result:?}"
        );
    }
}

#[test]
fn deeply_nested_queries_ask_for_their_words() {
    let mut idx = LexicalIndex::new().unwrap();
    idx.insert(&note("a", "x", "body text")).unwrap();
    idx.insert(&note("b", "x", "body")).unwrap();
    let ids = |query: &str| -> Vec<String> {
        let mut ids: Vec<String> =
            idx.search(query, "note", 10).unwrap().into_iter().map(|h| h.doc_id).collect();
        ids.sort();
        ids
    };
    let nest = |depth: usize| format!("{}body text{}", "(".repeat(depth), ")".repeat(depth));
    assert_eq!(ids(&nest(2)), vec!["a", "b"]);
    assert_eq!(ids(&nest(11)), vec!["a", "b"]);
    assert_eq!(ids(&nest(15)), vec!["a", "b"]);
    assert_eq!(ids(&nest(31)), vec!["a"]);
    assert_eq!(ids(&format!("{}body", "(".repeat(100_000))), vec!["a", "b"]);
    assert_eq!(ids(&format!("{}body", "NOT ".repeat(1_000))), Vec::<String>::new());
    assert_eq!(ids(&format!("body {}text", "NOT ".repeat(200))), vec!["a", "b"]);
    assert_eq!(ids(&format!("body{}", " NOT (text)".repeat(300))), vec!["b"]);
    assert_eq!(ids("body NOT text"), vec!["b"]);
}

#[test]
fn brackets_side_by_side_are_not_nested() {
    let mut idx = LexicalIndex::new().unwrap();
    idx.insert(&note("a", "x", "body text")).unwrap();
    idx.insert(&note("b", "x", "body")).unwrap();
    let ids = |query: &str| -> Vec<String> {
        let mut ids: Vec<String> =
            idx.search(query, "note", 10).unwrap().into_iter().map(|h| h.doc_id).collect();
        ids.sort();
        ids
    };
    let groups = " (zebra)".repeat(60);
    assert_eq!(ids(&format!("body{groups}")), vec!["a", "b"]);
    assert_eq!(ids(&format!("\"body text\"{groups}")), vec!["a"]);
    assert_eq!(ids(&format!("body don't{groups}")), vec!["a", "b"]);
    assert_eq!(ids(&format!("body \"{}\"", "(".repeat(60))), vec!["a", "b"]);
    assert_eq!(ids(&format!("'body'{groups}")), vec!["a", "b"]);
    assert_eq!(ids(&format!("body{}", " ('zebra')".repeat(60))), vec!["a", "b"]);
    assert_eq!(ids(&format!("body '{}", "(zebra) ".repeat(60))), vec!["a", "b"]);
}

#[test]
fn the_depth_of_a_query_is_counted_outside_of_quotations() {
    let shallow_text = |query: &str| shallow(&query.chars().collect());
    let open = |n: usize| "(".repeat(n);
    assert!(shallow_text(&open(MAX_NESTING)));
    assert!(!shallow_text(&open(MAX_NESTING + 1)));
    assert!(shallow_text(&format!("\"{}\"", open(100))));
    assert!(!shallow_text(&format!("\\\"{}\"", open(100))));
    assert!(!shallow_text(&format!("'{}'", open(100))));
    assert!(!shallow_text(&format!("a'{}'", open(100))));
    assert!(!shallow_text(&"(')' ".repeat(MAX_NESTING + 1)));
    assert!(!shallow_text(&"(\")\" ".repeat(MAX_NESTING + 1)));
    assert!(shallow_text(&"(a')' ".repeat(MAX_NESTING + 1)));
    assert!(shallow_text(&"NOT ".repeat(MAX_NEGATIONS)));
    assert!(!shallow_text(&"NOT ".repeat(MAX_NEGATIONS + 1)));
    assert!(!shallow_text(&"(NOT NOT ".repeat(MAX_NESTING).replace("NOT", &"NOT ".repeat(5))));
    assert!(shallow_text(&"NOT a ".repeat(MAX_NEGATIONS + 1)));
    assert!(shallow_text(&"NOT (a) ".repeat(MAX_NEGATIONS + 1)));
}

#[test]
fn weighted_queries_find_what_they_want() {
    let mut idx = LexicalIndex::new().unwrap();
    idx.insert(&note("a", "x", "body text")).unwrap();
    idx.insert(&note("b", "x", "body")).unwrap();
    idx.insert(&note("c", "x", "other")).unwrap();
    let hits = idx.search("body text^8", "note", 10).unwrap();
    let ids: Vec<&str> = hits.iter().map(|h| h.doc_id.as_str()).collect();
    assert_eq!(ids, vec!["a", "b"]);
    let hits = idx.search("+text^2 body^0.5", "note", 10).unwrap();
    let ids: Vec<&str> = hits.iter().map(|h| h.doc_id.as_str()).collect();
    assert_eq!(ids, vec!["a"]);
}

#[test]
fn blank_queries_find_nothing_whatever_the_limit() {
    let mut idx = LexicalIndex::new().unwrap();
    idx.insert(&note("a", "x", "body")).unwrap();
    assert!(idx.search("  ", "note", usize::MAX).unwrap().is_empty());
}

#[test]
fn insert_replaces_document_for_same_doc_id() {
    let mut idx = LexicalIndex::new().unwrap();
    idx.insert(&note("a", "first", "first body")).unwrap();
    idx.insert(&note("a", "second", "second body")).unwrap();
    assert_eq!(idx.doc_count(), 1, "insert MUST replace, not duplicate");
    let hits = idx.search("second", "note", 10).unwrap();
    assert_eq!(hits.len(), 1);
    assert_eq!(hits[0].title, "second");
}

#[test]
fn lexical_hits_come_in_the_order_of_their_scores() {
    let mut idx = LexicalIndex::new().unwrap();
    idx.insert(&note("once", "x", "storm over a wide and quiet sea")).unwrap();
    idx.insert(&note("often", "storm", "storm storm storm")).unwrap();
    idx.insert(&note("never", "x", "calm")).unwrap();
    let hits = idx.search("storm", "note", 10).unwrap();
    assert_eq!(hits.len(), 2);
    assert_eq!(hits[0].doc_id, "often");
    assert_eq!(hits[1].doc_id, "once");
    assert_eq!(hits[1].body, "storm over a wide and quiet sea");
    assert!(f32::from_bits(hits[0].score_bits) >= f32::from_bits(hits[1].score_bits));
    assert_eq!(idx.search("storm", "note", 1).unwrap().len(), 1);
}

#[test]
fn a_query_that_cannot_be_parsed_asks_for_its_words() {
    let mut idx = LexicalIndex::new().unwrap();
    idx.insert(&note("both", "x", "rust and verus")).unwrap();
    idx.insert(&note("one", "x", "rust alone")).unwrap();
    let hits = idx.search("rust (verus", "note", 10).unwrap();
    assert_eq!(hits.len(), 1);
    assert_eq!(hits[0].doc_id, "both");
}

#[test]
fn all_documents_are_listed_but_those_without_an_identifier() {
    let mut idx = LexicalIndex::new().unwrap();
    assert!(idx.iter_doc_ids().unwrap().is_empty());
    idx.insert(&note("a", "x", "body")).unwrap();
    idx.insert(&document("b", "chat", "x", "body")).unwrap();
    idx.insert(&note("", "x", "body")).unwrap();
    assert_eq!(idx.doc_count(), 3);
    let mut listed = idx.iter_doc_ids().unwrap();
    listed.sort();
    assert_eq!(
        listed,
        vec![
            ("a".to_string(), "note".to_string()),
            ("b".to_string(), "chat".to_string())
        ]
    );
}

#[test]
fn an_index_in_a_directory_is_opened_again() {
    let directory = tantivy::directory::MmapDirectory::create_from_tempdir().unwrap();
    let mut first = LexicalIndex::build_from_directory(directory.clone()).unwrap();
    assert_eq!(first.doc_count(), 0);
    first.insert(&note("a", "Alpha", "first body")).unwrap();
    drop(first);
    let second = LexicalIndex::build_from_directory(directory).unwrap();
    assert_eq!(second.doc_count(), 1);
    let hits = second.search("first", "note", 5).unwrap();
    assert_eq!(hits.len(), 1);
    assert_eq!(hits[0].doc_id, "a");
}

#[test]
fn an_index_with_other_fields_is_refused() {
    let directory = tantivy::directory::MmapDirectory::create_from_tempdir().unwrap();
    let schema = tantivy::schema::Schema::builder().build();
    let other =
        tantivy::Index::create(directory.clone(), schema, tantivy::IndexSettings::default());
    assert!(other.is_ok());
    assert!(matches!(
        LexicalIndex::build_from_directory(directory),
        Err(ShadowError::Backend { .. })
    ));
}

fn found_ids(index: &LexicalIndex, query: &str, domain: &str, limit: usize) -> Vec<String> {
    let mut ids: Vec<String> = index
        .search(query, domain, limit)
        .unwrap()
        .into_iter()
        .map(|h| h.doc_id)
        .collect();
    ids.sort();
    ids
}

#[test]
fn words_of_a_query_ask_for_any_of_them_in_title_or_body() {
    let mut index = LexicalIndex::new().unwrap();
    index.insert(&note("a", "Rust-2021!", "borrowing and lifetimes")).unwrap();
    index.insert(&note("b", "Cooking", "a rusty pan")).unwrap();
    index.insert(&note("c", "Travel", "LIFETIMES of stars")).unwrap();
    assert_eq!(found_ids(&index, "rust", "note", 10), vec!["a"]);
    assert_eq!(found_ids(&index, " 2021 ", "note", 10), vec!["a"]);
    assert_eq!(found_ids(&index, "lifetimes pan", "note", 10), vec!["a", "b", "c"]);
    assert_eq!(found_ids(&index, "absent", "note", 10), Vec::<String>::new());
    assert_eq!(found_ids(&index, "lifetimes pan", "chat", 10), Vec::<String>::new());
    assert_eq!(found_ids(&index, "lifetimes pan", "note", 2).len(), 2);
    index.remove("a").unwrap();
    assert_eq!(found_ids(&index, "rust lifetimes", "note", 10), vec!["c"]);
}

#[test]
fn long_words_of_a_text_are_not_found() {
    let short = "x".repeat(39);
    let long = "y".repeat(40);
    let mut index = LexicalIndex::new().unwrap();
    index.insert(&note("a", "t", &short)).unwrap();
    index.insert(&note("b", "t", &long)).unwrap();
    assert_eq!(found_ids(&index, &short, "note", 10), vec!["a"]);
    assert_eq!(found_ids(&index, &format!("t {short}"), "note", 10), vec!["a", "b"]);
}

#[test]
fn operators_and_phrases_narrow_a_query() {
    let mut index = LexicalIndex::new().unwrap();
    index.insert(&note("a", "One", "red green blue")).unwrap();
    index.insert(&note("b", "Two", "green red blue")).unwrap();
    index.insert(&note("c", "Three", "red")).unwrap();
    assert_eq!(found_ids(&index, "red AND blue", "note", 10), vec!["a", "b"]);
    assert_eq!(found_ids(&index, "\"red green\"", "note", 10), vec!["a"]);
    assert_eq!(found_ids(&index, "red -blue", "note", 10), vec!["c"]);
    assert_eq!(found_ids(&index, "title:two", "note", 10), vec!["b"]);
}

#[test]
fn a_query_that_cannot_be_parsed_asks_for_all_its_words_in_the_body() {
    let mut index = LexicalIndex::new().unwrap();
    index.insert(&note("a", "One", "red green blue")).unwrap();
    index.insert(&note("b", "Red", "green")).unwrap();
    index.insert(&note("c", "Three", "Red (blue)")).unwrap();
    assert_eq!(found_ids(&index, "(red blue", "note", 10), vec!["a", "c"]);
    assert_eq!(found_ids(&index, "unknown:(red green", "note", 10), Vec::<String>::new());
    assert_eq!(found_ids(&index, "(((", "note", 10), Vec::<String>::new());
}

// The backend of notes.

#[test]
fn lexical_backend_indexes_notes_and_rejects_other_domains() {
    let mut backend = RealBackend::new().unwrap();
    backend
        .insert_document(note(
            "note-1",
            "Quarterly report",
            "Revenue grew across all regions.",
        ))
        .unwrap();

    let hits = backend.search_notes("revenue", 5).unwrap();
    assert_eq!(hits.len(), 1);
    assert_eq!(hits[0].source, "lexical");
    assert!(backend
        .insert_document(document("legacy", "chat", "Archived", "Never index this in Free."))
        .is_err());
}

#[test]
fn shadow_state_satisfies_shadow_backend_trait() {
    fn assert_trait<T: ShadowBackend>(_t: &T) {}
    let state = ShadowState::default();
    assert_trait(&state);
}

#[test]
fn real_backend_satisfies_shadow_backend_trait() {
    fn assert_trait<T: ShadowBackend>() {}
    assert_trait::<RealBackend>();
}

#[test]
fn the_backend_of_notes_keeps_index_and_documents_together() {
    let mut backend = RealBackend::new().unwrap();
    backend.insert_document(note("a", "Alpha", "one storm")).unwrap();
    backend.insert_document(note("b", "Beta", "two storms")).unwrap();
    backend.insert_document(note("a", "Alpha", "one calm")).unwrap();
    assert!(backend.search_notes("storm", 5).unwrap().is_empty());
    assert_eq!(backend.search_notes("calm", 5).unwrap()[0].title, "Alpha");
    assert!(backend.search_notes("  ", 5).unwrap().is_empty());
    assert!(backend.search_notes("calm", 0).unwrap().is_empty());
    assert_eq!(backend.stats(3).unwrap().note_count, 2);
    backend.remove_document("a").unwrap();
    assert!(backend.search_notes("calm", 5).unwrap().is_empty());
    assert!(matches!(
        backend.remove_document("a"),
        Err(ShadowError::NotFound { .. })
    ));
    assert!(matches!(
        backend.insert_document(note("", "t", "b")),
        Err(ShadowError::InvalidInput { .. })
    ));
}

#[test]
fn a_restored_backend_finds_what_it_held() {
    let mut index = LexicalIndex::new().unwrap();
    index.insert(&note("gone", "x", "stale words")).unwrap();
    index.insert(&note("kept", "x", "fresh words")).unwrap();
    let mut documents = DocumentMap::new();
    documents.put("kept", note("kept", "x", "fresh words"));
    let backend = RealBackend::restore(index, documents).unwrap();
    let hits = backend.search_notes("words", 5).unwrap();
    assert_eq!(hits.len(), 1);
    assert_eq!(hits[0].doc_id, "kept");
    assert_eq!(backend.documents().len(), 1);
}

#[test]
fn both_backends_answer_the_same_calls() {
    fn run<T: ShadowBackend>(backend: &mut T) -> usize {
        backend.insert_document(note("n", "Kant", "duty")).unwrap();
        backend.search_notes("kant", 5).unwrap().len()
    }
    assert_eq!(run(&mut ShadowState::default()), 1);
    assert_eq!(run(&mut RealBackend::new().unwrap()), 1);
}

// Documents beside outside indices.

#[test]
fn documents_are_checked_before_they_are_indexed() {
    let mut backend = BackendDocuments::new(Edition::Semantic);
    assert!(backend.check_document(&note("a", "t", "b")).is_ok());
    assert!(backend.check_document(&document("a", "chat", "t", "b")).is_ok());
    assert!(backend.check_document(&document("a", "mail", "t", "b")).is_err());
    assert!(backend.check_document(&note("", "t", "b")).is_err());
    let failed = backend.insert_document(
        note("a", "t", "b"),
        Err(ShadowError::Backend { detail: "full".to_string() }),
    );
    assert_eq!(failed, Err(ShadowError::Backend { detail: "full".to_string() }));
    assert_eq!(backend.documents().len(), 0);
    backend.insert_document(note("a", "t", "b"), Ok(())).unwrap();
    assert_eq!(backend.documents().len(), 1);
    assert_eq!(backend.remove_document("a").unwrap().title, "t");
    assert!(backend.remove_document("a").is_err());
}

#[test]
fn fused_matches_become_hits() {
    let mut backend = BackendDocuments::new(Edition::Semantic);
    backend
        .insert_document(note("a", "Alpha", "the storm came"), Ok(()))
        .unwrap();
    assert!(matches!(
        backend.plan_search("storm", "note", 5),
        Ok(SearchPlan::Ask(_))
    ));
    assert!(matches!(
        backend.plan_search("  ", "note", 5),
        Ok(SearchPlan::Nothing)
    ));
    assert!(backend.plan_search("storm", "mail", 5).is_err());
    let one = |id: &str, score: f32| IndexMatch {
        doc_id: id.to_string(),
        score_bits: score.to_bits(),
    };
    let hits = backend.search(
        "storm",
        &vec![one("a", 0.9)],
        &vec![one("a", 2.0)],
        &vec![one("a", 0.03), one("unknown", 0.02)],
    );
    assert_eq!(hits.len(), 1);
    assert_eq!(hits[0].title, "Alpha");
    assert_eq!(hits[0].score_bits, 0.03_f32.to_bits());
}

#[test]
fn the_embedded_text_is_title_and_body() {
    assert_eq!(embedding_text(&note("a", "Title", "Body")), "Title\nBody");
    assert!(check_embedding(EMBED_DIM).is_ok());
    assert!(matches!(
        check_embedding(EMBED_DIM - 1),
        Err(ShadowError::Backend { .. })
    ));
}

#[test]
fn snippets_start_at_the_query() {
    let body = "a".repeat(300) + " needle " + &"b".repeat(300);
    let snippet = build_snippet(&body, "needle");
    assert!(snippet.contains("needle"));
    assert!(snippet.len() < body.len());
    assert_eq!(build_snippet("short body", "missing"), "short body");
}

#[test]
fn sidecars_are_bounded_and_restored_notes_are_notes() {
    assert!(!is_oversized(Some(MAX_DERIVED_DOCS_BYTES)));
    assert!(is_oversized(Some(MAX_DERIVED_DOCS_BYTES + 1)));
    let entries = vec![
        ("a".to_string(), note("a", "t", "b")),
        ("c".to_string(), document("c", "chat", "t", "b")),
    ];
    let (documents, dropped) = restore_notes(&entries);
    assert_eq!(documents.len(), 1);
    assert!(!dropped);
    let indexed = vec![
        ("a".to_string(), "note".to_string()),
        ("z".to_string(), "note".to_string()),
    ];
    assert_eq!(stale_ids(&documents, &indexed), vec!["z".to_string()]);
}

// Rows of vectors.

#[test]
fn new_with_zero_dimension_errors() {
    match VectorIndex::new(0) {
        Err(ShadowError::Backend { detail }) => {
            assert!(detail.contains("dimension must be > 0"))
        }
        Err(other) => panic!("expected Backend error; got {other:?}"),
        Ok(_) => panic!("zero-dim VectorIndex MUST be rejected"),
    }
}

#[test]
fn dimension_mismatch_returns_empty_results_not_panic() {
    let mut idx = VectorIndex::new(8).unwrap();
    let _ = idx.add("doc-A", 8);
    assert!(!idx.may_search(16, 4), "wrong-dim query MUST return empty");
    assert!(idx.may_search(8, 4));
    assert_eq!(
        idx.add("doc-B", 16),
        Err(ShadowError::Backend {
            detail: "vector dim 16 does not match index dim 8".to_string()
        })
    );
}

#[test]
fn add_then_remove_excludes_from_search() {
    let mut idx = VectorIndex::new(8).unwrap();
    let plan = idx.add("doc-A", 8).unwrap();
    let distances = vec![0.25_f32.to_bits()];
    assert_eq!(
        idx.resolve(&vec![plan.key], &distances),
        vec![("doc-A".to_string(), 0.75_f32.to_bits())]
    );
    assert_eq!(idx.remove("doc-A"), Some(plan.key));
    assert!(
        idx.resolve(&vec![plan.key], &distances).is_empty(),
        "removed doc MUST NOT appear in search"
    );
    assert_eq!(idx.len(), 0);
}

#[test]
fn vector_index_remove_unknown_is_idempotent() {
    let mut idx = VectorIndex::new(8).unwrap();
    assert_eq!(idx.remove("never-inserted"), None);
    assert_eq!(idx.remove("never-inserted"), None);
    assert!(idx.is_empty());
}

#[test]
fn add_replaces_vector_for_existing_doc_id() {
    let mut idx = VectorIndex::new(8).unwrap();
    let first = idx.add("doc-A", 8).unwrap();
    let second = idx.add("doc-A", 8).unwrap();
    assert_eq!(first, RowPlan { key: 0, replace: false, grow: None });
    assert_eq!(second, RowPlan { key: 0, replace: true, grow: None });
    assert_eq!(idx.len(), 1);
}

#[test]
fn search_limit_zero_returns_empty() {
    let mut idx = VectorIndex::new(8).unwrap();
    idx.add("doc-A", 8).unwrap();
    assert!(!idx.may_search(8, 0));
}

#[test]
fn load_mapping_preserves_free_key_recycling() {
    let mut original = VectorIndex::new(8).unwrap();
    original.add("a", 8).unwrap();
    original.add("b", 8).unwrap();
    original.add("c", 8).unwrap();
    original.remove("b");
    let saved = original.snapshot();

    let mut restored = VectorIndex::new(8).unwrap();
    restored.restore(saved);
    assert_eq!(restored.len(), 2);
    restored.add("d", 8).unwrap();
    assert_eq!(
        restored.key_of("d"),
        Some(1),
        "free-key recycling MUST survive persistence round-trip"
    );
}

#[test]
fn key_recycling_on_remove_keeps_keyspace_compact() {
    let mut idx = VectorIndex::new(8).unwrap();
    idx.add("a", 8).unwrap();
    idx.add("b", 8).unwrap();
    idx.add("c", 8).unwrap();
    idx.remove("b");
    idx.add("d", 8).unwrap();
    assert_eq!(idx.key_of("d"), Some(1));
    assert_eq!(idx.next_key(), 3);
}

#[test]
fn rows_beyond_the_reserve_double_it() {
    let mut idx = VectorIndex::new(2).unwrap();
    idx.restore(MappingSnapshot {
        doc_to_key: vec![("last".to_string(), 1023)],
        free_keys: vec![],
        next_key: 1024,
        reserved_capacity: 1024,
    });
    let plan = idx.add("next", 2).unwrap();
    assert_eq!(plan, RowPlan { key: 1024, replace: false, grow: Some(2048) });
    idx.note_reserved(2048);
    assert_eq!(idx.snapshot().reserved_capacity, 2048);
    assert_eq!(idx.add("after", 2).unwrap().grow, None);
}

#[test]
fn unknown_keys_are_left_out_of_results() {
    let mut idx = VectorIndex::new(2).unwrap();
    idx.add("a", 2).unwrap();
    idx.add("b", 2).unwrap();
    let distances: Vec<u32> = [0.1_f32, 0.2, 0.3].iter().map(|d| d.to_bits()).collect();
    assert_eq!(
        idx.resolve(&vec![1, 9, 0], &distances),
        vec![
            ("b".to_string(), (1.0_f32 - 0.1).to_bits()),
            ("a".to_string(), (1.0_f32 - 0.3).to_bits())
        ]
    );
    for distance in [-0.5_f32, 0.0, 1e-9, 1.0, 2.0, 2.5, f32::INFINITY, f32::NEG_INFINITY] {
        assert_eq!(
            idx.resolve(&vec![0], &vec![distance.to_bits()]),
            vec![("a".to_string(), (1.0 - distance).clamp(-1.0, 1.0).to_bits())]
        );
    }
    assert_eq!(idx.key_of("a"), Some(0));
    assert_eq!(idx.key_of("z"), None);
}

// Handles and errors.

#[test]
fn borrow_preserves_refcount() {
    let arc = Arc::new(0u32);
    let count_before = {
        let temp = Arc::clone(&arc);
        Arc::strong_count(&temp)
    };
    assert_eq!(
        count_before, 2,
        "before: count must observe the bumped reference"
    );
    let count_after = {
        let temp = Arc::clone(&arc);
        Arc::strong_count(&temp)
    };
    assert_eq!(count_after, count_before);
    assert_eq!(Arc::strong_count(&arc), 1);
    assert_eq!(reply(HandleEvent::NullHandle).code, -1);
}

#[test]
fn each_error_has_its_code_and_message() {
    let detail = "x".to_string();
    let cases = vec![
        (ShadowError::InvalidInput { detail: detail.clone() }, -1, "invalid input: x"),
        (ShadowError::NotFound { doc_id: detail.clone() }, -2, "document not found: x"),
        (ShadowError::Io { detail: detail.clone() }, -3, "io error: x"),
        (ShadowError::Backend { detail }, -4, "backend error: x"),
        (ShadowError::Panic, -99, "rust panic at FFI boundary"),
    ];
    for (error, code, message) in cases {
        assert_eq!(error.as_code(), code);
        assert_eq!(error.message(), message);
        assert_eq!(outcome_code(&Err(error)), code);
    }
    assert_eq!(outcome_code(&Ok(())), 0);
}

#[test]
fn replies_tell_how_far_a_call_came() {
    let error = || ShadowError::NotFound { doc_id: "d".to_string() };
    assert_eq!(reply(HandleEvent::BadArgument(error())).code, -2);
    assert_eq!(reply(HandleEvent::Failed(error())).code, -2);
    assert_eq!(reply(HandleEvent::NotEncoded(error())).code, -2);
    assert_eq!(reply(HandleEvent::Panicked).code, -99);
    let answered = reply(HandleEvent::Answered("[]".to_string()));
    assert_eq!(answered.code, 0);
    assert_eq!(answered.text.as_deref(), Some("[]"));
    assert_eq!(reply(HandleEvent::Answered("a\0b".to_string())).text, None);
    assert_eq!(
        argument_error("query", ArgumentFault::Null).message(),
        "invalid input: query was null"
    );
    assert_eq!(
        argument_error("query", ArgumentFault::NotUtf8).message(),
        "invalid input: query was not valid UTF-8"
    );
}
