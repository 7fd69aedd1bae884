//! The bounds of the catalog, each with the error that enforces it.

use std::collections::BTreeSet;

use epistemos_recall::digest::sha256_digest;
use epistemos_recall::semantic::blocks::markdown_blocks;
use epistemos_recall::semantic::catalog::ChunkCatalog;
use epistemos_recall::semantic::channel::{
    bits_are_finite, validate_channel_hits, ChannelHit,
};
use epistemos_recall::semantic::error::FreeSemanticError;
use epistemos_recall::semantic::manifest::{
    ChannelReceipt, GenerationManifest, LexicalStagingReceipt, SemanticAvailability,
};
use epistemos_recall::semantic::note::{
    ChunkingPolicy, NoteInput, CHUNK_FORMAT_VERSION, MAX_NOTE_BYTES,
};
use epistemos_recall::semantic::projection::{chunk_note, ChunkProjection, ProjectionStatus};
use epistemos_recall::semantic::rank::{raw_rrf_rank_score, RankFusionPolicy};
use epistemos_recall::semantic::ranking::bounded_snippet;
use epistemos_recall::semantic::request::{ChannelCompletion, HybridRequest, SearchChannel};
use epistemos_recall::semantic::vectors::{
    cosine_search, l2_norm, validate_vector, VectorFixture, LENGTH_EPSILON, MAX_VECTOR_COUNT,
};

fn digest_of(letter: char) -> String {
    format!("sha256:{}", letter.to_string().repeat(64))
}

fn chunk_id(n: usize) -> String {
    format!("pc2:sha256:{n:064x}")
}

fn bits(values: &[f32]) -> Vec<u32> {
    values.iter().map(|v| v.to_bits()).collect()
}

fn projection(note_id: &str, body: &str) -> ChunkProjection {
    let note = NoteInput::new("vault", note_id, "Title", body).unwrap();
    chunk_note(&note, &ChunkingPolicy::default()).unwrap()
}

fn manifest(generation: u64) -> Result<GenerationManifest, FreeSemanticError> {
    GenerationManifest::new(
        "vault",
        generation,
        None,
        None,
        CHUNK_FORMAT_VERSION,
        generation,
        None,
        RankFusionPolicy::new(1, 60).unwrap(),
        None,
        SemanticAvailability::NoCandidateSelected,
        &digest_of('b'),
        None,
    )
}

fn staging() -> LexicalStagingReceipt {
    LexicalStagingReceipt::new(&digest_of('d')).unwrap()
}

fn published() -> ChunkCatalog {
    let mut catalog = ChunkCatalog::new("vault").unwrap();
    let token = catalog.publication_token();
    catalog
        .publish(token, projection("note", "one paragraph"), manifest(1).unwrap())
        .unwrap();
    catalog
}

#[test]
fn identities_are_canonical() {
    let error = |vault: &str, note: &str| NoteInput::new(vault, note, "t", "b").err().unwrap();
    assert_eq!(error("", "n"), FreeSemanticError::EmptyVaultID);
    assert_eq!(error("v", ""), FreeSemanticError::EmptyNoteID);
    assert_eq!(error(" v", "n"), FreeSemanticError::InvalidVaultID);
    assert_eq!(error("a/b", "n"), FreeSemanticError::InvalidVaultID);
    assert_eq!(error("v", "n\u{7}"), FreeSemanticError::InvalidNoteID);
    assert_eq!(error("v", &"n".repeat(257)), FreeSemanticError::InvalidNoteID);
    assert!(NoteInput::new("v", &"n".repeat(256), "t", "b").is_ok());
}

#[test]
fn notes_are_bounded() {
    let error = NoteInput::new("v", "n", "t", &"b".repeat(MAX_NOTE_BYTES)).err().unwrap();
    assert_eq!(error, FreeSemanticError::NoteTooLarge { limit: MAX_NOTE_BYTES });
    assert_eq!(error.message(), "note exceeds bounded byte limit 1048576");
    assert!(NoteInput::new("v", "n", "t", &"b".repeat(MAX_NOTE_BYTES - 1)).is_ok());
}

#[test]
fn policies_are_bounded() {
    let policy = |max_chunk_bytes, max_chunks_per_note, overlap_bytes| {
        ChunkingPolicy { max_chunk_bytes, max_chunks_per_note, overlap_bytes }.validate()
    };
    assert!(policy(2_048, 128, 128).is_ok());
    for refused in [
        policy(0, 1, 0),
        policy(2_049, 1, 0),
        policy(16, 0, 0),
        policy(16, 129, 0),
        policy(16, 1, 16),
        policy(2_048, 1, 257),
    ] {
        assert_eq!(refused, Err(FreeSemanticError::InvalidChunkPolicy));
    }
    assert_eq!(
        RankFusionPolicy::new(0, 60).err(),
        Some(FreeSemanticError::InvalidRankPolicy)
    );
    assert_eq!(
        RankFusionPolicy::new(1, 10_001).err(),
        Some(FreeSemanticError::InvalidRankPolicy)
    );
}

#[test]
fn requests_are_bounded() {
    let error = |limit: usize, query: &str| {
        HybridRequest::new("vault", query, limit, None).err()
    };
    assert_eq!(error(0, "q"), Some(FreeSemanticError::InvalidRequest));
    assert_eq!(error(65, "q"), Some(FreeSemanticError::InvalidRequest));
    assert_eq!(error(1, ""), Some(FreeSemanticError::InvalidRequest));
    assert_eq!(error(64, "q"), None);
    let request = HybridRequest::new("vault", "q", 1, None).unwrap();
    let long = "t".repeat(2_049);
    assert_eq!(
        request.with_exact_title(&long).err(),
        Some(FreeSemanticError::InvalidRequest)
    );
    assert!(request_digests_differ("q", "Q"));
}

fn request_digests_differ(a: &str, b: &str) -> bool {
    let digest = |q: &str| HybridRequest::new("vault", q, 1, None).unwrap().digest();
    digest(a) != digest(b)
}

#[test]
fn publications_are_in_turn() {
    let mut catalog = published();
    let stale = catalog.publication_token();
    let token = catalog.publication_token();
    catalog
        .publish(token, projection("other", "text"), manifest(2).unwrap())
        .unwrap();
    assert_eq!(
        catalog.remove_note(stale, "note", staging()).err(),
        Some(FreeSemanticError::StalePublication { expected: 1, actual: 2 })
    );
    let cancelled = catalog.publication_token().cancelled();
    assert_eq!(
        catalog.remove_note(cancelled, "note", staging()).err(),
        Some(FreeSemanticError::CancelledPublication)
    );
    let token = catalog.publication_token();
    assert_eq!(
        catalog.publish(token, projection("x", "text"), manifest(9).unwrap()).err(),
        Some(FreeSemanticError::ManifestMismatch)
    );
    let mut empty = ChunkCatalog::new("vault").unwrap();
    let token = empty.publication_token();
    assert_eq!(
        empty.reset(token, staging()).err(),
        Some(FreeSemanticError::MissingPublishedReceipt)
    );
    let token = empty.publication_token();
    assert_eq!(
        ChunkCatalog::new("elsewhere").unwrap().reset(token, staging()).err(),
        Some(FreeSemanticError::VaultMismatch)
    );
    assert_eq!(
        FreeSemanticError::StalePublication { expected: 1, actual: 2 }.message(),
        "publication generation was stale: expected 1, actual 2"
    );
}

#[test]
fn a_removed_note_is_gone_and_a_reset_catalog_is_empty() {
    let mut catalog = published();
    assert_eq!(catalog.chunks_for_note("note").len(), 3);
    let token = catalog.publication_token();
    catalog.remove_note(token, "note", staging()).unwrap();
    assert_eq!(catalog.chunk_count(), 0);
    assert_eq!(catalog.generation(), 2);
    let mut catalog = published();
    let token = catalog.publication_token();
    catalog.reset(token, staging()).unwrap();
    assert_eq!(catalog.chunk_count(), 0);
    assert_eq!(catalog.generation(), 2);
}

#[test]
fn a_manifest_has_well_formed_digests() {
    assert_eq!(
        LexicalStagingReceipt::new("sha256:short").err(),
        Some(FreeSemanticError::InvalidManifest)
    );
    assert_eq!(manifest(0).err(), Some(FreeSemanticError::InvalidManifest));
    let a = manifest(3).unwrap();
    assert_eq!(a.digest(), manifest(3).unwrap().digest());
    assert_ne!(a.digest(), manifest(4).unwrap().digest());
}

#[test]
fn channel_hits_are_finite_ranked_and_distinct() {
    let hit = |n: usize, score: f32, rank: usize| {
        ChannelHit::new(chunk_id(n), score.to_bits(), rank)
    };
    assert_eq!(hit(1, f32::NAN, 1).err(), Some(FreeSemanticError::InvalidChannelHit));
    assert_eq!(hit(1, f32::INFINITY, 1).err(), Some(FreeSemanticError::InvalidChannelHit));
    assert_eq!(hit(1, 0.5, 0).err(), Some(FreeSemanticError::InvalidChannelHit));
    assert_eq!(hit(1, 0.5, 257).err(), Some(FreeSemanticError::InvalidChannelHit));
    let twice = vec![hit(1, 0.5, 1).unwrap(), hit(1, 0.4, 2).unwrap()];
    assert_eq!(
        validate_channel_hits(&twice),
        Err(FreeSemanticError::DuplicateChannelHit)
    );
    let tied = vec![hit(1, 0.5, 1).unwrap(), hit(2, 0.4, 1).unwrap()];
    assert_eq!(
        validate_channel_hits(&tied),
        Err(FreeSemanticError::DuplicateChannelRank)
    );
    let many: Vec<ChannelHit> = (1..=257).map(|n| hit(n, 0.5, 1).unwrap()).collect();
    assert_eq!(
        validate_channel_hits(&many),
        Err(FreeSemanticError::TooManyChannelHits { limit: 256 })
    );
    assert!(bits_are_finite(f32::MAX.to_bits()));
    assert!(!bits_are_finite(f32::NEG_INFINITY.to_bits()));
}

#[test]
fn a_lease_binds_a_batch_to_its_request() {
    let catalog = published();
    let request = HybridRequest::new("vault", "paragraph", 2, None).unwrap();
    assert_eq!(
        catalog.issue_search_lease(&request, 1).err(),
        Some(FreeSemanticError::InvalidRequest)
    );
    let lease = catalog.issue_search_lease(&request, 8).unwrap();
    assert_eq!(lease.generation(), 1);
    assert_eq!(lease.pre_filter_limit(), 8);
    let id = catalog.chunks_for_note("note")[1].chunk_id.clone();
    let hits = vec![ChannelHit::new(id, 2.5_f32.to_bits(), 1).unwrap()];
    let batch = catalog
        .complete_untrusted_channel_assertion(
            lease,
            SearchChannel::Lexical,
            ChannelCompletion::Complete,
            1,
            0,
            hits,
            BTreeSet::new(),
        )
        .unwrap();
    let other = HybridRequest::new("vault", "another", 2, None).unwrap();
    assert_eq!(
        catalog.rank_note_hits(batch, None, other).err(),
        Some(FreeSemanticError::InvalidChannelBatch)
    );
}

#[test]
fn rank_scores_are_what_the_hardware_computes() {
    let policy = RankFusionPolicy::new(1, 60).unwrap();
    let score = |ranks: &[usize]| raw_rrf_rank_score(ranks, &policy).map(f64::from_bits);
    assert_eq!(score(&[1]), Ok(1.0 / 61.0));
    assert_eq!(score(&[3, 256]), Ok(1.0 / 63.0 + 1.0 / 316.0));
    assert_eq!(score(&[]), Err(FreeSemanticError::InvalidChannelHit));
    assert_eq!(score(&[1, 2, 3]), Err(FreeSemanticError::InvalidChannelHit));
    assert_eq!(score(&[257]), Err(FreeSemanticError::InvalidChannelHit));
}

fn fixture(n: usize, vector: &[f32]) -> VectorFixture {
    VectorFixture { chunk_id: chunk_id(n), vector: bits(vector) }
}

fn hardware_cosine(a: &[f32], b: &[f32]) -> f32 {
    let dot = |x: &[f32], y: &[f32]| {
        x.iter().zip(y).map(|(a, b)| f64::from(*a) * f64::from(*b)).sum::<f64>()
    };
    let cosine = dot(a, b) / (dot(a, a).sqrt() * dot(b, b).sqrt());
    cosine.clamp(-1.0, 1.0) as f32
}

#[test]
fn cosines_are_what_the_hardware_computes() {
    let query = [0.25_f32, -1.5e-3, 3.0e10, 1.0e-20];
    let vectors = [
        [1.0_f32, 2.0, 3.0, 4.0],
        [-1.0e-5, 7.25, -1.0e4, 0.0],
        [0.1, 0.2, 0.3, -0.4],
        [3.0e38, 1.0e-40, -2.0e38, 5.0],
        [0.0, 1.0e-5, 0.0, 1.0e20],
    ];
    let fixtures: Vec<VectorFixture> =
        vectors.iter().enumerate().map(|(i, v)| fixture(i, v)).collect();
    let hits = cosine_search(&bits(&query), &fixtures, 10).unwrap();
    assert_eq!(hits.len(), vectors.len());
    for (place, hit) in hits.iter().enumerate() {
        let i = (0..vectors.len()).find(|&i| chunk_id(i) == hit.chunk_id).unwrap();
        assert_eq!(
            f32::from_bits(hit.raw_score_bits),
            hardware_cosine(&query, &vectors[i])
        );
        assert_eq!(hit.rank, place + 1);
    }
    for pair in hits.windows(2) {
        assert!(f32::from_bits(pair[0].raw_score_bits) >= f32::from_bits(pair[1].raw_score_bits));
    }
}

#[test]
fn a_similarity_of_zero_keeps_its_sign() {
    let query = [1.0_f32, 0.0];
    let vectors = [[-0.0_f32, -1.0], [0.0, 1.0], [-0.0, 1.0], [0.0, -1.0]];
    let fixtures: Vec<VectorFixture> =
        vectors.iter().enumerate().map(|(i, v)| fixture(i, v)).collect();
    let hits = cosine_search(&bits(&query), &fixtures, 10).unwrap();
    for hit in &hits {
        let i = (0..vectors.len()).find(|&i| chunk_id(i) == hit.chunk_id).unwrap();
        assert_eq!(hit.raw_score_bits, hardware_cosine(&query, &vectors[i]).to_bits());
    }
    assert_eq!(hits[3].chunk_id, chunk_id(0));
    assert_eq!(hits[3].raw_score_bits, (-0.0_f32).to_bits());
    assert_eq!(hits[2].raw_score_bits, 0.0_f32.to_bits());
}

#[test]
fn vectors_are_finite_bounded_and_not_too_short() {
    assert_eq!(LENGTH_EPSILON, 1.0e-12_f64.to_bits());
    let refused = Err(FreeSemanticError::InvalidVector);
    assert_eq!(validate_vector(&[]), refused);
    assert_eq!(validate_vector(&bits(&[f32::NAN])), refused);
    assert_eq!(validate_vector(&vec![0; 4_097]), refused);
    assert_eq!(validate_vector(&vec![0; 4_096]), Ok(()));
    assert!(l2_norm(&bits(&[1.0e-6])).is_none());
    assert!(l2_norm(&bits(&[1.0e-5])).is_some());
    let query = bits(&[1.0, 0.0]);
    let one = |v: &[f32], n: usize| cosine_search(&query, &vec![fixture(n, v)], 5).err();
    assert_eq!(one(&[0.0, 0.0], 1), Some(FreeSemanticError::InvalidVector));
    assert_eq!(one(&[1.0], 1), Some(FreeSemanticError::InvalidVector));
    assert_eq!(one(&[1.0, 1.0], 1), None);
    let twice = vec![fixture(1, &[1.0, 0.0]), fixture(1, &[0.0, 1.0])];
    assert_eq!(
        cosine_search(&query, &twice, 5).err(),
        Some(FreeSemanticError::InvalidVector)
    );
    assert_eq!(
        cosine_search(&query, &twice, 257).err(),
        Some(FreeSemanticError::InvalidRequest)
    );
    assert!(cosine_search(&query, &twice, 0).unwrap().is_empty());
    let many: Vec<VectorFixture> =
        (0..=MAX_VECTOR_COUNT).map(|n| fixture(n, &[1.0, 0.0])).collect();
    assert_eq!(
        cosine_search(&query, &many, 5).err(),
        Some(FreeSemanticError::TooManyVectors { limit: MAX_VECTOR_COUNT })
    );
}

#[test]
fn digests_are_those_of_sha256() {
    assert_eq!(
        sha256_digest("abc", &[]),
        sha256_digest("abc", &[]),
    );
    assert_ne!(sha256_digest("abc", &["d"]), sha256_digest("abcd", &[""]));
    assert_ne!(sha256_digest("x", &["ab", "c"]), sha256_digest("x", &["a", "bc"]));
    assert_eq!(sha256_digest("x", &[]).len(), 7 + 64);
}

#[test]
fn snippets_are_bounded_at_characters() {
    assert_eq!(bounded_snippet("short"), "short");
    let long = "é".repeat(200);
    let snippet = bounded_snippet(&long);
    assert_eq!(snippet, "é".repeat(80) + "…");
    assert_eq!(bounded_snippet(&format!("a{long}")), format!("a{}…", "é".repeat(79)));
}

#[test]
fn better_ranks_never_score_less_and_two_score_more_than_one() {
    for rrf_k in [1, 60, 10_000] {
        let policy = RankFusionPolicy::new(1, rrf_k).unwrap();
        let score = |ranks: &[usize]| f64::from_bits(raw_rrf_rank_score(ranks, &policy).unwrap());
        for rank in 1..256 {
            assert!(score(&[rank]) >= score(&[rank + 1]));
            assert!(score(&[rank, 7]) >= score(&[rank + 1, 7]));
            assert!(score(&[7, rank]) >= score(&[7, rank + 1]));
            assert!(score(&[rank, 256]) > score(&[rank]));
            assert!(score(&[256, rank]) > score(&[rank]));
        }
    }
}

const BODY: &str = "# Heading\n\nA paragraph, \u{e9}t\u{e9}.\nGoes on here.\n\n```\ncode {\n\n}\n```\n   \n\
    ~~~\nopen end";

#[test]
fn every_line_with_text_is_in_one_block() {
    let chars: Vec<char> = BODY.chars().collect();
    let blocks = markdown_blocks(&chars);
    let mut at = 0;
    for line in BODY.split_inclusive('\n') {
        let end = at + line.chars().count();
        let holding = blocks.iter().filter(|b| b.start <= at && end <= b.end).count();
        let touching = blocks.iter().filter(|b| b.start < end && at < b.end).count();
        if !line.trim().is_empty() {
            assert_eq!((holding, touching), (1, 1), "{line:?}");
        }
        at = end;
    }
    assert_eq!(blocks.len(), 4);
}

#[test]
fn projections_cover_all_text_up_to_what_they_leave_out() {
    let note = NoteInput::new("vault", "n", "Title", BODY).unwrap();
    for max_chunks_per_note in 1..40 {
        for (max_chunk_bytes, overlap_bytes) in [(8, 0), (8, 5), (64, 16), (2_048, 0)] {
            let policy = ChunkingPolicy { max_chunk_bytes, max_chunks_per_note, overlap_bytes };
            let projection = chunk_note(&note, &policy).unwrap();
            let end = match projection.coverage.status {
                ProjectionStatus::Complete => BODY.len(),
                ProjectionStatus::Partial { omitted_from_body_byte, .. } => omitted_from_body_byte,
            };
            for (at, c) in BODY.char_indices() {
                let covered = projection.chunks.iter().filter_map(|c| c.body_range).any(|r| {
                    r.start_byte <= at && at + c.len_utf8() <= r.end_byte
                });
                assert!(c.is_whitespace() || at >= end || covered);
                assert!(at < end || !covered);
            }
        }
    }
}

#[test]
fn lists_of_notes_add_up_to_all_chunks() {
    let mut catalog = published();
    let other = projection("other", "some other text");
    let token = catalog.publication_token();
    catalog.publish(token, other, manifest(2).unwrap()).unwrap();
    let mut total = 0;
    for id in ["note", "other", "unknown"] {
        let chunks = catalog.chunks_for_note(id);
        total += chunks.len();
        for pair in chunks.windows(2) {
            assert!(pair[0].chunk_id < pair[1].chunk_id);
        }
        for chunk in chunks {
            assert_eq!(chunk.note_id, id);
            assert_eq!(chunk.vault_id, "vault");
            assert_eq!(catalog.chunk(&chunk.chunk_id).map(|c| &c.text), Some(&chunk.text));
        }
    }
    assert_eq!(total, catalog.chunk_count());
    assert!(catalog.chunks_for_note("unknown").is_empty());
}

#[test]
fn single_passages_keep_their_identity_and_duplicates_do_not() {
    let wide = ChunkingPolicy { max_chunk_bytes: 64, max_chunks_per_note: 9, overlap_bytes: 0 };
    let narrow = ChunkingPolicy { max_chunk_bytes: 16, max_chunks_per_note: 9, overlap_bytes: 0 };
    let of = |body: &str, policy: &ChunkingPolicy| {
        let note = NoteInput::new("vault", "n", "Title", body).unwrap();
        chunk_note(&note, policy).unwrap()
    };
    let before = of("single\n\ntwin\n\ntwin", &wide);
    let after = of("new\n\ntwin\n\nsingle\n\ntwin", &narrow);
    let find = |p: &ChunkProjection, text: &str| -> Vec<(String, String, usize)> {
        let chunks = p.chunks.iter().filter(|c| c.text == text);
        chunks.map(|c| (c.chunk_id.clone(), c.content_digest.clone(), c.occurrence)).collect()
    };
    assert_eq!(find(&before, "single"), find(&after, "single"));
    assert_ne!(before.note_revision_digest, after.note_revision_digest);
    let (old, new) = (find(&before, "twin"), find(&after, "twin"));
    assert_eq!((old[0].2, old[1].2), (0, 1));
    assert_ne!(old[0].0, old[1].0);
    assert!(old.iter().all(|a| new.iter().all(|b| a.0 != b.0 && a.1 == b.1)));
}

#[test]
fn only_what_the_projector_makes_is_accepted() {
    let catalog = ChunkCatalog::new("vault").unwrap();
    assert!(catalog.validate_projection(&projection("note", BODY)).is_ok());
    let refused = Some(FreeSemanticError::InvalidProjection);
    let mut changed = projection("note", BODY);
    changed.chunks[1].text.push('x');
    assert_eq!(catalog.validate_projection(&changed).err(), refused);
    let mut shorter = projection("note", BODY);
    shorter.chunks.pop();
    assert_eq!(catalog.validate_projection(&shorter).err(), refused);
    let mut elsewhere = projection("note", BODY);
    elsewhere.vault_id = "elsewhere".into();
    assert_eq!(
        catalog.validate_projection(&elsewhere).err(),
        Some(FreeSemanticError::VaultMismatch)
    );
}

#[test]
fn digests_bind_manifests_and_staged_states() {
    let base = published().manifest().unwrap().clone();
    let digest = base.digest();
    let mut other = base.clone();
    other.rank_policy_version += 1;
    assert_ne!(other.digest(), digest);
    let mut other = base.clone();
    other.dimension = Some(3);
    assert_ne!(other.digest(), digest);
    let mut other = base.clone();
    other.semantic_availability = SemanticAvailability::Cancelled;
    assert_ne!(other.digest(), digest);
    let mut other = base.clone();
    other.lexical_receipt = ChannelReceipt::Pending { artifact_digest: digest_of('b') };
    assert_ne!(other.digest(), digest);
    let state = |m: &GenerationManifest, channel: &str, letter: char| {
        m.staged_channel_state_digest(channel, &digest_of(letter))
    };
    assert_eq!(state(&base, "lexical", 'b'), state(&other, "lexical", 'b'));
    assert_ne!(state(&base, "lexical", 'b'), state(&base, "vector", 'b'));
    assert_ne!(state(&base, "lexical", 'b'), state(&base, "lexical", 'c'));
    other.note_set_digest = None;
    assert_eq!(
        state(&other, "lexical", 'b').err(),
        Some(FreeSemanticError::InvalidManifest)
    );
}
