//! Which notes, requests, hits, vectors and manifests are accepted.

use vstd::prelude::*;

use super::catalog::{
    next_manifest_error, projection_fault, publish_error, CatalogModel, TokenModel,
};
use super::channel::{batch_error, batch_result_digest, entry_error, hits_error};
use super::channel::{BatchModel, HitModel};
use super::error::FreeSemanticError;
use super::identity::is_identity;
use super::manifest::{
    new_manifest, shape_ok, ManifestModel, ReceiptModel, SemanticAvailability, VectorNormalization,
};
use super::note::{note_error, policy_ok, ChunkingPolicy, NoteModel};
use super::projection::ProjectionModel;
use super::rank::{rank_policy_digest, RankFusionPolicy};
use super::request::{new_request_error, request_error, with_title};
use super::request::{ChannelCompletion, RequestModel};
use super::vectors::{cosine_error, has_length, FixtureModel};
use crate::digest::{is_chunk_id, is_digest};
use crate::text::{
    byte_len, first_text, is_control, is_whitespace, last_text, law_trim_takes_white_space_off,
    lemma_first_text, lemma_last_text, trim,
};

verus! {

/// Whether all characters of a text are white space.
pub open spec fn is_blank(s: Seq<char>) -> bool {
    forall|i: int| 0 <= i < s.len() ==> is_whitespace(#[trigger] s[i])
}

/// Whether no character of a text is a control character.
pub open spec fn is_clean(s: Seq<char>) -> bool {
    forall|i: int| 0 <= i < s.len() ==> !is_control(#[trigger] s[i])
}

proof fn lemma_trim(s: Seq<char>)
    ensures
        trim(s).len() == 0 <==> is_blank(s),
        s.len() > 0 ==> (trim(s) == s <==> !is_whitespace(s[0]) && !is_whitespace(s.last())),
        trim(s).len() > 0 ==> !is_whitespace(trim(s)[0]) && !is_whitespace(trim(s).last()),
{
    let n = s.len() as int;
    lemma_first_text(s, 0, n);
    let lo = first_text(s, 0, n);
    lemma_last_text(s, lo, n);
    let hi = last_text(s, lo, n);
    if lo < n {
        assert(!is_whitespace(s[lo]));
        assert(hi > lo);
    }
    if n > 0 && !is_whitespace(s[0]) && !is_whitespace(s.last()) {
        law_trim_takes_white_space_off(Seq::empty(), s, Seq::empty());
        assert(Seq::<char>::empty() + s + Seq::<char>::empty() =~= s);
    }
}

/// An identity is a text of 1 to 256 bytes that neither starts nor ends with white
/// space, holds no control character and no separator of paths, and is not one of
/// the two names that a path has for its own places.
pub proof fn law_identity_is_plain(s: Seq<char>)
    ensures
        is_identity(s) <==> {
            &&& 0 < s.len()
            &&& byte_len(s) <= 256
            &&& !is_whitespace(s[0])
            &&& !is_whitespace(s[s.len() - 1])
            &&& is_clean(s)
            &&& forall|i: int| 0 <= i < s.len() ==> #[trigger] s[i] != '/' && s[i] != '\\'
            &&& s != seq!['.']
            &&& s != seq!['.', '.']
        },
{
    lemma_trim(s);
    reveal_strlit(".");
    reveal_strlit("..");
    assert("."@ =~= seq!['.']);
    assert(".."@ =~= seq!['.', '.']);
    if !s.contains('/') && !s.contains('\\') {
        assert forall|i: int| 0 <= i < s.len() implies #[trigger] s[i] != '/' && s[i] != '\\' by {
            assert(s.contains(s[i]));
        }
    }
}

/// What the parts of a request must be.
pub open spec fn is_askable(m: RequestModel) -> bool {
    &&& is_identity(m.vault_id)
    &&& 1 <= m.limit <= 64
    &&& !is_blank(m.query)
    &&& is_clean(m.query)
    &&& byte_len(m.query) <= 16384
    &&& m.origin_note_id matches Some(note) ==> is_identity(note)
    &&& m.exact_title matches Some(title) ==> 0 < title.len() && byte_len(title) <= 2048
        && is_clean(title)
}

/// A request is accepted exactly if its vault and its origin are identities, it asks
/// for 1 to 64 notes, its query is not blank, and query and title are free of
/// control characters and within their bounds.
pub proof fn law_request_is_accepted(m: RequestModel)
    ensures
        request_error(m) is None <==> is_askable(m),
        new_request_error(m) is None <==> is_askable(m),
{
    lemma_trim(m.query);
}

/// What is wrong with a request: an identity of a vault that is empty, or malformed;
/// one of the origin, if all else is right; or its bounds.
pub proof fn law_request_tells_what_is_wrong(m: RequestModel)
    ensures
        m.vault_id.len() == 0 ==> request_error(m) == Some(FreeSemanticError::EmptyVaultID)
            && new_request_error(m) == Some(FreeSemanticError::EmptyVaultID),
        m.vault_id.len() > 0 && !is_identity(m.vault_id) ==> request_error(m) == Some(
            FreeSemanticError::InvalidVaultID,
        ) && new_request_error(m) == Some(FreeSemanticError::InvalidVaultID),
        is_identity(m.vault_id) && (m.limit == 0 || m.limit > 64) ==> request_error(m) == Some(
            FreeSemanticError::InvalidRequest,
        ),
        is_identity(m.vault_id) && m.origin_note_id == Some(Seq::<char>::empty())
            ==> new_request_error(m) == Some(FreeSemanticError::EmptyNoteID),
{
}

/// A title to be matched exactly is taken without the white space round it. A blank
/// one is none. All else of the request stays.
pub proof fn law_exact_title_is_trimmed(
    m: RequestModel,
    before: Seq<char>,
    title: Seq<char>,
    after: Seq<char>,
)
    requires
        is_blank(before),
        is_blank(after),
        title.len() > 0 ==> !is_whitespace(title[0]) && !is_whitespace(title.last()),
    ensures
        with_title(m, before + title + after) == (RequestModel {
            exact_title: if title.len() == 0 {
                None
            } else {
                Some(title)
            },
            ..m
        }),
{
    law_trim_takes_white_space_off(before, title, after);
}

/// A note is accepted exactly if its vault and its own name are identities, and
/// title and body together take no more than a mebibyte.
pub proof fn law_note_is_accepted(note: NoteModel)
    ensures
        note_error(note) is None <==> {
            &&& is_identity(note.vault_id)
            &&& is_identity(note.note_id)
            &&& byte_len(note.title) + byte_len(note.body) <= 1_048_576
        },
        is_identity(note.vault_id) && note.note_id.len() == 0 ==> note_error(note) == Some(
            FreeSemanticError::EmptyNoteID,
        ),
{
}

/// A policy is within its bounds exactly if it makes 1 to 128 chunks of 1 to 2048
/// bytes, which share fewer bytes than they have and no more than 256.
pub proof fn law_policy_is_bounded(policy: ChunkingPolicy)
    ensures
        policy_ok(policy) <==> {
            &&& 1 <= policy.max_chunk_bytes <= 2048
            &&& 1 <= policy.max_chunks_per_note <= 128
            &&& policy.overlap_bytes < policy.max_chunk_bytes
            &&& policy.overlap_bytes <= 256
        },
{
}

/// Hits of chunks with finite scores, with ranks from one on that differ as the
/// chunks do, are accepted, up to 256 of them.
pub proof fn law_ranked_hits_are_accepted(hits: Seq<HitModel>)
    requires
        hits.len() <= 256,
        forall|i: int|
            0 <= i < hits.len() ==> is_chunk_id((#[trigger] hits[i]).chunk_id) && 1
                <= hits[i].rank <= hits.len() && (hits[i].raw_score_bits / 0x80_0000) % 256 != 255,
        forall|i: int, j: int|
            0 <= i < j < hits.len() ==> (#[trigger] hits[i]).rank != (#[trigger] hits[j]).rank
                && hits[i].chunk_id != hits[j].chunk_id,
    ensures
        hits_error(hits) is None,
{
    lemma_no_entry_error(hits, hits.len() as int);
}

proof fn lemma_no_entry_error(hits: Seq<HitModel>, n: int)
    requires
        0 <= n <= hits.len() <= 256,
        forall|i: int|
            0 <= i < hits.len() ==> is_chunk_id((#[trigger] hits[i]).chunk_id) && 1
                <= hits[i].rank <= hits.len() && (hits[i].raw_score_bits / 0x80_0000) % 256 != 255,
        forall|i: int, j: int|
            0 <= i < j < hits.len() ==> (#[trigger] hits[i]).rank != (#[trigger] hits[j]).rank
                && hits[i].chunk_id != hits[j].chunk_id,
    ensures
        entry_error(hits, n) is None,
    decreases n,
{
    if n > 0 {
        lemma_no_entry_error(hits, n - 1);
        assert(is_chunk_id(hits[n - 1].chunk_id));
    }
}

/// A batch is accepted exactly if it is of a generation, its numbers are within
/// their bounds, its hits are accepted, there are as many as it says, and its digest
/// is that of what it holds.
pub proof fn law_batch_is_accepted(m: BatchModel)
    ensures
        batch_error(m) is None <==> {
            &&& m.generation > 0
            &&& is_digest(m.manifest_digest)
            &&& is_digest(m.request_digest)
            &&& 1 <= m.post_filter_limit <= m.pre_filter_limit <= 256
            &&& m.excluded_candidate_count <= m.upstream_candidate_count <= 256
            &&& m.hits.len() <= m.post_filter_limit
            &&& hits_error(m.hits) is None
            &&& m.completion == ChannelCompletion::Complete ==> m.hits.len()
                == m.upstream_candidate_count - m.excluded_candidate_count || m.hits.len()
                == m.post_filter_limit && m.post_filter_limit < m.upstream_candidate_count
                - m.excluded_candidate_count
            &&& m.completion == ChannelCompletion::Truncated ==> m.upstream_candidate_count
                >= m.pre_filter_limit && m.hits.len() == m.post_filter_limit
            &&& m.result_digest.len() == 0 || m.result_digest == batch_result_digest(m)
        },
{
}

/// A search over vectors is accepted exactly if the query has 1 to 4096 finite
/// components and there are no more than 16384 vectors; and, if anything is asked
/// for, it is no more than 256 hits, the query has a length, and all vectors are of
/// different chunks, as long as the query, finite and with a length.
pub proof fn law_vector_search_is_accepted(
    query: Seq<u32>,
    vectors: Seq<FixtureModel>,
    limit: usize,
)
    ensures
        cosine_error(query, vectors, limit) is None <==> {
            &&& 1 <= query.len() <= 4096
            &&& vectors.len() <= 16384
            &&& are_finite(query)
            &&& limit > 0 ==> {
                &&& limit <= 256
                &&& has_length(query)
                &&& forall|i: int|
                    0 <= i < vectors.len() ==> is_chunk_id((#[trigger] vectors[i]).chunk_id)
                        && vectors[i].vector.len() == query.len() && are_finite(vectors[i].vector)
                        && has_length(vectors[i].vector)
                &&& forall|i: int, j: int|
                    0 <= i < j < vectors.len() ==> (#[trigger] vectors[i]).chunk_id != (
                    #[trigger] vectors[j]).chunk_id
            }
        },
{
    if limit > 0 {
        if super::vectors::fixtures_ok(query.len(), vectors) {
            assert forall|i: int| 0 <= i < vectors.len() implies is_chunk_id(
                (#[trigger] vectors[i]).chunk_id,
            ) && vectors[i].vector.len() == query.len() && are_finite(vectors[i].vector)
                && has_length(vectors[i].vector) by {
                assert(super::vectors::fixture_ok(query.len(), vectors, i));
            }
            assert forall|i: int, j: int| 0 <= i < j < vectors.len() implies (
            #[trigger] vectors[i]).chunk_id != (#[trigger] vectors[j]).chunk_id by {
                assert(super::vectors::fixture_ok(query.len(), vectors, j));
            }
        }
    }
}

/// Whether the exponents of singles are those of numbers.
pub open spec fn are_finite(v: Seq<u32>) -> bool {
    forall|i: int| 0 <= i < v.len() ==> (#[trigger] v[i] / 0x80_0000) % 256 != 255
}

/// A projection is published exactly if the token is that of the vault and the
/// generation and was not cancelled, the projection is one of a note of the vault,
/// the policy is that of what was published before, and the manifest is that of the
/// next generation.
pub proof fn law_publication_is_accepted(
    m: CatalogModel,
    token: TokenModel,
    p: ProjectionModel,
    manifest: ManifestModel,
)
    ensures
        publish_error(m, token, p, manifest) is None <==> {
            &&& !token.cancelled
            &&& token.vault_id == m.vault_id
            &&& token.expected_generation == m.generation
            &&& projection_fault(p, m.vault_id) is None
            &&& m.manifest matches Some(before) ==> before.chunking_policy_digest == Some(
                p.chunking_policy_digest,
            )
            &&& manifest.vault_id == m.vault_id
            &&& manifest.generation == m.generation + 1
            &&& shape_ok(manifest)
        },
        next_manifest_error(manifest, m) is None <==> manifest.vault_id == m.vault_id
            && manifest.generation == m.generation + 1 && shape_ok(manifest),
{
}

/// A new manifest can be published if it is of a generation and of the format of
/// chunks, its policy is within its bounds, its text index is of its generation and
/// named by a digest, and it has no vectors.
pub proof fn law_new_manifest_can_be_published(
    vault_id: Seq<char>,
    generation: u64,
    policy: RankFusionPolicy,
    availability: SemanticAvailability,
    lexical: Seq<char>,
)
    requires
        availability != SemanticAvailability::Available,
        generation > 0,
        policy.version > 0,
        1 <= policy.rrf_k <= 10_000,
        is_digest(lexical),
    ensures
        ({
            let m = new_manifest(
                vault_id,
                generation,
                None,
                None,
                2,
                generation,
                None,
                policy,
                None,
                availability,
                lexical,
                None,
            );
            &&& shape_ok(m)
            &&& m.vault_id == vault_id
            &&& m.generation == generation
        }),
{
}

/// A new manifest with vectors can be published if these are of its generation, have
/// 1 to 4096 components and a norm, and their model and index are named by digests.
pub proof fn law_new_manifest_with_vectors_can_be_published(
    vault_id: Seq<char>,
    generation: u64,
    policy: RankFusionPolicy,
    lexical: Seq<char>,
    model: Seq<char>,
    dimension: usize,
    normalization: VectorNormalization,
    vector: Seq<char>,
)
    requires
        generation > 0,
        policy.version > 0,
        1 <= policy.rrf_k <= 10_000,
        is_digest(lexical),
        is_digest(model),
        is_digest(vector),
        1 <= dimension <= 4096,
    ensures
        ({
            let m = new_manifest(
                vault_id,
                generation,
                Some(model),
                Some(dimension),
                2,
                generation,
                Some(generation),
                policy,
                Some(normalization),
                SemanticAvailability::Available,
                lexical,
                Some(vector),
            );
            &&& shape_ok(m)
            &&& m.lexical_receipt == (ReceiptModel::Pending { artifact: lexical })
            &&& m.vector_receipt == Some(ReceiptModel::Pending { artifact: vector })
            &&& m.dimension == Some(dimension)
        }),
{
}

/// What every manifest that can be published is: of the first schema and the second
/// format of chunks, with a text index of its generation that is yet to be bound,
/// without digests of a state, and with all that describes vectors or none of it.
pub proof fn law_publishable_manifest_is_whole(m: ManifestModel)
    requires
        shape_ok(m),
    ensures
        m.schema_version == 1,
        m.chunk_format_version == 2,
        m.generation > 0,
        m.lexical_generation == m.generation,
        m.rank_policy_version > 0,
        1 <= m.rank_policy_rrf_k <= 10_000,
        m.rank_policy_digest == rank_policy_digest(m.rank_policy_version, m.rank_policy_rrf_k),
        m.lexical_receipt matches ReceiptModel::Pending { artifact } && is_digest(artifact),
        m.chunking_policy_digest is None,
        m.chunk_map_digest is None,
        m.note_set_digest is None,
        m.semantic_availability == SemanticAvailability::Available ==> {
            &&& m.model_descriptor_digest matches Some(d) && is_digest(d)
            &&& m.dimension matches Some(d) && 1 <= d <= 4096
            &&& m.normalization is Some
            &&& m.vector_generation == Some(m.generation)
            &&& m.vector_receipt matches Some(r) && r matches ReceiptModel::Pending { artifact }
                && is_digest(artifact)
        },
        m.semantic_availability != SemanticAvailability::Available ==> {
            &&& m.model_descriptor_digest is None
            &&& m.dimension is None
            &&& m.normalization is None
            &&& m.vector_generation is None
            &&& m.vector_receipt is None
        },
{
}

/// The name of a chunk is the mark of the format, the name of the hash, and 64
/// digits.
pub proof fn law_chunk_name_is_its_hash(s: Seq<char>)
    ensures
        is_digest(s) <==> {
            &&& s.len() == 71
            &&& s[0] == 's' && s[1] == 'h' && s[2] == 'a' && s[3] == '2' && s[4] == '5' && s[5]
                == '6' && s[6] == ':'
            &&& forall|i: int|
                7 <= i < 71 ==> ('0' <= #[trigger] s[i] && s[i] <= '9') || ('a' <= s[i] && s[i]
                    <= 'f')
        },
        is_chunk_id(s) <==> {
            &&& s.len() == 75
            &&& s[0] == 'p' && s[1] == 'c' && s[2] == '2' && s[3] == ':'
            &&& is_digest(s.skip(4))
        },
{
    reveal_strlit("sha256:");
    reveal_strlit("pc2:");
    if s.len() >= 7 && s[0] == 's' && s[1] == 'h' && s[2] == 'a' && s[3] == '2' && s[4] == '5'
        && s[5] == '6' && s[6] == ':' {
        assert(s.take(7) =~= "sha256:"@);
    }
    if s.len() == 71 && s.take(7) == "sha256:"@ {
        assert forall|i: int| 0 <= i < 7 implies #[trigger] s[i] == "sha256:"@[i] by {
            assert(s.take(7)[i] == s[i]);
        }
    }
    if s.len() >= 4 && s[0] == 'p' && s[1] == 'c' && s[2] == '2' && s[3] == ':' {
        assert(s.take(4) =~= "pc2:"@);
    }
    if s.len() >= 4 && s.take(4) == "pc2:"@ {
        assert forall|i: int| 0 <= i < 4 implies #[trigger] s[i] == "pc2:"@[i] by {
            assert(s.take(4)[i] == s[i]);
        }
    }
}

} // verus!
