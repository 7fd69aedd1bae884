//! What a catalog refuses, and what it ranks.

use vstd::prelude::*;

use super::catalog::{
    assertion_error, degraded_manifest, lease_error, mutation_error, publish_error, ranking_error,
    ranking_input, rebuild_error, removal_error, CatalogModel, TokenModel,
};
use super::channel::{hit_ok, hits_error, law_accepted_hits_are_distinct, BatchModel, HitModel};
use super::manifest::{ManifestModel, SemanticAvailability};
use super::note::ChunkingPolicy;
use super::projection::ProjectionModel;
use super::request::{
    request_digest, request_error, ChannelCompletion, LeaseModel, RequestModel, SearchChannel,
};
use super::store::{chunk_at, StoreModel};

verus! {

/// Whether a token allows no change: it was cancelled, is of another vault, or
/// expects another generation.
pub open spec fn is_void(token: TokenModel, m: CatalogModel) -> bool {
    token.cancelled || token.vault_id != m.vault_id || token.expected_generation != m.generation
}

/// A token that was cancelled, is of another vault or expects another generation
/// changes nothing: no note is published or removed, and nothing is reset or
/// rebuilt.
pub proof fn law_void_token_changes_nothing(
    m: CatalogModel,
    token: TokenModel,
    p: ProjectionModel,
    ps: Seq<ProjectionModel>,
    manifest: ManifestModel,
    policy: ChunkingPolicy,
    note_id: Seq<char>,
)
    requires
        is_void(token, m),
    ensures
        publish_error(m, token, p, manifest) is Some,
        removal_error(m, token, note_id) is Some,
        mutation_error(m, token) is Some,
        rebuild_error(m, token, policy, ps, manifest) is Some,
{
}

/// A catalog can be reset with a token of its own as long as there is a next
/// generation and something was published.
pub proof fn law_valid_token_can_reset(m: CatalogModel, token: TokenModel)
    requires
        !is_void(token, m),
    ensures
        mutation_error(m, token) is None <==> m.generation < u64::MAX && m.manifest is Some,
{
}

/// A lease is issued exactly for a valid request of this vault, to look at no fewer
/// candidates than it asks for and at no more than 256, once something was
/// published.
pub proof fn law_lease_is_issued_for_a_valid_request(
    m: CatalogModel,
    request: RequestModel,
    pre_filter_limit: usize,
)
    ensures
        lease_error(m, request, pre_filter_limit) is None <==> request_error(request) is None
            && request.vault_id == m.vault_id && request.limit <= pre_filter_limit <= 256
            && m.manifest is Some,
{
}

/// Accepted hits are at most 256, with different chunks and the ranks from one on.
pub proof fn law_accepted_hits_are_ranked_from_one(hits: Seq<HitModel>)
    requires
        hits_error(hits) is None,
    ensures
        hits.len() <= 256,
        forall|i: int|
            0 <= i < hits.len() ==> hit_ok(#[trigger] hits[i]) && 1 <= hits[i].rank <= hits.len(),
        forall|i: int, j: int|
            0 <= i < j < hits.len() ==> (#[trigger] hits[i]).rank != (#[trigger] hits[j]).rank
                && hits[i].chunk_id != hits[j].chunk_id,
{
    law_accepted_hits_are_distinct(hits, hits.len() as int);
    assert forall|i: int| 0 <= i < hits.len() implies hit_ok(#[trigger] hits[i]) && 1
        <= hits[i].rank <= hits.len() by {
        assert(hit_ok(hits[i]));
    }
}

/// Whether a batch is one of a channel for a request, made under the current state.
pub open spec fn is_current(
    m: CatalogModel,
    batch: BatchModel,
    channel: SearchChannel,
    request: RequestModel,
) -> bool {
    &&& batch.channel == channel
    &&& batch.vault_id == m.vault_id
    &&& batch.generation == m.generation
    &&& batch.request_digest == request_digest(request)
    &&& batch.origin_note_id == request.origin_note_id
    &&& batch.post_filter_limit == request.limit
    &&& hits_error(batch.hits) is None
}

/// What is ranked was asked of this vault by a valid request, and found by batches
/// that were made for it under the current generation. A batch of vectors counts
/// only where they are available.
pub proof fn law_only_current_batches_are_ranked(
    m: CatalogModel,
    lexical: BatchModel,
    semantic: Option<BatchModel>,
    request: RequestModel,
)
    requires
        ranking_error(m, lexical, semantic, request) is None,
    ensures
        request_error(request) is None,
        request.vault_id == m.vault_id,
        m.manifest is Some,
        is_current(m, lexical, SearchChannel::Lexical, request),
        ranking_input(m, lexical, semantic, request).store == m.store,
        ranking_input(m, lexical, semantic, request).lexical == lexical.hits,
        ranking_input(m, lexical, semantic, request).origin == request.origin_note_id,
        ranking_input(m, lexical, semantic, request).rrf_k == m.manifest->0.rank_policy_rrf_k,
        semantic is None ==> ranking_input(m, lexical, semantic, request).semantic.len() == 0,
        ranking_input(m, lexical, semantic, request).semantic.len() > 0 ==> semantic is Some
            && ranking_input(m, lexical, semantic, request).semantic == semantic->0.hits
            && is_current(m, semantic->0, SearchChannel::Semantic, request),
        ranking_input(m, lexical, semantic, request).semantic_available && semantic is Some
            ==> ranking_input(m, lexical, semantic, request).semantic == semantic->0.hits,
{
}

/// Hits are accepted only of stored chunks that are not of the note that the search
/// came from, and never with a claim of an exact title.
pub proof fn law_accepted_assertion_is_of_stored_chunks(
    m: CatalogModel,
    lease: LeaseModel,
    channel: SearchChannel,
    completion: ChannelCompletion,
    upstream: usize,
    excluded: usize,
    hits: Seq<HitModel>,
    any_titles: bool,
    i: int,
)
    requires
        assertion_error(m, lease, channel, completion, upstream, excluded, hits, any_titles)
            is None,
        0 <= i < hits.len(),
    ensures
        !any_titles,
        m.manifest is Some,
        lease.vault_id == m.vault_id,
        lease.generation == m.generation,
        hits_error(hits) is None,
        chunk_at(m.store, hits[i].chunk_id) is Some,
        lease.request.origin_note_id != Some(chunk_at(m.store, hits[i].chunk_id)->0.note_id),
{
}

/// A note that is removed, or a reset, leads to the next generation without an index
/// of vectors; all other contracts stay.
pub proof fn law_removal_drops_the_vectors(
    m: CatalogModel,
    before: ManifestModel,
    artifact: Seq<char>,
    store: StoreModel,
)
    requires
        m.generation < u64::MAX,
    ensures
        ({
            let after = degraded_manifest(m, before, artifact, store);
            &&& after.generation == m.generation + 1
            &&& after.lexical_generation == m.generation + 1
            &&& after.vault_id == m.vault_id
            &&& after.vector_receipt is None
            &&& after.vector_generation is None
            &&& after.dimension is None
            &&& after.model_descriptor_digest is None
            &&& after.semantic_availability == SemanticAvailability::NoCandidateSelected
            &&& after.rank_policy_rrf_k == before.rank_policy_rrf_k
        }),
{
}

} // verus!
