//! The catalog of a vault: its chunks, the generation they belong to, and the
//! manifest that was published for it.

use std::collections::BTreeSet;
use vstd::prelude::*;

use super::channel::{
    batch_bound, batch_error, hit_views, law_accepted_hits_are_distinct, open_batch, sealed,
    BatchModel, ChannelBatch, ChannelHit, HitModel,
};
use super::diagnostic::{describe, described, flag_string, flag_text};
use super::error::FreeSemanticError;
use super::identity::{
    canonical_identity, check_identity, identity_error, is_identity, IdentityKind,
};
use super::manifest::{
    manifest_digest, published, published_ok, shape_ok, ChannelReceipt, GenerationManifest,
    LexicalStagingReceipt, ManifestModel, ReceiptModel, SemanticAvailability,
};
use super::note::{policy_digest, policy_ok, ChunkingPolicy, NoteInput, NoteModel};
use super::projection::{
    chunk_note, chunk_of, chunk_views, indexed_pieces, projection_error, projection_of,
    ChunkModel, ChunkProjection, ParagraphChunk, ProjectionModel,
};
use super::rank::{RankFusionPolicy, MAX_CHANNEL_HITS};
use super::ranking::{is_ranking, rank_candidates, ranked_views, RankInput, RankedNoteHit};
use super::request::{
    lease_digest, lease_for, lease_ok, request_digest, request_error, search_lease_digest,
    ChannelCompletion, HybridRequest, LeaseModel, RequestModel, SearchChannel, SearchLease,
};
use super::store::{
    chunk_at, chunk_map_digest, empty_store, ids_are_new, ids_of, law_with_note, law_without_note,
    note_keys, note_set_digest, store_ok, with_note, without_note, ChunkStore, StoreModel,
};
use crate::digest::texts;
use crate::keys::{ascending, has_key, insert_text, string_views};
use crate::text::{contains_char, decimal, decimal_string, text_eq};

verus! {

/// A publication token by its text and numbers.
#[verifier::ext_equal]
pub struct TokenModel {
    pub vault_id: Seq<char>,
    pub expected_generation: u64,
    pub cancelled: bool,
}

/// The right to publish the generation after the one that it was taken from.
#[derive(Debug, PartialEq, Eq)]
pub struct PublicationToken {
    vault_id: String,
    expected_generation: u64,
    cancelled: bool,
}

impl View for PublicationToken {
    type V = TokenModel;

    closed spec fn view(&self) -> TokenModel {
        TokenModel {
            vault_id: self.vault_id@,
            expected_generation: self.expected_generation,
            cancelled: self.cancelled,
        }
    }
}

impl Clone for PublicationToken {
    fn clone(&self) -> (r: Self)
        ensures
            r@ == self@,
    {
        PublicationToken {
            vault_id: self.vault_id.clone(),
            expected_generation: self.expected_generation,
            cancelled: self.cancelled,
        }
    }
}

impl PublicationToken {
    pub fn expected_generation(&self) -> (r: u64)
        ensures
            r == self@.expected_generation,
    {
        self.expected_generation
    }

    pub fn cancelled(self) -> (r: Self)
        ensures
            r@ == (TokenModel { cancelled: true, ..self@ }),
    {
        let mut token: PublicationToken = self;
        token.cancelled = true;
        token
    }
}

/// A catalog by its texts, numbers and chunks.
#[verifier::ext_equal]
pub struct CatalogModel {
    pub vault_id: Seq<char>,
    pub store: StoreModel,
    pub generation: u64,
    pub manifest: Option<ManifestModel>,
}

/// What holds of every catalog: its vault is an identity, its two maps agree,
/// it holds no chunk of another vault, and its manifest is the published one
/// of exactly this state.
pub open spec fn catalog_ok(m: CatalogModel) -> bool {
    &&& is_identity(m.vault_id)
    &&& store_ok(m.store)
    &&& forall|c: ChunkModel| #[trigger] m.store.chunks.contains(c) ==> c.vault_id == m.vault_id
    &&& m.manifest matches Some(manifest) ==> {
        &&& published_ok(manifest)
        &&& manifest.vault_id == m.vault_id
        &&& manifest.generation == m.generation
        &&& manifest.chunk_map_digest == Some(chunk_map_digest(m.store.chunks))
        &&& manifest.note_set_digest == Some(note_set_digest(m.store.notes))
    }
}

pub open spec fn opt_manifest(m: Option<GenerationManifest>) -> Option<ManifestModel> {
    match m {
        Some(x) => Some(x@),
        None => None,
    }
}

/// The chunks of one vault under one generation.
#[derive(PartialEq, Eq)]
pub struct ChunkCatalog {
    vault_id: String,
    store: ChunkStore,
    generation: u64,
    manifest: Option<GenerationManifest>,
}

impl View for ChunkCatalog {
    type V = CatalogModel;

    closed spec fn view(&self) -> CatalogModel {
        CatalogModel {
            vault_id: self.vault_id@,
            store: self.store@,
            generation: self.generation,
            manifest: opt_manifest(self.manifest),
        }
    }
}

impl Clone for ChunkCatalog {
    fn clone(&self) -> (r: Self)
        ensures
            r@ == self@,
    {
        proof {
            use_type_invariant(self);
        }
        let manifest: Option<GenerationManifest> = match &self.manifest {
            Some(m) => Some(m.clone()),
            None => None,
        };
        ChunkCatalog {
            vault_id: self.vault_id.clone(),
            store: self.store.clone(),
            generation: self.generation,
            manifest,
        }
    }
}

/// What a log may say of a catalog: its generation, and how much it holds.
pub open spec fn catalog_diagnostic(
    generation: nat,
    chunk_count: nat,
    note_count: nat,
    has_manifest: bool,
) -> Seq<char> {
    described(
        "ChunkCatalog"@,
        seq![
            "generation"@,
            "chunk_count"@,
            "note_count"@,
            "has_manifest"@,
        ],
        seq![
            decimal(generation),
            decimal(chunk_count),
            decimal(note_count),
            flag_text(has_manifest),
        ],
    )
}

impl ChunkCatalog {
    /// A description without any text of the notes.
    pub fn diagnostic(&self) -> (r: String)
        ensures
            r@ == catalog_diagnostic(
                self@.generation as nat,
                self@.store.chunks.len(),
                self@.store.notes.len(),
                self@.manifest is Some,
            ),
    {
        let labels: [&str; 4] = [
            "generation",
            "chunk_count",
            "note_count",
            "has_manifest",
        ];
        let mut values: Vec<String> = Vec::new();
        values.push(decimal_string(self.generation));
        values.push(decimal_string(self.store.chunks.len() as u64));
        values.push(decimal_string(self.store.notes.len() as u64));
        values.push(flag_string(self.manifest.is_some()));
        assert(texts(labels@) =~= seq![
            "generation"@,
            "chunk_count"@,
            "note_count"@,
            "has_manifest"@,
        ]);
        assert(string_views(values@) =~= seq![
            decimal(self@.generation as nat),
            decimal(self@.store.chunks.len()),
            decimal(self@.store.notes.len()),
            flag_text(self@.manifest is Some),
        ]);
        describe("ChunkCatalog", &labels, &values)
    }
}

/// Why a token does not allow a mutation, if it does not.
pub open spec fn token_error(token: TokenModel, m: CatalogModel) -> Option<FreeSemanticError> {
    if token.cancelled {
        Some(FreeSemanticError::CancelledPublication)
    } else if token.vault_id != m.vault_id {
        Some(FreeSemanticError::VaultMismatch)
    } else if token.expected_generation != m.generation {
        Some(
            FreeSemanticError::StalePublication {
                expected: token.expected_generation,
                actual: m.generation,
            },
        )
    } else {
        None
    }
}

/// The note that a projection says it was made of.
pub open spec fn projected_note(p: ProjectionModel) -> NoteModel {
    NoteModel {
        vault_id: p.vault_id,
        note_id: p.note_id,
        title: p.canonical_title,
        body: p.canonical_body,
    }
}

/// Whether no two chunks have the same identity.
pub open spec fn ids_distinct(chunks: Seq<ChunkModel>) -> bool {
    forall|i: int, j: int|
        0 <= i < j < chunks.len() ==> (#[trigger] chunks[i]).chunk_id != (
        #[trigger] chunks[j]).chunk_id
}

/// Whether a projection is what the projector makes of its own source, with a
/// title without a null character and chunks with different identities.
pub open spec fn projection_ok(p: ProjectionModel) -> bool {
    &&& !p.canonical_title.contains('\0')
    &&& projection_error(projected_note(p), p.chunking_policy) is None
    &&& p == projection_of(projected_note(p), p.chunking_policy)
    &&& ids_distinct(p.chunks)
}

/// Why a projection does not enter a vault, if it does not.
pub open spec fn projection_fault(p: ProjectionModel, vault_id: Seq<char>) -> Option<
    FreeSemanticError,
> {
    if p.vault_id != vault_id {
        Some(FreeSemanticError::VaultMismatch)
    } else if !is_identity(p.note_id) {
        Some(identity_error(p.note_id, IdentityKind::Note))
    } else if !projection_ok(p) {
        Some(FreeSemanticError::InvalidProjection)
    } else {
        None
    }
}

/// Why a manifest is not the next one of a catalog, if it is not.
pub open spec fn next_manifest_error(manifest: ManifestModel, m: CatalogModel) -> Option<
    FreeSemanticError,
> {
    if manifest.vault_id != m.vault_id || manifest.generation != m.generation + 1 {
        Some(FreeSemanticError::ManifestMismatch)
    } else if !shape_ok(manifest) {
        Some(FreeSemanticError::InvalidManifest)
    } else {
        None
    }
}

/// Why a projection is not published, if it is not.
pub open spec fn publish_error(
    m: CatalogModel,
    token: TokenModel,
    p: ProjectionModel,
    manifest: ManifestModel,
) -> Option<FreeSemanticError> {
    if token_error(token, m) is Some {
        token_error(token, m)
    } else if projection_fault(p, m.vault_id) is Some {
        projection_fault(p, m.vault_id)
    } else if m.generation == u64::MAX {
        Some(FreeSemanticError::GenerationOverflow)
    } else if m.manifest matches Some(before) && before.chunking_policy_digest != Some(
        p.chunking_policy_digest,
    ) {
        Some(FreeSemanticError::ChunkingPolicyMismatch)
    } else {
        next_manifest_error(manifest, m)
    }
}

/// The store once a projection takes the place of what its note had.
pub open spec fn store_with_projection(store: StoreModel, p: ProjectionModel) -> StoreModel {
    with_note(without_note(store, p.note_id), p.note_id, p.chunks)
}

/// The catalog of the next generation.
pub open spec fn next_catalog(
    m: CatalogModel,
    store: StoreModel,
    manifest: ManifestModel,
) -> CatalogModel {
    CatalogModel {
        vault_id: m.vault_id,
        store,
        generation: (m.generation + 1) as u64,
        manifest: Some(manifest),
    }
}

/// The manifest that is published with a projection.
pub open spec fn publish_manifest(
    m: CatalogModel,
    p: ProjectionModel,
    manifest: ManifestModel,
) -> ManifestModel {
    published(manifest, p.chunking_policy_digest, store_with_projection(m.store, p))
}

/// The manifest of a generation that is reached without an index of vectors:
/// every contract but that of the vectors stays as it was.
pub open spec fn degraded_manifest(
    m: CatalogModel,
    before: ManifestModel,
    artifact: Seq<char>,
    store: StoreModel,
) -> ManifestModel {
    let next = (m.generation + 1) as u64;
    published(
        ManifestModel {
            vault_id: m.vault_id,
            generation: next,
            model_descriptor_digest: None,
            dimension: None,
            lexical_generation: next,
            vector_generation: None,
            normalization: None,
            semantic_availability: SemanticAvailability::NoCandidateSelected,
            lexical_receipt: ReceiptModel::Pending { artifact },
            vector_receipt: None,
            chunking_policy_digest: None,
            chunk_map_digest: None,
            note_set_digest: None,
            ..before
        },
        before.chunking_policy_digest->0,
        store,
    )
}

/// Why a note is not removed, or a catalog not reset, if it is not.
pub open spec fn mutation_error(m: CatalogModel, token: TokenModel) -> Option<FreeSemanticError> {
    if token_error(token, m) is Some {
        token_error(token, m)
    } else if m.generation == u64::MAX {
        Some(FreeSemanticError::GenerationOverflow)
    } else if m.manifest is None {
        Some(FreeSemanticError::MissingPublishedReceipt)
    } else {
        None
    }
}

/// Why a note is not removed, if it is not: its identity is looked at behind
/// the token.
pub open spec fn removal_error(m: CatalogModel, token: TokenModel, note_id: Seq<char>) -> Option<
    FreeSemanticError,
> {
    if token_error(token, m) is Some {
        token_error(token, m)
    } else if !is_identity(note_id) {
        Some(identity_error(note_id, IdentityKind::Note))
    } else {
        mutation_error(m, token)
    }
}

pub open spec fn projection_views(ps: Seq<ChunkProjection>) -> Seq<ProjectionModel> {
    ps.map_values(|p: ChunkProjection| p@)
}

/// The store made of the first `n` projections alone.
pub open spec fn rebuilt_store(ps: Seq<ProjectionModel>, n: int) -> StoreModel
    decreases n,
{
    if n <= 0 {
        empty_store()
    } else {
        with_note(rebuilt_store(ps, n - 1), ps[n - 1].note_id, ps[n - 1].chunks)
    }
}

/// The first fault among the first `n` projections of a rebuild: one that does
/// not enter the vault, one under another policy or of a note that is already
/// there, or one that takes over the identity of a chunk.
pub open spec fn rebuild_fault(
    ps: Seq<ProjectionModel>,
    n: int,
    vault_id: Seq<char>,
    policy: ChunkingPolicy,
) -> Option<FreeSemanticError>
    decreases n,
{
    if n <= 0 {
        None
    } else if rebuild_fault(ps, n - 1, vault_id, policy) is Some {
        rebuild_fault(ps, n - 1, vault_id, policy)
    } else if projection_fault(ps[n - 1], vault_id) is Some {
        projection_fault(ps[n - 1], vault_id)
    } else if ps[n - 1].chunking_policy != policy || has_key(
        note_keys(rebuilt_store(ps, n - 1).notes),
        ps[n - 1].note_id,
    ) {
        Some(FreeSemanticError::ChunkingPolicyMismatch)
    } else if !ids_are_new(rebuilt_store(ps, n - 1).chunks, ps[n - 1].chunks) {
        Some(FreeSemanticError::InvalidProjection)
    } else {
        None
    }
}

/// Why a catalog is not rebuilt, if it is not.
pub open spec fn rebuild_error(
    m: CatalogModel,
    token: TokenModel,
    policy: ChunkingPolicy,
    ps: Seq<ProjectionModel>,
    manifest: ManifestModel,
) -> Option<FreeSemanticError> {
    if token_error(token, m) is Some {
        token_error(token, m)
    } else if !policy_ok(policy) {
        Some(FreeSemanticError::InvalidChunkPolicy)
    } else if m.generation == u64::MAX {
        Some(FreeSemanticError::GenerationOverflow)
    } else if next_manifest_error(manifest, m) is Some {
        next_manifest_error(manifest, m)
    } else {
        rebuild_fault(ps, ps.len() as int, m.vault_id, policy)
    }
}

/// The chunks that stand behind identities, in their order.
pub open spec fn listed_chunks(store: StoreModel, ids: Seq<Seq<char>>) -> Seq<ChunkModel>
    decreases ids.len(),
{
    if ids.len() == 0 {
        Seq::empty()
    } else {
        let before = listed_chunks(store, ids.drop_last());
        match chunk_at(store, ids.last()) {
            Some(c) => before.push(c),
            None => before,
        }
    }
}

proof fn lemma_projection_chunks(p: ProjectionModel)
    requires
        projection_ok(p),
    ensures
        forall|i: int| 0 <= i < p.chunks.len() ==> (#[trigger] p.chunks[i]).note_id == p.note_id,
        forall|i: int| 0 <= i < p.chunks.len() ==> (#[trigger] p.chunks[i]).vault_id == p.vault_id,
{
    let note = projected_note(p);
    let pieces = indexed_pieces(note, p.chunking_policy);
    assert forall|i: int| 0 <= i < p.chunks.len() implies (#[trigger] p.chunks[i]).note_id
        == p.note_id && p.chunks[i].vault_id == p.vault_id by {
        assert(p.chunks[i] == chunk_of(note, pieces, i));
    }
}

/// A catalog with the published manifest of a staged store is a catalog.
proof fn lemma_next_catalog_ok(
    m: CatalogModel,
    store: StoreModel,
    manifest: ManifestModel,
    policy: Seq<char>,
)
    requires
        catalog_ok(m),
        m.generation < u64::MAX,
        store_ok(store),
        forall|c: ChunkModel| #[trigger] store.chunks.contains(c) ==> c.vault_id == m.vault_id,
        manifest.vault_id == m.vault_id,
        manifest.generation == m.generation + 1,
        published_ok(published(manifest, policy, store)),
    ensures
        catalog_ok(next_catalog(m, store, published(manifest, policy, store))),
{
}

/// What the projections of a rebuild without a fault give is a store of chunks
/// of the vault.
proof fn lemma_rebuilt_store_ok(
    ps: Seq<ProjectionModel>,
    n: int,
    vault_id: Seq<char>,
    policy: ChunkingPolicy,
)
    requires
        0 <= n <= ps.len(),
        rebuild_fault(ps, n, vault_id, policy) is None,
    ensures
        store_ok(rebuilt_store(ps, n)),
        forall|c: ChunkModel| #[trigger]
            rebuilt_store(ps, n).chunks.contains(c) ==> c.vault_id == vault_id,
    decreases n,
{
    if n > 0 {
        lemma_rebuilt_store_ok(ps, n - 1, vault_id, policy);
        let p = ps[n - 1];
        let before = rebuilt_store(ps, n - 1);
        lemma_projection_chunks(p);
        law_with_note(before, p.note_id, p.chunks);
        assert forall|c: ChunkModel| #[trigger]
            rebuilt_store(ps, n).chunks.contains(c) implies c.vault_id == vault_id by {
            if p.chunks.contains(c) {
                let i = choose|i: int| 0 <= i < p.chunks.len() && p.chunks[i] == c;
                assert(p.chunks[i].vault_id == p.vault_id);
            }
        }
    } else {
        assert(rebuilt_store(ps, n).chunks =~= Seq::empty());
    }
}

/// The first fault of a rebuild stays the fault of all.
proof fn lemma_rebuild_fault_stays(
    ps: Seq<ProjectionModel>,
    n: int,
    k: int,
    vault_id: Seq<char>,
    policy: ChunkingPolicy,
)
    requires
        0 <= n <= k,
    ensures
        rebuild_fault(ps, n, vault_id, policy) is Some ==> rebuild_fault(ps, k, vault_id, policy)
            == rebuild_fault(ps, n, vault_id, policy),
    decreases k - n,
{
    if n < k {
        lemma_rebuild_fault_stays(ps, n, k - 1, vault_id, policy);
    }
}

/// Why a lease is not issued, if it is not.
pub open spec fn lease_error(m: CatalogModel, request: RequestModel, pre_filter_limit: usize) -> Option<
    FreeSemanticError,
> {
    if request_error(request) is Some {
        request_error(request)
    } else if request.vault_id != m.vault_id {
        Some(FreeSemanticError::VaultMismatch)
    } else if pre_filter_limit < request.limit || pre_filter_limit > MAX_CHANNEL_HITS {
        Some(FreeSemanticError::InvalidRequest)
    } else if m.manifest is None {
        Some(FreeSemanticError::InvalidManifest)
    } else {
        None
    }
}

/// Whether a hit is of a stored chunk that is not of the note that the search
/// came from.
pub open spec fn hit_is_eligible(m: CatalogModel, origin: Option<Seq<char>>, hit: HitModel) -> bool {
    chunk_at(m.store, hit.chunk_id) matches Some(c) && origin != Some(c.note_id)
}

/// The receipt of the state that a channel of a lease searches.
pub open spec fn lease_receipt(lease: LeaseModel, channel: SearchChannel) -> Option<ReceiptModel> {
    match channel {
        SearchChannel::Lexical => Some(lease.lexical_receipt),
        SearchChannel::Semantic => lease.vector_receipt,
    }
}

/// Why an assertion of hits is refused, if it is. Titles are never accepted:
/// only an executor of its own could attest them.
pub open spec fn assertion_error(
    m: CatalogModel,
    lease: LeaseModel,
    channel: SearchChannel,
    completion: ChannelCompletion,
    upstream: usize,
    excluded: usize,
    hits: Seq<HitModel>,
    any_titles: bool,
) -> Option<FreeSemanticError> {
    if m.manifest is None {
        Some(FreeSemanticError::InvalidManifest)
    } else if !lease_ok(lease, m.vault_id, m.generation, m.manifest->0) || any_titles
        || lease_receipt(lease, channel) is None {
        Some(FreeSemanticError::InvalidChannelBatch)
    } else {
        let batch = open_batch(
            lease,
            channel,
            lease_receipt(lease, channel)->0,
            completion,
            upstream,
            excluded,
            hits,
        );
        if batch_error(batch) is Some {
            batch_error(batch)
        } else if exists|i: int|
            0 <= i < hits.len() && !hit_is_eligible(
                m,
                lease.request.origin_note_id,
                #[trigger] hits[i],
            ) {
            Some(FreeSemanticError::InvalidChannelBatch)
        } else {
            None
        }
    }
}

/// Why a batch does not count for a request, if it does not.
pub open spec fn batch_fault(
    m: CatalogModel,
    manifest: ManifestModel,
    batch: BatchModel,
    channel: SearchChannel,
    receipt: ReceiptModel,
    request: RequestModel,
) -> Option<FreeSemanticError> {
    if batch_error(batch) is Some {
        batch_error(batch)
    } else if !batch_bound(
        batch,
        channel,
        m.vault_id,
        m.generation,
        manifest_digest(manifest),
        request_digest(request),
        receipt,
        request.origin_note_id,
        request.limit,
        lease_digest(
            m.vault_id,
            m.generation,
            manifest_digest(manifest),
            request,
            batch.pre_filter_limit,
            manifest.lexical_receipt,
            manifest.vector_receipt,
        ),
    ) {
        Some(FreeSemanticError::InvalidChannelBatch)
    } else {
        None
    }
}

pub open spec fn opt_batch(b: Option<ChannelBatch>) -> Option<BatchModel> {
    match b {
        Some(x) => Some(x@),
        None => None,
    }
}

/// Whether the index of vectors may take part.
pub open spec fn semantic_available(m: ManifestModel) -> bool {
    m.semantic_availability == SemanticAvailability::Available
}

/// Why nothing is ranked, if nothing is. A batch of vectors neither counts
/// nor spoils anything where they are not available.
pub open spec fn ranking_error(
    m: CatalogModel,
    lexical: BatchModel,
    semantic: Option<BatchModel>,
    request: RequestModel,
) -> Option<FreeSemanticError> {
    if request_error(request) is Some {
        request_error(request)
    } else if request.vault_id != m.vault_id {
        Some(FreeSemanticError::VaultMismatch)
    } else if m.manifest is None {
        Some(FreeSemanticError::InvalidManifest)
    } else {
        let manifest = m.manifest->0;
        let first = batch_fault(
            m,
            manifest,
            lexical,
            SearchChannel::Lexical,
            manifest.lexical_receipt,
            request,
        );
        if first is Some {
            first
        } else if semantic_available(manifest) && semantic is Some {
            batch_fault(
                m,
                manifest,
                semantic->0,
                SearchChannel::Semantic,
                manifest.vector_receipt->0,
                request,
            )
        } else {
            None
        }
    }
}

/// What is ranked for a request.
pub open spec fn ranking_input(
    m: CatalogModel,
    lexical: BatchModel,
    semantic: Option<BatchModel>,
    request: RequestModel,
) -> RankInput {
    let manifest = m.manifest->0;
    RankInput {
        store: m.store,
        lexical: lexical.hits,
        semantic: if semantic_available(manifest) && semantic is Some {
            semantic->0.hits
        } else {
            Seq::empty()
        },
        origin: request.origin_note_id,
        rrf_k: manifest.rank_policy_rrf_k,
        semantic_available: semantic_available(manifest),
    }
}

impl ChunkCatalog {
    #[verifier::type_invariant]
    closed spec fn inv(self) -> bool {
        catalog_ok(self@)
    }

    /// An empty catalog that nothing was published in.
    pub fn new(vault_id: &str) -> (r: Result<Self, FreeSemanticError>)
        ensures
            match r {
                Ok(c) => is_identity(vault_id@) && c@ == (CatalogModel {
                    vault_id: vault_id@,
                    store: empty_store(),
                    generation: 0,
                    manifest: None,
                }),
                Err(e) => !is_identity(vault_id@) && e == identity_error(
                    vault_id@,
                    IdentityKind::Vault,
                ),
            },
    {
        ChunkCatalog::resume_at(vault_id, 0)
    }

    /// An empty catalog that goes on from a generation, for a vault whose
    /// chunks are to be rebuilt.
    pub fn resume_at(vault_id: &str, generation: u64) -> (r: Result<Self, FreeSemanticError>)
        ensures
            match r {
                Ok(c) => is_identity(vault_id@) && c@ == (CatalogModel {
                    vault_id: vault_id@,
                    store: empty_store(),
                    generation,
                    manifest: None,
                }),
                Err(e) => !is_identity(vault_id@) && e == identity_error(
                    vault_id@,
                    IdentityKind::Vault,
                ),
            },
    {
        match canonical_identity(vault_id.to_owned(), IdentityKind::Vault) {
            Ok(vault) => Ok(
                ChunkCatalog { vault_id: vault, store: ChunkStore::new(), generation, manifest: None },
            ),
            Err(e) => Err(e),
        }
    }

    pub fn vault_id(&self) -> (r: &str)
        ensures
            r@ == self@.vault_id,
    {
        self.vault_id.as_str()
    }

    pub fn generation(&self) -> (r: u64)
        ensures
            r == self@.generation,
    {
        self.generation
    }

    pub fn manifest(&self) -> (r: Option<&GenerationManifest>)
        ensures
            match r {
                Some(m) => self@.manifest == Some(m@),
                None => self@.manifest is None,
            },
    {
        match &self.manifest {
            Some(m) => Some(m),
            None => None,
        }
    }

    pub fn publication_token(&self) -> (r: PublicationToken)
        ensures
            r@ == (TokenModel {
                vault_id: self@.vault_id,
                expected_generation: self@.generation,
                cancelled: false,
            }),
    {
        PublicationToken {
            vault_id: self.vault_id.clone(),
            expected_generation: self.generation,
            cancelled: false,
        }
    }

    fn validate_token(&self, token: &PublicationToken) -> (r: Result<(), FreeSemanticError>)
        ensures
            match r {
                Ok(()) => token_error(token@, self@) is None,
                Err(e) => token_error(token@, self@) == Some(e),
            },
    {
        if token.cancelled {
            return Err(FreeSemanticError::CancelledPublication);
        }
        if token.vault_id != self.vault_id {
            return Err(FreeSemanticError::VaultMismatch);
        }
        if token.expected_generation != self.generation {
            return Err(
                FreeSemanticError::StalePublication {
                    expected: token.expected_generation,
                    actual: self.generation,
                },
            );
        }
        Ok(())
    }

    fn next_generation(&self) -> (r: Result<u64, FreeSemanticError>)
        ensures
            match r {
                Ok(n) => n == self@.generation + 1,
                Err(e) => self@.generation == u64::MAX && e
                    == FreeSemanticError::GenerationOverflow,
            },
    {
        match self.generation.checked_add(1) {
            Some(n) => Ok(n),
            None => Err(FreeSemanticError::GenerationOverflow),
        }
    }

    /// Accepts a projection into this vault: only what the projector makes of
    /// the source that it carries.
    pub fn validate_projection(&self, projection: &ChunkProjection) -> (r: Result<
        (),
        FreeSemanticError,
    >)
        ensures
            match r {
                Ok(()) => projection_fault(projection@, self@.vault_id) is None,
                Err(e) => projection_fault(projection@, self@.vault_id) == Some(e),
            },
    {
        if projection.vault_id != self.vault_id {
            return Err(FreeSemanticError::VaultMismatch);
        }
        match check_identity(projection.note_id.as_str(), IdentityKind::Note) {
            Ok(()) => {},
            Err(e) => {
                return Err(e);
            },
        }
        if contains_char(projection.canonical_title.as_str(), '\0') {
            return Err(FreeSemanticError::InvalidProjection);
        }
        let note: NoteInput = NoteInput {
            vault_id: projection.vault_id.clone(),
            note_id: projection.note_id.clone(),
            title: projection.canonical_title.clone(),
            body: projection.canonical_body.clone(),
        };
        assert(note@ == projected_note(projection@));
        let expected: ChunkProjection = match chunk_note(&note, &projection.chunking_policy) {
            Ok(p) => p,
            Err(_) => {
                return Err(FreeSemanticError::InvalidProjection);
            },
        };
        if !expected.same(projection) {
            return Err(FreeSemanticError::InvalidProjection);
        }
        let mut ids: Vec<String> = Vec::new();
        let ghost models = projection@.chunks;
        let mut i: usize = 0;
        assert(string_views(ids@) =~= Seq::empty());
        while i < projection.chunks.len()
            invariant
                models == chunk_views(projection.chunks@),
                models == projection@.chunks,
                projection@.vault_id == self@.vault_id,
                is_identity(projection@.note_id),
                i <= projection.chunks@.len(),
                ascending(string_views(ids@)),
                forall|k: Seq<char>| #[trigger]
                    string_views(ids@).contains(k) <==> exists|j: int|
                        0 <= j < i && (#[trigger] models[j]).chunk_id == k,
                forall|a: int, b: int|
                    0 <= a < b < i ==> (#[trigger] models[a]).chunk_id != (
                    #[trigger] models[b]).chunk_id,
            decreases projection.chunks@.len() - i,
        {
            let ghost id = models[i as int].chunk_id;
            let ghost before = string_views(ids@);
            assert(models[i as int] == projection.chunks@[i as int]@);
            proof {
                crate::keys::lemma_with_key(before, id);
            }
            if !insert_text(&mut ids, projection.chunks[i].chunk_id.as_str()) {
                proof {
                    let j = choose|j: int| 0 <= j < i && (#[trigger] models[j]).chunk_id == id;
                    assert(!ids_distinct(models)) by {
                        assert(models[j].chunk_id == models[i as int].chunk_id);
                    }
                }
                return Err(FreeSemanticError::InvalidProjection);
            }
            proof {
                let after = string_views(ids@);
                assert forall|k: Seq<char>| #[trigger] after.contains(k) <==> exists|j: int|
                    0 <= j < i + 1 && (#[trigger] models[j]).chunk_id == k by {
                    assert(before.contains(k) <==> exists|j: int|
                        0 <= j < i && (#[trigger] models[j]).chunk_id == k);
                    if after.contains(k) {
                        if k == id {
                            assert(models[i as int].chunk_id == k);
                        } else {
                            let j = choose|j: int|
                                0 <= j < i && (#[trigger] models[j]).chunk_id == k;
                            assert(models[j].chunk_id == k);
                        }
                    }
                }
                assert forall|a: int, b: int| 0 <= a < b < i + 1 implies (
                #[trigger] models[a]).chunk_id != (#[trigger] models[b]).chunk_id by {
                    if b == i && models[a].chunk_id == id {
                        assert(before.contains(id));
                    }
                }
            }
            i += 1;
        }
        Ok(())
    }

    /// Publishes a projection under the next generation. What its note had
    /// before is gone; a refused publication changes nothing.
    pub fn publish(
        &mut self,
        token: PublicationToken,
        projection: ChunkProjection,
        manifest: GenerationManifest,
    ) -> (r: Result<GenerationManifest, FreeSemanticError>)
        ensures
            match r {
                Ok(receipt) => {
                    &&& publish_error(old(self)@, token@, projection@, manifest@) is None
                    &&& receipt@ == publish_manifest(old(self)@, projection@, manifest@)
                    &&& final(self)@ == next_catalog(
                        old(self)@,
                        store_with_projection(old(self)@.store, projection@),
                        receipt@,
                    )
                    &&& published_ok(receipt@)
                },
                Err(e) => publish_error(old(self)@, token@, projection@, manifest@) == Some(e)
                    && final(self)@ == old(self)@,
            },
    {
        proof {
            use_type_invariant(&*self);
        }
        let ghost m = self@;
        let ghost p = projection@;
        match self.validate_token(&token) {
            Ok(()) => {},
            Err(e) => {
                return Err(e);
            },
        }
        match self.validate_projection(&projection) {
            Ok(()) => {},
            Err(e) => {
                return Err(e);
            },
        }
        let next: u64 = match self.next_generation() {
            Ok(n) => n,
            Err(e) => {
                return Err(e);
            },
        };
        match &self.manifest {
            Some(previous) => {
                let same: bool = match &previous.chunking_policy_digest {
                    Some(d) => *d == projection.chunking_policy_digest,
                    None => false,
                };
                if !same {
                    return Err(FreeSemanticError::ChunkingPolicyMismatch);
                }
            },
            None => {},
        }
        if manifest.vault_id != self.vault_id || manifest.generation != next {
            return Err(FreeSemanticError::ManifestMismatch);
        }
        match manifest.validate_shape() {
            Ok(()) => {},
            Err(e) => {
                return Err(e);
            },
        }
        proof {
            lemma_projection_chunks(p);
            law_without_note(m.store, p.note_id);
            law_with_note(without_note(m.store, p.note_id), p.note_id, p.chunks);
        }
        let ChunkProjection { note_id, chunking_policy, chunking_policy_digest, chunks, .. } =
            projection;
        let fresh_digest: String = chunking_policy.digest();
        let mut store: ChunkStore = self.store.clone();
        store.remove_note(note_id.as_str());
        store.add_note(note_id.as_str(), chunks);
        assert(store@ == store_with_projection(m.store, p));
        let receipt: GenerationManifest = match manifest.with_staged_state(
            chunking_policy_digest,
            &store,
        ) {
            Ok(x) => x,
            Err(e) => {
                assert(false);
                return Err(e);
            },
        };
        let kept: GenerationManifest = receipt.clone();
        proof {
            assert forall|c: ChunkModel| #[trigger] store@.chunks.contains(c) implies c.vault_id
                == m.vault_id by {
                if p.chunks.contains(c) {
                    let i = choose|i: int| 0 <= i < p.chunks.len() && p.chunks[i] == c;
                    assert(p.chunks[i].vault_id == p.vault_id);
                }
            }
            lemma_next_catalog_ok(m, store@, manifest@, p.chunking_policy_digest);
        }
        *self = ChunkCatalog {
            vault_id: self.vault_id.clone(),
            store,
            generation: next,
            manifest: Some(kept),
        };
        Ok(receipt)
    }

    /// The manifest of the next generation of a catalog that loses its index
    /// of vectors.
    fn stage_degraded_mutation_receipt(
        &self,
        lexical_staging: &LexicalStagingReceipt,
        next: u64,
        store: &ChunkStore,
    ) -> (r: Result<GenerationManifest, FreeSemanticError>)
        requires
            catalog_ok(self@),
            next == self@.generation + 1,
            store_ok(store@),
            forall|c: ChunkModel| #[trigger]
                store@.chunks.contains(c) ==> c.vault_id == self@.vault_id,
        ensures
            match r {
                Ok(receipt) => {
                    &&& self@.manifest matches Some(before) && receipt@ == degraded_manifest(
                        self@,
                        before,
                        lexical_staging.artifact(),
                        store@,
                    )
                    &&& published_ok(receipt@)
                    &&& catalog_ok(next_catalog(self@, store@, receipt@))
                },
                Err(e) => self@.manifest is None && e
                    == FreeSemanticError::MissingPublishedReceipt,
            },
    {
        let previous: &GenerationManifest = match &self.manifest {
            Some(p) => p,
            None => {
                return Err(FreeSemanticError::MissingPublishedReceipt);
            },
        };
        let policy: String = match &previous.chunking_policy_digest {
            Some(d) => d.clone(),
            None => {
                assert(false);
                return Err(FreeSemanticError::MissingPublishedReceipt);
            },
        };
        let manifest: GenerationManifest = GenerationManifest {
            schema_version: previous.schema_version,
            digest_algorithm: previous.digest_algorithm.clone(),
            vault_id: self.vault_id.clone(),
            generation: next,
            model_descriptor_digest: None,
            dimension: None,
            chunk_format_version: previous.chunk_format_version,
            lexical_generation: next,
            vector_generation: None,
            rank_policy_version: previous.rank_policy_version,
            rank_policy_rrf_k: previous.rank_policy_rrf_k,
            rank_policy_digest: previous.rank_policy_digest.clone(),
            normalization: None,
            semantic_availability: SemanticAvailability::NoCandidateSelected,
            lexical_receipt: lexical_staging.pending_channel_receipt(),
            vector_receipt: None,
            chunking_policy_digest: None,
            chunk_map_digest: None,
            note_set_digest: None,
        };
        let ghost policy_text = policy@;
        assert(shape_ok(manifest@));
        match manifest.with_staged_state(policy, store) {
            Ok(receipt) => {
                proof {
                    lemma_next_catalog_ok(self@, store@, manifest@, policy_text);
                    assert(receipt@ =~= degraded_manifest(
                        self@,
                        self@.manifest->0,
                        lexical_staging.artifact(),
                        store@,
                    ));
                }
                Ok(receipt)
            },
            Err(e) => {
                assert(false);
                Err(e)
            },
        }
    }

    /// Takes a note out under the next generation.
    pub fn remove_note(
        &mut self,
        token: PublicationToken,
        note_id: &str,
        lexical_staging: LexicalStagingReceipt,
    ) -> (r: Result<GenerationManifest, FreeSemanticError>)
        ensures
            match r {
                Ok(receipt) => {
                    &&& removal_error(old(self)@, token@, note_id@) is None
                    &&& receipt@ == degraded_manifest(
                        old(self)@,
                        old(self)@.manifest->0,
                        lexical_staging.artifact(),
                        without_note(old(self)@.store, note_id@),
                    )
                    &&& final(self)@ == next_catalog(
                        old(self)@,
                        without_note(old(self)@.store, note_id@),
                        receipt@,
                    )
                    &&& published_ok(receipt@)
                },
                Err(e) => removal_error(old(self)@, token@, note_id@) == Some(e) && final(self)@
                    == old(self)@,
            },
    {
        proof {
            use_type_invariant(&*self);
        }
        let ghost m = self@;
        match self.validate_token(&token) {
            Ok(()) => {},
            Err(e) => {
                return Err(e);
            },
        }
        match check_identity(note_id, IdentityKind::Note) {
            Ok(()) => {},
            Err(e) => {
                return Err(e);
            },
        }
        let next: u64 = match self.next_generation() {
            Ok(n) => n,
            Err(e) => {
                return Err(e);
            },
        };
        proof {
            law_without_note(m.store, note_id@);
        }
        let mut store: ChunkStore = self.store.clone();
        store.remove_note(note_id);
        let receipt: GenerationManifest = match self.stage_degraded_mutation_receipt(
            &lexical_staging,
            next,
            &store,
        ) {
            Ok(x) => x,
            Err(e) => {
                return Err(e);
            },
        };
        let kept: GenerationManifest = receipt.clone();
        *self = ChunkCatalog {
            vault_id: self.vault_id.clone(),
            store,
            generation: next,
            manifest: Some(kept),
        };
        Ok(receipt)
    }

    /// Takes every note out under the next generation.
    pub fn reset(
        &mut self,
        token: PublicationToken,
        lexical_staging: LexicalStagingReceipt,
    ) -> (r: Result<GenerationManifest, FreeSemanticError>)
        ensures
            match r {
                Ok(receipt) => {
                    &&& mutation_error(old(self)@, token@) is None
                    &&& receipt@ == degraded_manifest(
                        old(self)@,
                        old(self)@.manifest->0,
                        lexical_staging.artifact(),
                        empty_store(),
                    )
                    &&& final(self)@ == next_catalog(old(self)@, empty_store(), receipt@)
                    &&& published_ok(receipt@)
                },
                Err(e) => mutation_error(old(self)@, token@) == Some(e) && final(self)@
                    == old(self)@,
            },
    {
        proof {
            use_type_invariant(&*self);
        }
        let ghost m = self@;
        match self.validate_token(&token) {
            Ok(()) => {},
            Err(e) => {
                return Err(e);
            },
        }
        let next: u64 = match self.next_generation() {
            Ok(n) => n,
            Err(e) => {
                return Err(e);
            },
        };
        let store: ChunkStore = ChunkStore::new();
        let receipt: GenerationManifest = match self.stage_degraded_mutation_receipt(
            &lexical_staging,
            next,
            &store,
        ) {
            Ok(x) => x,
            Err(e) => {
                return Err(e);
            },
        };
        let kept: GenerationManifest = receipt.clone();
        *self = ChunkCatalog {
            vault_id: self.vault_id.clone(),
            store,
            generation: next,
            manifest: Some(kept),
        };
        Ok(receipt)
    }

    /// Replaces the whole catalog under the next generation. A contract may
    /// only change this way: an incremental publication cannot mix policies.
    pub fn rebuild(
        &mut self,
        token: PublicationToken,
        chunking_policy: ChunkingPolicy,
        projections: Vec<ChunkProjection>,
        manifest: GenerationManifest,
    ) -> (r: Result<GenerationManifest, FreeSemanticError>)
        ensures
            ({
                let ps = projection_views(projections@);
                match r {
                    Ok(receipt) => {
                        &&& rebuild_error(old(self)@, token@, chunking_policy, ps, manifest@) is None
                        &&& receipt@ == published(
                            manifest@,
                            policy_digest(chunking_policy),
                            rebuilt_store(ps, ps.len() as int),
                        )
                        &&& final(self)@ == next_catalog(
                            old(self)@,
                            rebuilt_store(ps, ps.len() as int),
                            receipt@,
                        )
                        &&& published_ok(receipt@)
                    },
                    Err(e) => rebuild_error(old(self)@, token@, chunking_policy, ps, manifest@)
                        == Some(e) && final(self)@ == old(self)@,
                }
            }),
    {
        proof {
            use_type_invariant(&*self);
        }
        let ghost m = self@;
        let ghost ps = projection_views(projections@);
        let ghost vault = m.vault_id;
        match self.validate_token(&token) {
            Ok(()) => {},
            Err(e) => {
                return Err(e);
            },
        }
        match chunking_policy.validate() {
            Ok(()) => {},
            Err(e) => {
                return Err(e);
            },
        }
        let next: u64 = match self.next_generation() {
            Ok(n) => n,
            Err(e) => {
                return Err(e);
            },
        };
        if manifest.vault_id != self.vault_id || manifest.generation != next {
            return Err(FreeSemanticError::ManifestMismatch);
        }
        match manifest.validate_shape() {
            Ok(()) => {},
            Err(e) => {
                return Err(e);
            },
        }
        let mut store: ChunkStore = ChunkStore::new();
        let mut i: usize = 0;
        while i < projections.len()
            invariant
                self@ == m,
                vault == m.vault_id,
                ps == projection_views(projections@),
                i <= projections@.len(),
                rebuild_fault(ps, i as int, vault, chunking_policy) is None,
                store@ == rebuilt_store(ps, i as int),
                store_ok(store@),
                rebuild_error(m, token@, chunking_policy, ps, manifest@) == rebuild_fault(
                    ps,
                    ps.len() as int,
                    vault,
                    chunking_policy,
                ),
            decreases projections@.len() - i,
        {
            let ghost p = ps[i as int];
            assert(p == projections@[i as int]@);
            proof {
                lemma_rebuild_fault_stays(ps, i + 1, ps.len() as int, vault, chunking_policy);
            }
            match self.validate_projection(&projections[i]) {
                Ok(()) => {},
                Err(e) => {
                    return Err(e);
                },
            }
            if projections[i].chunking_policy != chunking_policy {
                return Err(FreeSemanticError::ChunkingPolicyMismatch);
            }
            match store.note_index(projections[i].note_id.as_str()) {
                Some(_) => {
                    return Err(FreeSemanticError::ChunkingPolicyMismatch);
                },
                None => {},
            }
            proof {
                lemma_projection_chunks(p);
            }
            let chunks: Vec<ParagraphChunk> = super::projection::clone_chunks(
                &projections[i].chunks,
            );
            if !store.add_note(projections[i].note_id.as_str(), chunks) {
                return Err(FreeSemanticError::InvalidProjection);
            }
            i += 1;
        }
        proof {
            lemma_rebuilt_store_ok(ps, ps.len() as int, vault, chunking_policy);
        }
        let digest: String = chunking_policy.digest();
        let ghost digest_text = digest@;
        let receipt: GenerationManifest = match manifest.with_staged_state(digest, &store) {
            Ok(x) => x,
            Err(e) => {
                assert(false);
                return Err(e);
            },
        };
        let kept: GenerationManifest = receipt.clone();
        proof {
            lemma_next_catalog_ok(m, store@, manifest@, digest_text);
        }
        *self = ChunkCatalog {
            vault_id: self.vault_id.clone(),
            store,
            generation: next,
            manifest: Some(kept),
        };
        Ok(receipt)
    }

    /// The chunk with an identity.
    pub fn chunk(&self, chunk_id: &str) -> (r: Option<&ParagraphChunk>)
        ensures
            match r {
                Some(c) => chunk_at(self@.store, chunk_id@) == Some(c@),
                None => chunk_at(self@.store, chunk_id@) is None,
            },
    {
        proof {
            use_type_invariant(self);
        }
        self.store.chunk(chunk_id)
    }

    /// The chunks of a note, in the order of their identities.
    pub fn chunks_for_note(&self, note_id: &str) -> (r: Vec<&ParagraphChunk>)
        ensures
            r@.map_values(|c: &ParagraphChunk| c@) == listed_chunks(
                self@.store,
                ids_of(self@.store, note_id@),
            ),
    {
        proof {
            use_type_invariant(self);
        }
        let mut out: Vec<&ParagraphChunk> = Vec::new();
        let ghost store = self@.store;
        match self.store.note_index(note_id) {
            Some(at) => {
                let ids: &Vec<String> = &self.store.notes[at].chunk_ids;
                let ghost views = string_views(ids@);
                assert(store.notes[at as int] == self.store.notes@[at as int]@);
                assert(views.take(0) =~= Seq::empty());
                assert(out@.map_values(|c: &ParagraphChunk| c@) =~= Seq::empty());
                let mut i: usize = 0;
                while i < ids.len()
                    invariant
                        store_ok(store),
                        store == self.store@,
                        views == string_views(ids@),
                        i <= ids@.len(),
                        out@.map_values(|c: &ParagraphChunk| c@) == listed_chunks(
                            store,
                            views.take(i as int),
                        ),
                    decreases ids@.len() - i,
                {
                    let ghost before = out@.map_values(|c: &ParagraphChunk| c@);
                    proof {
                        assert(views.take(i + 1).drop_last() =~= views.take(i as int));
                        assert(views.take(i + 1).last() == ids@[i as int]@);
                    }
                    match self.store.chunk(ids[i].as_str()) {
                        Some(c) => {
                            out.push(c);
                            assert(out@.map_values(|c: &ParagraphChunk| c@) =~= before.push(c@));
                        },
                        None => {},
                    }
                    i += 1;
                }
                assert(views.take(views.len() as int) =~= views);
            },
            None => {
                assert(out@.map_values(|c: &ParagraphChunk| c@) =~= Seq::empty());
            },
        }
        out
    }

    pub fn chunk_count(&self) -> (r: usize)
        ensures
            r == self@.store.chunks.len(),
    {
        self.store.chunks.len()
    }

    /// Issues a lease that is bound to the generation, for one search. It only
    /// proves that the catalog admitted the request, not that a search ran.
    pub fn issue_search_lease(&self, request: &HybridRequest, pre_filter_limit: usize) -> (r:
        Result<SearchLease, FreeSemanticError>)
        ensures
            match r {
                Ok(lease) => lease_error(self@, request@, pre_filter_limit) is None && lease@
                    == lease_for(
                    self@.vault_id,
                    self@.generation,
                    self@.manifest->0,
                    request@,
                    pre_filter_limit,
                ),
                Err(e) => lease_error(self@, request@, pre_filter_limit) == Some(e),
            },
    {
        match request.validate_for_catalog(self.vault_id.as_str()) {
            Ok(()) => {},
            Err(e) => {
                return Err(e);
            },
        }
        if pre_filter_limit < request.limit() || pre_filter_limit > MAX_CHANNEL_HITS {
            return Err(FreeSemanticError::InvalidRequest);
        }
        match &self.manifest {
            Some(manifest) => Ok(
                SearchLease::new(
                    self.vault_id.as_str(),
                    self.generation,
                    manifest,
                    request,
                    pre_filter_limit,
                ),
            ),
            None => Err(FreeSemanticError::InvalidManifest),
        }
    }

    /// Accepts a result assertion of a channel that is bound to a lease. The
    /// assertion is not evidence that a retrieval ran: its counts and its
    /// completion label are what the caller says.
    pub fn complete_untrusted_channel_assertion(
        &self,
        lease: SearchLease,
        channel: SearchChannel,
        completion: ChannelCompletion,
        upstream_candidate_count: usize,
        excluded_candidate_count: usize,
        hits: Vec<ChannelHit>,
        asserted_title_ids: BTreeSet<String>,
    ) -> (r: Result<ChannelBatch, FreeSemanticError>)
        ensures
            ({
                let error = assertion_error(
                    self@,
                    lease@,
                    channel,
                    completion,
                    upstream_candidate_count,
                    excluded_candidate_count,
                    hit_views(hits@),
                    !asserted_title_ids@.is_empty(),
                );
                match r {
                    Ok(batch) => error is None && batch@ == sealed(
                        open_batch(
                            lease@,
                            channel,
                            lease_receipt(lease@, channel)->0,
                            completion,
                            upstream_candidate_count,
                            excluded_candidate_count,
                            hit_views(hits@),
                        ),
                    ),
                    Err(e) => error == Some(e),
                }
            }),
    {
        proof {
            use_type_invariant(self);
        }
        let ghost views = hit_views(hits@);
        match &self.manifest {
            Some(manifest) => {
                match lease.validate_for_catalog(
                    self.vault_id.as_str(),
                    self.generation,
                    manifest,
                ) {
                    Ok(()) => {},
                    Err(e) => {
                        return Err(e);
                    },
                }
            },
            None => {
                return Err(FreeSemanticError::InvalidManifest);
            },
        }
        if !asserted_title_ids.is_empty() {
            return Err(FreeSemanticError::InvalidChannelBatch);
        }
        let receipt: ChannelReceipt = match lease.state_receipt(channel) {
            Some(x) => x,
            None => {
                return Err(FreeSemanticError::InvalidChannelBatch);
            },
        };
        let batch: ChannelBatch = match ChannelBatch::from_lease(
            &lease,
            channel,
            receipt,
            completion,
            upstream_candidate_count,
            excluded_candidate_count,
            hits,
        ) {
            Ok(b) => b,
            Err(e) => {
                return Err(e);
            },
        };
        let ghost error = assertion_error(
            self@,
            lease@,
            channel,
            completion,
            upstream_candidate_count,
            excluded_candidate_count,
            views,
            false,
        );
        let rows: &Vec<ChannelHit> = batch.hits();
        let origin: Option<&str> = lease.request().origin_note_id();
        let ghost origin_text = lease@.request.origin_note_id;
        let mut i: usize = 0;
        while i < rows.len()
            invariant
                hit_views(rows@) == views,
                store_ok(self@.store),
                i <= rows@.len(),
                origin_text == match origin {
                    Some(o) => Some(o@),
                    None => None,
                },
                forall|k: int|
                    0 <= k < i ==> hit_is_eligible(self@, origin_text, #[trigger] views[k]),
                (exists|k: int|
                    0 <= k < views.len() && !hit_is_eligible(
                        self@,
                        origin_text,
                        #[trigger] views[k],
                    )) ==> error == Some(FreeSemanticError::InvalidChannelBatch),
                asserted_title_ids@.is_empty(),
                error == assertion_error(
                    self@,
                    lease@,
                    channel,
                    completion,
                    upstream_candidate_count,
                    excluded_candidate_count,
                    views,
                    false,
                ),
                views == hit_views(hits@),
            decreases rows@.len() - i,
        {
            assert(views[i as int] == rows@[i as int]@);
            let eligible: bool = match self.store.chunk(rows[i].chunk_id.as_str()) {
                Some(chunk) => match origin {
                    Some(o) => !text_eq(chunk.note_id.as_str(), o),
                    None => true,
                },
                None => false,
            };
            assert(eligible == hit_is_eligible(self@, origin_text, views[i as int]));
            if !eligible {
                return Err(FreeSemanticError::InvalidChannelBatch);
            }
            i += 1;
        }
        Ok(batch.seal())
    }

    fn validate_bound_batch(
        &self,
        batch: &ChannelBatch,
        channel: SearchChannel,
        receipt: &ChannelReceipt,
        manifest: &GenerationManifest,
        request: &HybridRequest,
    ) -> (r: Result<(), FreeSemanticError>)
        ensures
            match r {
                Ok(()) => batch_fault(self@, manifest@, batch@, channel, receipt@, request@) is None,
                Err(e) => batch_fault(self@, manifest@, batch@, channel, receipt@, request@)
                    == Some(e),
            },
    {
        match batch.validate_shape() {
            Ok(()) => {},
            Err(e) => {
                return Err(e);
            },
        }
        let current: String = manifest.digest();
        let asked: String = request.digest();
        let lease: String = search_lease_digest(
            self.vault_id.as_str(),
            self.generation,
            current.as_str(),
            request,
            batch.pre_filter_limit(),
            &manifest.lexical_receipt,
            &manifest.vector_receipt,
        );
        if !batch.is_bound_to(
            channel,
            self.vault_id.as_str(),
            self.generation,
            current.as_str(),
            asked.as_str(),
            receipt,
            request.origin_note_id(),
            request.limit(),
            lease.as_str(),
        ) {
            return Err(FreeSemanticError::InvalidChannelBatch);
        }
        Ok(())
    }

    /// Ranks notes by the hits of both channels.
    pub fn rank_note_hits(
        &self,
        lexical_batch: ChannelBatch,
        semantic_batch: Option<ChannelBatch>,
        request: HybridRequest,
    ) -> (r: Result<Vec<RankedNoteHit>, FreeSemanticError>)
        ensures
            ({
                let error = ranking_error(
                    self@,
                    lexical_batch@,
                    opt_batch(semantic_batch),
                    request@,
                );
                match r {
                    Ok(hits) => error is None && is_ranking(
                        ranked_views(hits@),
                        ranking_input(
                            self@,
                            lexical_batch@,
                            opt_batch(semantic_batch),
                            request@,
                        ),
                        request@.limit as int,
                    ),
                    Err(e) => error == Some(e),
                }
            }),
    {
        proof {
            use_type_invariant(self);
        }
        match request.validate_for_catalog(self.vault_id.as_str()) {
            Ok(()) => {},
            Err(e) => {
                return Err(e);
            },
        }
        let manifest: &GenerationManifest = match &self.manifest {
            Some(m) => m,
            None => {
                return Err(FreeSemanticError::InvalidManifest);
            },
        };
        let policy: RankFusionPolicy = RankFusionPolicy {
            version: manifest.rank_policy_version,
            rrf_k: manifest.rank_policy_rrf_k,
        };
        match self.validate_bound_batch(
            &lexical_batch,
            SearchChannel::Lexical,
            &manifest.lexical_receipt,
            manifest,
            &request,
        ) {
            Ok(()) => {},
            Err(e) => {
                return Err(e);
            },
        }
        let available: bool = manifest.semantic_availability.is_available();
        let none: Vec<ChannelHit> = Vec::new();
        let mut semantic_hits: &Vec<ChannelHit> = &none;
        assert(hit_views(none@) =~= Seq::empty());
        if available {
            match &semantic_batch {
                Some(batch) => {
                    match &manifest.vector_receipt {
                        Some(receipt) => match self.validate_bound_batch(
                            batch,
                            SearchChannel::Semantic,
                            receipt,
                            manifest,
                            &request,
                        ) {
                            Ok(()) => {},
                            Err(e) => {
                                return Err(e);
                            },
                        },
                        None => {
                            assert(false);
                            return Err(FreeSemanticError::InvalidManifest);
                        },
                    }
                    semantic_hits = batch.hits();
                    proof {
                        law_accepted_hits_are_distinct(
                            batch@.hits,
                            batch@.hits.len() as int,
                        );
                    }
                },
                None => {},
            }
        }
        let lexical_hits: &Vec<ChannelHit> = lexical_batch.hits();
        proof {
            law_accepted_hits_are_distinct(lexical_batch@.hits, lexical_batch@.hits.len() as int);
        }
        Ok(
            rank_candidates(
                &self.store,
                lexical_hits,
                semantic_hits,
                request.origin_note_id(),
                &policy,
                available,
                request.limit(),
            ),
        )
    }
}

} // verus!
