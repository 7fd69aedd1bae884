//! Receipts and generation manifests.

use vstd::prelude::*;

use super::error::FreeSemanticError;
use super::identity::{canonical_identity, identity_error, is_identity, IdentityKind};
use super::note::CHUNK_FORMAT_VERSION;
use super::rank::{rank_policy_digest, rank_policy_ok, RankFusionPolicy};
use super::store::{chunk_map_digest, note_set_digest, ChunkStore, StoreModel};
use crate::digest::{digest, is_digest, is_sha256_digest, sha256_digest, texts};
use crate::text::{clone_opt_text, decimal, decimal_string, opt_text, text_eq};

verus! {

pub const MANIFEST_SCHEMA_VERSION: u32 = 1;

pub const MAX_VECTOR_DIMENSION: usize = 4_096;

pub const DIGEST_ALGORITHM: &'static str = "sha256-v1";

#[derive(Clone, Copy, Debug, PartialEq, Eq, Structural)]
pub enum VectorNormalization {
    /// The injected adapter normalizes each vector while computing cosine.
    /// This is not a claim about any selected model's output format.
    InjectedCosineL2,
}

pub open spec fn normalization_tag(n: Option<VectorNormalization>) -> Seq<char> {
    match n {
        Some(VectorNormalization::InjectedCosineL2) => "injected-cosine-l2-v1"@,
        None => "none"@,
    }
}

fn normalization_text(n: Option<VectorNormalization>) -> (r: &'static str)
    ensures
        r@ == normalization_tag(n),
{
    match n {
        Some(VectorNormalization::InjectedCosineL2) => "injected-cosine-l2-v1",
        None => "none",
    }
}

#[derive(Clone, Copy, Debug, PartialEq, Eq, Structural)]
pub enum SemanticAvailability {
    Available,
    NoCandidateSelected,
    MissingAsset,
    CorruptAsset,
    Rebuilding,
    Cancelled,
    DimensionMismatch,
}

pub open spec fn availability_tag(value: SemanticAvailability) -> Seq<char> {
    match value {
        SemanticAvailability::Available => "available"@,
        SemanticAvailability::NoCandidateSelected => "no-candidate-selected"@,
        SemanticAvailability::MissingAsset => "missing-asset"@,
        SemanticAvailability::CorruptAsset => "corrupt-asset"@,
        SemanticAvailability::Rebuilding => "rebuilding"@,
        SemanticAvailability::Cancelled => "cancelled"@,
        SemanticAvailability::DimensionMismatch => "dimension-mismatch"@,
    }
}

impl SemanticAvailability {
    pub fn is_available(self) -> (r: bool)
        ensures
            r == (self == SemanticAvailability::Available),
    {
        self == SemanticAvailability::Available
    }

    pub fn tag(self) -> (r: &'static str)
        ensures
            r@ == availability_tag(self),
    {
        match self {
            SemanticAvailability::Available => "available",
            SemanticAvailability::NoCandidateSelected => "no-candidate-selected",
            SemanticAvailability::MissingAsset => "missing-asset",
            SemanticAvailability::CorruptAsset => "corrupt-asset",
            SemanticAvailability::Rebuilding => "rebuilding",
            SemanticAvailability::Cancelled => "cancelled",
            SemanticAvailability::DimensionMismatch => "dimension-mismatch",
        }
    }
}

/// A receipt by its digests.
#[verifier::ext_equal]
pub enum ReceiptModel {
    Pending { artifact: Seq<char> },
    Bound { artifact: Seq<char>, state: Seq<char> },
}

/// A channel artifact receipt is supplied by the eventual lexical or vector
/// staging adapter. The contract binds that external digest to the exact note
/// and chunk state before publishing; it does not pretend to verify a file or
/// an index that it does not open.
#[derive(Debug, PartialEq, Eq)]
pub enum ChannelReceipt {
    Pending { artifact_digest: String },
    Bound { artifact_digest: String, staged_state_digest: String },
}

impl View for ChannelReceipt {
    type V = ReceiptModel;

    open spec fn view(&self) -> ReceiptModel {
        match self {
            ChannelReceipt::Pending { artifact_digest } => ReceiptModel::Pending {
                artifact: artifact_digest@,
            },
            ChannelReceipt::Bound { artifact_digest, staged_state_digest } => ReceiptModel::Bound {
                artifact: artifact_digest@,
                state: staged_state_digest@,
            },
        }
    }
}

impl Clone for ChannelReceipt {
    fn clone(&self) -> (r: Self)
        ensures
            r@ == self@,
    {
        match self {
            ChannelReceipt::Pending { artifact_digest } => ChannelReceipt::Pending {
                artifact_digest: artifact_digest.clone(),
            },
            ChannelReceipt::Bound { artifact_digest, staged_state_digest } => ChannelReceipt::Bound {
                artifact_digest: artifact_digest.clone(),
                staged_state_digest: staged_state_digest.clone(),
            },
        }
    }
}

impl ChannelReceipt {
    /// Whether two receipts agree in every field.
    pub fn same(&self, other: &Self) -> (r: bool)
        ensures
            r == (self@ == other@),
    {
        match (self, other) {
            (
                ChannelReceipt::Pending { artifact_digest: a },
                ChannelReceipt::Pending { artifact_digest: b },
            ) => *a == *b,
            (
                ChannelReceipt::Bound { artifact_digest: a, staged_state_digest: s },
                ChannelReceipt::Bound { artifact_digest: b, staged_state_digest: t },
            ) => *a == *b && *s == *t,
            _ => false,
        }
    }
}

pub open spec fn receipt_view(r: Option<ChannelReceipt>) -> Option<ReceiptModel> {
    match r {
        Some(x) => Some(x@),
        None => None,
    }
}

pub fn clone_receipt(r: &Option<ChannelReceipt>) -> (out: Option<ChannelReceipt>)
    ensures
        receipt_view(out) == receipt_view(*r),
{
    match r {
        Some(x) => Some(x.clone()),
        None => None,
    }
}

pub fn same_receipt(a: &Option<ChannelReceipt>, b: &Option<ChannelReceipt>) -> (r: bool)
    ensures
        r == (receipt_view(*a) == receipt_view(*b)),
{
    match (a, b) {
        (Some(x), Some(y)) => x.same(y),
        (None, None) => true,
        _ => false,
    }
}

/// The artifact of a receipt, in a digest.
pub open spec fn receipt_artifact(r: Option<ReceiptModel>) -> Seq<char> {
    match r {
        Some(ReceiptModel::Pending { artifact }) => artifact,
        Some(ReceiptModel::Bound { artifact, .. }) => artifact,
        None => "none"@,
    }
}

/// The state of a receipt, in a digest.
pub open spec fn receipt_state(r: Option<ReceiptModel>) -> Seq<char> {
    match r {
        Some(ReceiptModel::Pending { .. }) => "pending"@,
        Some(ReceiptModel::Bound { state, .. }) => state,
        None => "none"@,
    }
}

/// The two fields of a receipt in a digest.
pub fn receipt_digest_fields<'a>(r: &'a ChannelReceipt) -> (out: (&'a str, &'a str))
    ensures
        out.0@ == receipt_artifact(Some(r@)),
        out.1@ == receipt_state(Some(r@)),
{
    match r {
        ChannelReceipt::Pending { artifact_digest } => (artifact_digest.as_str(), "pending"),
        ChannelReceipt::Bound { artifact_digest, staged_state_digest } => (
            artifact_digest.as_str(),
            staged_state_digest.as_str(),
        ),
    }
}

/// The two fields of an optional receipt in a digest.
pub fn optional_receipt_fields<'a>(r: &'a Option<ChannelReceipt>) -> (out: (&'a str, &'a str))
    ensures
        out.0@ == receipt_artifact(receipt_view(*r)),
        out.1@ == receipt_state(receipt_view(*r)),
{
    match r {
        Some(x) => receipt_digest_fields(x),
        None => ("none", "none"),
    }
}

/// A lexical staging assertion supplied by a later persistence adapter. It is
/// deliberately narrower than a generation manifest: delete and reset may
/// update only the exact lexical artifact they staged, never a model, vector,
/// rank or chunking contract.
#[derive(Debug, PartialEq, Eq)]
pub struct LexicalStagingReceipt {
    artifact_digest: String,
}

impl LexicalStagingReceipt {
    #[verifier::type_invariant]
    closed spec fn inv(self) -> bool {
        is_digest(self.artifact_digest@)
    }

    pub closed spec fn artifact(self) -> Seq<char> {
        self.artifact_digest@
    }

    pub fn new(artifact_digest: &str) -> (r: Result<Self, FreeSemanticError>)
        ensures
            match r {
                Ok(receipt) => is_digest(artifact_digest@) && receipt.artifact()
                    == artifact_digest@,
                Err(e) => !is_digest(artifact_digest@) && e == FreeSemanticError::InvalidManifest,
            },
    {
        if !is_sha256_digest(artifact_digest) {
            return Err(FreeSemanticError::InvalidManifest);
        }
        Ok(LexicalStagingReceipt { artifact_digest: artifact_digest.to_owned() })
    }

    pub fn pending_channel_receipt(&self) -> (r: ChannelReceipt)
        ensures
            r@ == (ReceiptModel::Pending { artifact: self.artifact() }),
            is_digest(self.artifact()),
    {
        proof {
            use_type_invariant(self);
        }
        ChannelReceipt::Pending { artifact_digest: self.artifact_digest.clone() }
    }
}

/// A manifest by its texts and numbers.
#[verifier::ext_equal]
pub struct ManifestModel {
    pub schema_version: u32,
    pub digest_algorithm: Seq<char>,
    pub vault_id: Seq<char>,
    pub generation: u64,
    pub model_descriptor_digest: Option<Seq<char>>,
    pub dimension: Option<usize>,
    pub chunk_format_version: u32,
    pub lexical_generation: u64,
    pub vector_generation: Option<u64>,
    pub rank_policy_version: u32,
    pub rank_policy_rrf_k: usize,
    pub rank_policy_digest: Seq<char>,
    pub normalization: Option<VectorNormalization>,
    pub semantic_availability: SemanticAvailability,
    pub lexical_receipt: ReceiptModel,
    pub vector_receipt: Option<ReceiptModel>,
    pub chunking_policy_digest: Option<Seq<char>>,
    pub chunk_map_digest: Option<Seq<char>>,
    pub note_set_digest: Option<Seq<char>>,
}

/// What one generation of a vault is made of.
#[derive(Debug, PartialEq, Eq)]
pub struct GenerationManifest {
    pub schema_version: u32,
    pub digest_algorithm: String,
    pub vault_id: String,
    pub generation: u64,
    /// The cohesive vector contract is absent until a candidate is selected
    /// and a vector generation is actually ready to publish.
    pub model_descriptor_digest: Option<String>,
    pub dimension: Option<usize>,
    pub chunk_format_version: u32,
    pub lexical_generation: u64,
    pub vector_generation: Option<u64>,
    pub rank_policy_version: u32,
    pub rank_policy_rrf_k: usize,
    pub rank_policy_digest: String,
    pub normalization: Option<VectorNormalization>,
    pub semantic_availability: SemanticAvailability,
    pub lexical_receipt: ChannelReceipt,
    pub vector_receipt: Option<ChannelReceipt>,
    /// Generated only when a staged projection is atomically published.
    pub chunking_policy_digest: Option<String>,
    /// Generated only when a staged catalog is atomically published.
    pub chunk_map_digest: Option<String>,
    /// Generated only when a staged catalog is atomically published.
    pub note_set_digest: Option<String>,
}

impl View for GenerationManifest {
    type V = ManifestModel;

    open spec fn view(&self) -> ManifestModel {
        ManifestModel {
            schema_version: self.schema_version,
            digest_algorithm: self.digest_algorithm@,
            vault_id: self.vault_id@,
            generation: self.generation,
            model_descriptor_digest: opt_text(self.model_descriptor_digest),
            dimension: self.dimension,
            chunk_format_version: self.chunk_format_version,
            lexical_generation: self.lexical_generation,
            vector_generation: self.vector_generation,
            rank_policy_version: self.rank_policy_version,
            rank_policy_rrf_k: self.rank_policy_rrf_k,
            rank_policy_digest: self.rank_policy_digest@,
            normalization: self.normalization,
            semantic_availability: self.semantic_availability,
            lexical_receipt: self.lexical_receipt@,
            vector_receipt: receipt_view(self.vector_receipt),
            chunking_policy_digest: opt_text(self.chunking_policy_digest),
            chunk_map_digest: opt_text(self.chunk_map_digest),
            note_set_digest: opt_text(self.note_set_digest),
        }
    }
}

impl Clone for GenerationManifest {
    fn clone(&self) -> (r: Self)
        ensures
            r@ == self@,
    {
        GenerationManifest {
            schema_version: self.schema_version,
            digest_algorithm: self.digest_algorithm.clone(),
            vault_id: self.vault_id.clone(),
            generation: self.generation,
            model_descriptor_digest: clone_opt_text(&self.model_descriptor_digest),
            dimension: self.dimension,
            chunk_format_version: self.chunk_format_version,
            lexical_generation: self.lexical_generation,
            vector_generation: self.vector_generation,
            rank_policy_version: self.rank_policy_version,
            rank_policy_rrf_k: self.rank_policy_rrf_k,
            rank_policy_digest: self.rank_policy_digest.clone(),
            normalization: self.normalization,
            semantic_availability: self.semantic_availability,
            lexical_receipt: self.lexical_receipt.clone(),
            vector_receipt: clone_receipt(&self.vector_receipt),
            chunking_policy_digest: clone_opt_text(&self.chunking_policy_digest),
            chunk_map_digest: clone_opt_text(&self.chunk_map_digest),
            note_set_digest: clone_opt_text(&self.note_set_digest),
        }
    }
}

/// An optional text in a digest.
pub open spec fn or_none(s: Option<Seq<char>>) -> Seq<char> {
    match s {
        Some(t) => t,
        None => "none"@,
    }
}

pub open spec fn dimension_text(d: Option<usize>) -> Seq<char> {
    match d {
        Some(n) => decimal(n as nat),
        None => "none"@,
    }
}

pub open spec fn generation_text(g: Option<u64>) -> Seq<char> {
    match g {
        Some(n) => decimal(n as nat),
        None => "none"@,
    }
}

fn text_or_none<'a>(s: &'a Option<String>) -> (r: &'a str)
    ensures
        r@ == or_none(opt_text(*s)),
{
    match s {
        Some(t) => t.as_str(),
        None => "none",
    }
}

fn dimension_string(d: Option<usize>) -> (r: String)
    ensures
        r@ == dimension_text(d),
{
    match d {
        Some(n) => decimal_string(n as u64),
        None => "none".to_owned(),
    }
}

fn generation_string(g: Option<u64>) -> (r: String)
    ensures
        r@ == generation_text(g),
{
    match g {
        Some(n) => decimal_string(n),
        None => "none".to_owned(),
    }
}

/// The digest of a manifest: every field of it counts.
pub open spec fn manifest_digest(m: ManifestModel) -> Seq<char> {
    digest(
        "semantic-generation-manifest-v1"@,
        seq![
            decimal(m.schema_version as nat),
            m.digest_algorithm,
            m.vault_id,
            decimal(m.generation as nat),
            or_none(m.model_descriptor_digest),
            dimension_text(m.dimension),
            decimal(m.chunk_format_version as nat),
            decimal(m.lexical_generation as nat),
            generation_text(m.vector_generation),
            decimal(m.rank_policy_version as nat),
            decimal(m.rank_policy_rrf_k as nat),
            m.rank_policy_digest,
            normalization_tag(m.normalization),
            availability_tag(m.semantic_availability),
            receipt_artifact(Some(m.lexical_receipt)),
            receipt_state(Some(m.lexical_receipt)),
            receipt_artifact(m.vector_receipt),
            receipt_state(m.vector_receipt),
            or_none(m.chunking_policy_digest),
            or_none(m.chunk_map_digest),
            or_none(m.note_set_digest),
        ],
    )
}

/// The digest that binds the artifact of a channel to the staged state.
pub open spec fn staged_state_digest(
    channel: Seq<char>,
    artifact: Seq<char>,
    m: ManifestModel,
) -> Seq<char> {
    digest(
        "staged-search-channel-receipt-v1"@,
        seq![
            channel,
            artifact,
            m.vault_id,
            decimal(m.generation as nat),
            or_none(m.model_descriptor_digest),
            dimension_text(m.dimension),
            decimal(m.chunk_format_version as nat),
            decimal(m.lexical_generation as nat),
            generation_text(m.vector_generation),
            decimal(m.rank_policy_version as nat),
            decimal(m.rank_policy_rrf_k as nat),
            m.rank_policy_digest,
            normalization_tag(m.normalization),
            availability_tag(m.semantic_availability),
            or_none(m.chunking_policy_digest),
            or_none(m.chunk_map_digest),
            or_none(m.note_set_digest),
        ],
    )
}

pub open spec fn is_some_digest(s: Option<Seq<char>>) -> bool {
    s matches Some(t) && is_digest(t)
}

/// Whether the staged state is complete: its three digests are there.
pub open spec fn has_staged_state(m: ManifestModel) -> bool {
    &&& is_some_digest(m.chunking_policy_digest)
    &&& is_some_digest(m.chunk_map_digest)
    &&& is_some_digest(m.note_set_digest)
}

/// What every manifest must have, before and after it is published.
pub open spec fn base_ok(m: ManifestModel) -> bool {
    &&& m.schema_version == MANIFEST_SCHEMA_VERSION
    &&& m.digest_algorithm == "sha256-v1"@
    &&& m.chunk_format_version == CHUNK_FORMAT_VERSION
    &&& m.generation != 0
    &&& rank_policy_ok(m.rank_policy_version, m.rank_policy_rrf_k)
    &&& m.rank_policy_digest == rank_policy_digest(m.rank_policy_version, m.rank_policy_rrf_k)
}

pub open spec fn is_pending(r: ReceiptModel) -> bool {
    r matches ReceiptModel::Pending { artifact } && is_digest(artifact)
}

/// Whether a receipt is bound to the staged state of a manifest.
pub open spec fn is_bound(r: ReceiptModel, channel: Seq<char>, m: ManifestModel) -> bool {
    &&& r matches ReceiptModel::Bound { artifact, state } && is_digest(artifact) && state
        == staged_state_digest(channel, artifact, m)
    &&& has_staged_state(m)
}

/// Whether the vector contract is as a whole there, or as a whole absent; the
/// receipt is judged apart.
pub open spec fn vector_contract_ok(m: ManifestModel) -> bool {
    if m.semantic_availability == SemanticAvailability::Available {
        &&& is_some_digest(m.model_descriptor_digest)
        &&& m.dimension matches Some(d) && 0 < d <= MAX_VECTOR_DIMENSION
        &&& m.normalization is Some
        &&& m.vector_generation == Some(m.generation)
        &&& m.vector_receipt is Some
    } else {
        &&& m.model_descriptor_digest is None
        &&& m.dimension is None
        &&& m.normalization is None
        &&& m.vector_generation is None
        &&& m.vector_receipt is None
    }
}

/// A manifest that can be published: its receipts are pending and it claims
/// no staged state yet.
pub open spec fn shape_ok(m: ManifestModel) -> bool {
    &&& base_ok(m)
    &&& m.lexical_generation == m.generation
    &&& m.chunking_policy_digest is None
    &&& m.chunk_map_digest is None
    &&& m.note_set_digest is None
    &&& is_pending(m.lexical_receipt)
    &&& vector_contract_ok(m)
    &&& m.vector_receipt matches Some(r) ==> is_pending(r)
}

/// A published manifest: its receipts are bound to its staged state.
pub open spec fn published_ok(m: ManifestModel) -> bool {
    &&& base_ok(m)
    &&& m.lexical_generation == m.generation
    &&& has_staged_state(m)
    &&& is_bound(m.lexical_receipt, "lexical"@, m)
    &&& vector_contract_ok(m)
    &&& m.vector_receipt matches Some(r) ==> is_bound(r, "vector"@, m)
}

/// A manifest with the digests of a staged state and its receipts as before.
pub open spec fn staged(
    m: ManifestModel,
    policy_digest: Seq<char>,
    store: StoreModel,
) -> ManifestModel {
    ManifestModel {
        chunking_policy_digest: Some(policy_digest),
        chunk_map_digest: Some(chunk_map_digest(store.chunks)),
        note_set_digest: Some(note_set_digest(store.notes)),
        ..m
    }
}

pub open spec fn bound_receipt(
    r: ReceiptModel,
    channel: Seq<char>,
    m: ManifestModel,
) -> ReceiptModel {
    ReceiptModel::Bound {
        artifact: receipt_artifact(Some(r)),
        state: staged_state_digest(channel, receipt_artifact(Some(r)), m),
    }
}

/// The manifest that is published for a staged state: both receipts are bound
/// to it.
pub open spec fn published(
    m: ManifestModel,
    policy_digest: Seq<char>,
    store: StoreModel,
) -> ManifestModel {
    let s = staged(m, policy_digest, store);
    ManifestModel {
        lexical_receipt: bound_receipt(m.lexical_receipt, "lexical"@, s),
        vector_receipt: match m.vector_receipt {
            Some(r) => Some(bound_receipt(r, "vector"@, s)),
            None => None,
        },
        ..s
    }
}

/// Binding the receipts does not change the state that they are bound to.
proof fn lemma_staged_state_ignores_receipts(
    channel: Seq<char>,
    artifact: Seq<char>,
    m: ManifestModel,
    lexical: ReceiptModel,
    vector: Option<ReceiptModel>,
)
    ensures
        staged_state_digest(channel, artifact, m) == staged_state_digest(
            channel,
            artifact,
            ManifestModel { lexical_receipt: lexical, vector_receipt: vector, ..m },
        ),
{
}

/// A manifest that can be published is, once its staged state is bound, a
/// published one.
pub proof fn law_staged_manifest_is_published(
    m: ManifestModel,
    policy_digest: Seq<char>,
    store: StoreModel,
)
    requires
        shape_ok(m),
        has_staged_state(staged(m, policy_digest, store)),
    ensures
        published_ok(published(m, policy_digest, store)),
{
    let s = staged(m, policy_digest, store);
    let p = published(m, policy_digest, store);
    let a = receipt_artifact(Some(m.lexical_receipt));
    lemma_staged_state_ignores_receipts("lexical"@, a, s, p.lexical_receipt, p.vector_receipt);
    if let Some(r) = m.vector_receipt {
        lemma_staged_state_ignores_receipts(
            "vector"@,
            receipt_artifact(Some(r)),
            s,
            p.lexical_receipt,
            p.vector_receipt,
        );
    }
}

/// The manifest of a generation that is yet to be published.
pub open spec fn new_manifest(
    vault_id: Seq<char>,
    generation: u64,
    model_descriptor_digest: Option<Seq<char>>,
    dimension: Option<usize>,
    chunk_format_version: u32,
    lexical_generation: u64,
    vector_generation: Option<u64>,
    rank_policy: RankFusionPolicy,
    normalization: Option<VectorNormalization>,
    semantic_availability: SemanticAvailability,
    lexical_artifact: Seq<char>,
    vector_artifact: Option<Seq<char>>,
) -> ManifestModel {
    ManifestModel {
        schema_version: MANIFEST_SCHEMA_VERSION,
        digest_algorithm: "sha256-v1"@,
        vault_id,
        generation,
        model_descriptor_digest,
        dimension,
        chunk_format_version,
        lexical_generation,
        vector_generation,
        rank_policy_version: rank_policy.version,
        rank_policy_rrf_k: rank_policy.rrf_k,
        rank_policy_digest: rank_policy_digest(rank_policy.version, rank_policy.rrf_k),
        normalization,
        semantic_availability,
        lexical_receipt: ReceiptModel::Pending { artifact: lexical_artifact },
        vector_receipt: match vector_artifact {
            Some(artifact) => Some(ReceiptModel::Pending { artifact }),
            None => None,
        },
        chunking_policy_digest: None,
        chunk_map_digest: None,
        note_set_digest: None,
    }
}

fn is_some_sha256_digest(s: &Option<String>) -> (r: bool)
    ensures
        r == is_some_digest(opt_text(*s)),
{
    match s {
        Some(t) => is_sha256_digest(t.as_str()),
        None => false,
    }
}

fn is_pending_receipt(r: &ChannelReceipt) -> (out: bool)
    ensures
        out == is_pending(r@),
{
    match r {
        ChannelReceipt::Pending { artifact_digest } => is_sha256_digest(artifact_digest.as_str()),
        ChannelReceipt::Bound { .. } => false,
    }
}

impl GenerationManifest {
    pub fn new(
        vault_id: &str,
        generation: u64,
        model_descriptor_digest: Option<String>,
        dimension: Option<usize>,
        chunk_format_version: u32,
        lexical_generation: u64,
        vector_generation: Option<u64>,
        rank_policy: RankFusionPolicy,
        normalization: Option<VectorNormalization>,
        semantic_availability: SemanticAvailability,
        lexical_artifact_digest: &str,
        vector_artifact_digest: Option<String>,
    ) -> (r: Result<Self, FreeSemanticError>)
        ensures
            ({
                let m = new_manifest(
                    vault_id@,
                    generation,
                    opt_text(model_descriptor_digest),
                    dimension,
                    chunk_format_version,
                    lexical_generation,
                    vector_generation,
                    rank_policy,
                    normalization,
                    semantic_availability,
                    lexical_artifact_digest@,
                    opt_text(vector_artifact_digest),
                );
                match r {
                    Ok(manifest) => is_identity(vault_id@) && shape_ok(m) && manifest@ == m,
                    Err(e) => if !is_identity(vault_id@) {
                        e == identity_error(vault_id@, IdentityKind::Vault)
                    } else {
                        !shape_ok(m) && e == FreeSemanticError::InvalidManifest
                    },
                }
            }),
    {
        let vault: String = match canonical_identity(vault_id.to_owned(), IdentityKind::Vault) {
            Ok(v) => v,
            Err(e) => {
                return Err(e);
            },
        };
        let vector_receipt: Option<ChannelReceipt> = match vector_artifact_digest {
            Some(artifact_digest) => Some(ChannelReceipt::Pending { artifact_digest }),
            None => None,
        };
        let manifest: GenerationManifest = GenerationManifest {
            schema_version: MANIFEST_SCHEMA_VERSION,
            digest_algorithm: "sha256-v1".to_owned(),
            vault_id: vault,
            generation,
            model_descriptor_digest,
            dimension,
            chunk_format_version,
            lexical_generation,
            vector_generation,
            rank_policy_version: rank_policy.version,
            rank_policy_rrf_k: rank_policy.rrf_k,
            rank_policy_digest: rank_policy.digest(),
            normalization,
            semantic_availability,
            lexical_receipt: ChannelReceipt::Pending {
                artifact_digest: lexical_artifact_digest.to_owned(),
            },
            vector_receipt,
            chunking_policy_digest: None,
            chunk_map_digest: None,
            note_set_digest: None,
        };
        match manifest.validate_shape() {
            Ok(()) => Ok(manifest),
            Err(e) => Err(e),
        }
    }

    pub fn digest(&self) -> (r: String)
        ensures
            r@ == manifest_digest(self@),
            is_digest(r@),
    {
        let (lexical_artifact, lexical_state) = receipt_digest_fields(&self.lexical_receipt);
        let (vector_artifact, vector_state) = optional_receipt_fields(&self.vector_receipt);
        let schema: String = decimal_string(self.schema_version as u64);
        let generation: String = decimal_string(self.generation);
        let dimension: String = dimension_string(self.dimension);
        let format: String = decimal_string(self.chunk_format_version as u64);
        let lexical_generation: String = decimal_string(self.lexical_generation);
        let vector_generation: String = generation_string(self.vector_generation);
        let rank_version: String = decimal_string(self.rank_policy_version as u64);
        let rrf_k: String = decimal_string(self.rank_policy_rrf_k as u64);
        let fields: [&str; 21] = [
            schema.as_str(),
            self.digest_algorithm.as_str(),
            self.vault_id.as_str(),
            generation.as_str(),
            text_or_none(&self.model_descriptor_digest),
            dimension.as_str(),
            format.as_str(),
            lexical_generation.as_str(),
            vector_generation.as_str(),
            rank_version.as_str(),
            rrf_k.as_str(),
            self.rank_policy_digest.as_str(),
            normalization_text(self.normalization),
            self.semantic_availability.tag(),
            lexical_artifact,
            lexical_state,
            vector_artifact,
            vector_state,
            text_or_none(&self.chunking_policy_digest),
            text_or_none(&self.chunk_map_digest),
            text_or_none(&self.note_set_digest),
        ];
        let r: String = sha256_digest("semantic-generation-manifest-v1", &fields);
        let ghost m = self@;
        assert(texts(fields@) =~= seq![
            decimal(m.schema_version as nat),
            m.digest_algorithm,
            m.vault_id,
            decimal(m.generation as nat),
            or_none(m.model_descriptor_digest),
            dimension_text(m.dimension),
            decimal(m.chunk_format_version as nat),
            decimal(m.lexical_generation as nat),
            generation_text(m.vector_generation),
            decimal(m.rank_policy_version as nat),
            decimal(m.rank_policy_rrf_k as nat),
            m.rank_policy_digest,
            normalization_tag(m.normalization),
            availability_tag(m.semantic_availability),
            receipt_artifact(Some(m.lexical_receipt)),
            receipt_state(Some(m.lexical_receipt)),
            receipt_artifact(m.vector_receipt),
            receipt_state(m.vector_receipt),
            or_none(m.chunking_policy_digest),
            or_none(m.chunk_map_digest),
            or_none(m.note_set_digest),
        ]);
        r
    }

    fn validate_base(&self) -> (r: Result<(), FreeSemanticError>)
        ensures
            r is Ok <==> base_ok(self@),
            r matches Err(e) ==> e == FreeSemanticError::InvalidManifest,
    {
        if self.schema_version != MANIFEST_SCHEMA_VERSION || !text_eq(
            self.digest_algorithm.as_str(),
            "sha256-v1",
        ) || self.chunk_format_version != CHUNK_FORMAT_VERSION || self.generation == 0 {
            return Err(FreeSemanticError::InvalidManifest);
        }
        match RankFusionPolicy::new(self.rank_policy_version, self.rank_policy_rrf_k) {
            Ok(policy) => {
                let expected: String = policy.digest();
                if expected == self.rank_policy_digest {
                    Ok(())
                } else {
                    Err(FreeSemanticError::InvalidManifest)
                }
            },
            Err(_) => Err(FreeSemanticError::InvalidManifest),
        }
    }

    /// Whether the vector contract is as a whole there or as a whole absent.
    fn has_whole_vector_contract(&self) -> (r: bool)
        ensures
            r == vector_contract_ok(self@),
    {
        if self.semantic_availability.is_available() {
            let dimension_ok: bool = match self.dimension {
                Some(d) => d > 0 && d <= MAX_VECTOR_DIMENSION,
                None => false,
            };
            let generation_ok: bool = match self.vector_generation {
                Some(g) => g == self.generation,
                None => false,
            };
            is_some_sha256_digest(&self.model_descriptor_digest) && dimension_ok
                && self.normalization.is_some() && generation_ok && self.vector_receipt.is_some()
        } else {
            self.model_descriptor_digest.is_none() && self.dimension.is_none()
                && self.normalization.is_none() && self.vector_generation.is_none()
                && self.vector_receipt.is_none()
        }
    }

    /// Whether the manifest can be published.
    pub fn validate_shape(&self) -> (r: Result<(), FreeSemanticError>)
        ensures
            r is Ok <==> shape_ok(self@),
            r matches Err(e) ==> e == FreeSemanticError::InvalidManifest,
    {
        match self.validate_base() {
            Ok(()) => {},
            Err(e) => {
                return Err(e);
            },
        }
        let vector_pending: bool = match &self.vector_receipt {
            Some(receipt) => is_pending_receipt(receipt),
            None => true,
        };
        if self.lexical_generation != self.generation || self.chunking_policy_digest.is_some()
            || self.chunk_map_digest.is_some() || self.note_set_digest.is_some()
            || !is_pending_receipt(&self.lexical_receipt) || !self.has_whole_vector_contract()
            || !vector_pending {
            return Err(FreeSemanticError::InvalidManifest);
        }
        Ok(())
    }

    fn has_staged_digests(&self) -> (r: bool)
        ensures
            r == has_staged_state(self@),
    {
        is_some_sha256_digest(&self.chunking_policy_digest) && is_some_sha256_digest(
            &self.chunk_map_digest,
        ) && is_some_sha256_digest(&self.note_set_digest)
    }

    /// The digest that binds an artifact of a channel to the staged state.
    pub fn staged_channel_state_digest(&self, channel: &str, artifact_digest: &str) -> (r: Result<
        String,
        FreeSemanticError,
    >)
        ensures
            match r {
                Ok(d) => has_staged_state(self@) && is_digest(d@) && d@ == staged_state_digest(
                    channel@,
                    artifact_digest@,
                    self@,
                ),
                Err(e) => !has_staged_state(self@) && e == FreeSemanticError::InvalidManifest,
            },
    {
        if !self.has_staged_digests() {
            return Err(FreeSemanticError::InvalidManifest);
        }
        let generation: String = decimal_string(self.generation);
        let dimension: String = dimension_string(self.dimension);
        let format: String = decimal_string(self.chunk_format_version as u64);
        let lexical_generation: String = decimal_string(self.lexical_generation);
        let vector_generation: String = generation_string(self.vector_generation);
        let rank_version: String = decimal_string(self.rank_policy_version as u64);
        let rrf_k: String = decimal_string(self.rank_policy_rrf_k as u64);
        let fields: [&str; 17] = [
            channel,
            artifact_digest,
            self.vault_id.as_str(),
            generation.as_str(),
            text_or_none(&self.model_descriptor_digest),
            dimension.as_str(),
            format.as_str(),
            lexical_generation.as_str(),
            vector_generation.as_str(),
            rank_version.as_str(),
            rrf_k.as_str(),
            self.rank_policy_digest.as_str(),
            normalization_text(self.normalization),
            self.semantic_availability.tag(),
            text_or_none(&self.chunking_policy_digest),
            text_or_none(&self.chunk_map_digest),
            text_or_none(&self.note_set_digest),
        ];
        let r: String = sha256_digest("staged-search-channel-receipt-v1", &fields);
        let ghost m = self@;
        assert(texts(fields@) =~= seq![
            channel@,
            artifact_digest@,
            m.vault_id,
            decimal(m.generation as nat),
            or_none(m.model_descriptor_digest),
            dimension_text(m.dimension),
            decimal(m.chunk_format_version as nat),
            decimal(m.lexical_generation as nat),
            generation_text(m.vector_generation),
            decimal(m.rank_policy_version as nat),
            decimal(m.rank_policy_rrf_k as nat),
            m.rank_policy_digest,
            normalization_tag(m.normalization),
            availability_tag(m.semantic_availability),
            or_none(m.chunking_policy_digest),
            or_none(m.chunk_map_digest),
            or_none(m.note_set_digest),
        ]);
        Ok(r)
    }

    fn is_bound_to_staged_state(&self, receipt: &ChannelReceipt, channel: &str) -> (r: bool)
        ensures
            r == is_bound(receipt@, channel@, self@),
    {
        match receipt {
            ChannelReceipt::Pending { .. } => false,
            ChannelReceipt::Bound { artifact_digest, staged_state_digest } => {
                if !is_sha256_digest(artifact_digest.as_str()) {
                    return false;
                }
                match self.staged_channel_state_digest(channel, artifact_digest.as_str()) {
                    Ok(expected) => expected == *staged_state_digest,
                    Err(_) => false,
                }
            },
        }
    }

    /// Whether the manifest is a published one.
    pub fn validate_published_state(&self) -> (r: Result<(), FreeSemanticError>)
        ensures
            r is Ok <==> published_ok(self@),
            r matches Err(e) ==> e == FreeSemanticError::InvalidManifest,
    {
        match self.validate_base() {
            Ok(()) => {},
            Err(e) => {
                return Err(e);
            },
        }
        let vector_bound: bool = match &self.vector_receipt {
            Some(receipt) => self.is_bound_to_staged_state(receipt, "vector"),
            None => true,
        };
        if self.lexical_generation != self.generation || !self.has_staged_digests()
            || !self.is_bound_to_staged_state(&self.lexical_receipt, "lexical")
            || !self.has_whole_vector_contract() || !vector_bound {
            return Err(FreeSemanticError::InvalidManifest);
        }
        Ok(())
    }

    fn bind_staged_receipt(&self, receipt: &ChannelReceipt, channel: &str) -> (r: Result<
        ChannelReceipt,
        FreeSemanticError,
    >)
        ensures
            match r {
                Ok(b) => is_pending(receipt@) && has_staged_state(self@) && b@ == bound_receipt(
                    receipt@,
                    channel@,
                    self@,
                ),
                Err(e) => !(is_pending(receipt@) && has_staged_state(self@)) && e
                    == FreeSemanticError::InvalidManifest,
            },
    {
        match receipt {
            ChannelReceipt::Bound { .. } => Err(FreeSemanticError::InvalidManifest),
            ChannelReceipt::Pending { artifact_digest } => {
                if !is_sha256_digest(artifact_digest.as_str()) {
                    return Err(FreeSemanticError::InvalidManifest);
                }
                match self.staged_channel_state_digest(channel, artifact_digest.as_str()) {
                    Ok(state) => Ok(
                        ChannelReceipt::Bound {
                            artifact_digest: artifact_digest.clone(),
                            staged_state_digest: state,
                        },
                    ),
                    Err(e) => Err(e),
                }
            },
        }
    }

    /// Binds a manifest that can be published to a staged state.
    pub fn with_staged_state(self, chunking_policy_digest: String, store: &ChunkStore) -> (r: Result<
        Self,
        FreeSemanticError,
    >)
        requires
            shape_ok(self@),
        ensures
            match r {
                Ok(m) => is_digest(chunking_policy_digest@) && m@ == published(
                    self@,
                    chunking_policy_digest@,
                    store@,
                ) && published_ok(m@),
                Err(e) => !is_digest(chunking_policy_digest@) && e
                    == FreeSemanticError::InvalidManifest,
            },
    {
        let mut m: GenerationManifest = self;
        let ghost start = m@;
        let ghost policy = chunking_policy_digest@;
        m.chunking_policy_digest = Some(chunking_policy_digest);
        m.chunk_map_digest = Some(store.chunk_map_digest());
        m.note_set_digest = Some(store.note_set_digest());
        let ghost s = staged(start, policy, store@);
        assert(m@ =~= s);
        let lexical: ChannelReceipt = match m.bind_staged_receipt(&m.lexical_receipt, "lexical") {
            Ok(b) => b,
            Err(e) => {
                return Err(e);
            },
        };
        let vector: Option<ChannelReceipt> = match &m.vector_receipt {
            Some(receipt) => match m.bind_staged_receipt(receipt, "vector") {
                Ok(b) => Some(b),
                Err(e) => {
                    return Err(e);
                },
            },
            None => None,
        };
        m.lexical_receipt = lexical;
        m.vector_receipt = vector;
        proof {
            law_staged_manifest_is_published(start, policy, store@);
            assert(m@ =~= published(start, policy, store@));
        }
        Ok(m)
    }
}

} // verus!
