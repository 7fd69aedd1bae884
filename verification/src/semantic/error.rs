//! The ways in which a request to the semantic catalog is refused.

use vstd::prelude::*;

use crate::text::{concat2, decimal, decimal_string};

verus! {

#[derive(Clone, Copy, Debug, PartialEq, Eq, Structural)]
pub enum FreeSemanticError {
    EmptyVaultID,
    EmptyNoteID,
    InvalidVaultID,
    InvalidNoteID,
    NoteTooLarge { limit: usize },
    InvalidChunkPolicy,
    ChunkExceedsPolicy { limit: usize },
    InvalidBodyRange,
    ChunkingPolicyMismatch,
    InvalidProjection,
    InvalidManifest,
    ManifestMismatch,
    MissingPublishedReceipt,
    CancelledPublication,
    StalePublication { expected: u64, actual: u64 },
    GenerationOverflow,
    ChunkOccurrenceOverflow,
    VaultMismatch,
    InvalidVector,
    TooManyVectors { limit: usize },
    InvalidChannelHit,
    TooManyChannelHits { limit: usize },
    DuplicateChannelHit,
    DuplicateChannelRank,
    InvalidChannelBatch,
    InvalidRequest,
    InvalidRankPolicy,
}

/// The message of an error, without the numbers that it carries.
pub open spec fn error_label(e: FreeSemanticError) -> Seq<char> {
    match e {
        FreeSemanticError::EmptyVaultID => "vault identifier was empty"@,
        FreeSemanticError::EmptyNoteID => "note identifier was empty"@,
        FreeSemanticError::InvalidVaultID => "vault identifier was malformed or non-canonical"@,
        FreeSemanticError::InvalidNoteID => "note identifier was malformed or non-canonical"@,
        FreeSemanticError::NoteTooLarge { .. } => "note exceeds bounded byte limit "@,
        FreeSemanticError::InvalidChunkPolicy => "chunk policy exceeds the Free search bounds"@,
        FreeSemanticError::ChunkExceedsPolicy { .. } => "chunk exceeds bounded byte limit "@,
        FreeSemanticError::InvalidBodyRange => "chunk body range was invalid"@,
        FreeSemanticError::ChunkingPolicyMismatch =>
            "incremental publication changed the catalog-wide chunking policy"@,
        FreeSemanticError::InvalidProjection => "projection failed invariant validation"@,
        FreeSemanticError::InvalidManifest => "generation manifest failed invariant validation"@,
        FreeSemanticError::ManifestMismatch =>
            "generation manifest did not match the requested publication"@,
        FreeSemanticError::MissingPublishedReceipt =>
            "a mutation requires the prior published generation receipt"@,
        FreeSemanticError::CancelledPublication =>
            "publication was cancelled before it could publish"@,
        FreeSemanticError::StalePublication { .. } =>
            "publication generation was stale: expected "@,
        FreeSemanticError::GenerationOverflow =>
            "publication generation overflow requires a bounded rebuild"@,
        FreeSemanticError::ChunkOccurrenceOverflow =>
            "chunk occurrence overflow requires a bounded rebuild"@,
        FreeSemanticError::VaultMismatch => "vault identity did not match the current catalog"@,
        FreeSemanticError::InvalidVector =>
            "vector was empty, non-finite, zero-norm, over-bound, or dimension-mismatched"@,
        FreeSemanticError::TooManyVectors { .. } => "vector collection exceeds bounded count "@,
        FreeSemanticError::InvalidChannelHit =>
            "channel hit was non-finite, rankless, or lacked a chunk identity"@,
        FreeSemanticError::TooManyChannelHits { .. } =>
            "channel hit collection exceeds bounded count "@,
        FreeSemanticError::DuplicateChannelHit => "channel included a duplicate chunk identity"@,
        FreeSemanticError::DuplicateChannelRank => "channel included a duplicate rank"@,
        FreeSemanticError::InvalidChannelBatch =>
            "channel batch did not bind one bounded request and published receipt"@,
        FreeSemanticError::InvalidRequest =>
            "request exceeded the bounded note-search contract"@,
        FreeSemanticError::InvalidRankPolicy => "rank fusion policy was invalid"@,
    }
}

/// The numbers that follow the label.
pub open spec fn error_detail(e: FreeSemanticError) -> Seq<char> {
    match e {
        FreeSemanticError::NoteTooLarge { limit } => decimal(limit as nat),
        FreeSemanticError::ChunkExceedsPolicy { limit } => decimal(limit as nat),
        FreeSemanticError::StalePublication { expected, actual } => decimal(expected as nat)
            + ", actual "@ + decimal(actual as nat),
        FreeSemanticError::TooManyVectors { limit } => decimal(limit as nat),
        FreeSemanticError::TooManyChannelHits { limit } => decimal(limit as nat),
        _ => Seq::empty(),
    }
}

impl FreeSemanticError {
    fn label(self) -> (r: &'static str)
        ensures
            r@ == error_label(self),
    {
        match self {
            FreeSemanticError::EmptyVaultID => "vault identifier was empty",
            FreeSemanticError::EmptyNoteID => "note identifier was empty",
            FreeSemanticError::InvalidVaultID => "vault identifier was malformed or non-canonical",
            FreeSemanticError::InvalidNoteID => "note identifier was malformed or non-canonical",
            FreeSemanticError::NoteTooLarge { .. } => "note exceeds bounded byte limit ",
            FreeSemanticError::InvalidChunkPolicy => "chunk policy exceeds the Free search bounds",
            FreeSemanticError::ChunkExceedsPolicy { .. } => "chunk exceeds bounded byte limit ",
            FreeSemanticError::InvalidBodyRange => "chunk body range was invalid",
            FreeSemanticError::ChunkingPolicyMismatch =>
                "incremental publication changed the catalog-wide chunking policy",
            FreeSemanticError::InvalidProjection => "projection failed invariant validation",
            FreeSemanticError::InvalidManifest => "generation manifest failed invariant validation",
            FreeSemanticError::ManifestMismatch =>
                "generation manifest did not match the requested publication",
            FreeSemanticError::MissingPublishedReceipt =>
                "a mutation requires the prior published generation receipt",
            FreeSemanticError::CancelledPublication =>
                "publication was cancelled before it could publish",
            FreeSemanticError::StalePublication { .. } =>
                "publication generation was stale: expected ",
            FreeSemanticError::GenerationOverflow =>
                "publication generation overflow requires a bounded rebuild",
            FreeSemanticError::ChunkOccurrenceOverflow =>
                "chunk occurrence overflow requires a bounded rebuild",
            FreeSemanticError::VaultMismatch => "vault identity did not match the current catalog",
            FreeSemanticError::InvalidVector =>
                "vector was empty, non-finite, zero-norm, over-bound, or dimension-mismatched",
            FreeSemanticError::TooManyVectors { .. } => "vector collection exceeds bounded count ",
            FreeSemanticError::InvalidChannelHit =>
                "channel hit was non-finite, rankless, or lacked a chunk identity",
            FreeSemanticError::TooManyChannelHits { .. } =>
                "channel hit collection exceeds bounded count ",
            FreeSemanticError::DuplicateChannelHit => "channel included a duplicate chunk identity",
            FreeSemanticError::DuplicateChannelRank => "channel included a duplicate rank",
            FreeSemanticError::InvalidChannelBatch =>
                "channel batch did not bind one bounded request and published receipt",
            FreeSemanticError::InvalidRequest =>
                "request exceeded the bounded note-search contract",
            FreeSemanticError::InvalidRankPolicy => "rank fusion policy was invalid",
        }
    }

    /// What the error says to a reader.
    pub fn message(self) -> (r: String)
        ensures
            r@ == error_label(self) + error_detail(self),
    {
        let detail: String = match self {
            FreeSemanticError::NoteTooLarge { limit } => decimal_string(limit as u64),
            FreeSemanticError::ChunkExceedsPolicy { limit } => decimal_string(limit as u64),
            FreeSemanticError::StalePublication { expected, actual } => {
                let head: String = concat2(decimal_string(expected).as_str(), ", actual ");
                concat2(head.as_str(), decimal_string(actual).as_str())
            },
            FreeSemanticError::TooManyVectors { limit } => decimal_string(limit as u64),
            FreeSemanticError::TooManyChannelHits { limit } => decimal_string(limit as u64),
            _ => String::new(),
        };
        concat2(self.label(), detail.as_str())
    }
}

/// The kinds of errors, numbered in their order.
pub open spec fn kind(e: FreeSemanticError) -> int {
    match e {
        FreeSemanticError::EmptyVaultID => 0,
        FreeSemanticError::EmptyNoteID => 1,
        FreeSemanticError::InvalidVaultID => 2,
        FreeSemanticError::InvalidNoteID => 3,
        FreeSemanticError::NoteTooLarge { .. } => 4,
        FreeSemanticError::InvalidChunkPolicy => 5,
        FreeSemanticError::ChunkExceedsPolicy { .. } => 6,
        FreeSemanticError::InvalidBodyRange => 7,
        FreeSemanticError::ChunkingPolicyMismatch => 8,
        FreeSemanticError::InvalidProjection => 9,
        FreeSemanticError::InvalidManifest => 10,
        FreeSemanticError::ManifestMismatch => 11,
        FreeSemanticError::MissingPublishedReceipt => 12,
        FreeSemanticError::CancelledPublication => 13,
        FreeSemanticError::StalePublication { .. } => 14,
        FreeSemanticError::GenerationOverflow => 15,
        FreeSemanticError::ChunkOccurrenceOverflow => 16,
        FreeSemanticError::VaultMismatch => 17,
        FreeSemanticError::InvalidVector => 18,
        FreeSemanticError::TooManyVectors { .. } => 19,
        FreeSemanticError::InvalidChannelHit => 20,
        FreeSemanticError::TooManyChannelHits { .. } => 21,
        FreeSemanticError::DuplicateChannelHit => 22,
        FreeSemanticError::DuplicateChannelRank => 23,
        FreeSemanticError::InvalidChannelBatch => 24,
        FreeSemanticError::InvalidRequest => 25,
        FreeSemanticError::InvalidRankPolicy => 26,
    }
}

/// The length and the third character of a label.
spec fn mark(s: Seq<char>) -> (nat, char) {
    (s.len(), s[2])
}

proof fn lemma_label_mark(e: FreeSemanticError)
    ensures
        mark(error_label(e)) == match e {
            FreeSemanticError::EmptyVaultID => (26nat, 'u'),
            FreeSemanticError::EmptyNoteID => (25nat, 't'),
            FreeSemanticError::InvalidVaultID => (47nat, 'u'),
            FreeSemanticError::InvalidNoteID => (46nat, 't'),
            FreeSemanticError::NoteTooLarge { .. } => (32nat, 't'),
            FreeSemanticError::InvalidChunkPolicy => (43nat, 'u'),
            FreeSemanticError::ChunkExceedsPolicy { .. } => (33nat, 'u'),
            FreeSemanticError::InvalidBodyRange => (28nat, 'u'),
            FreeSemanticError::ChunkingPolicyMismatch => (64nat, 'c'),
            FreeSemanticError::InvalidProjection => (38nat, 'o'),
            FreeSemanticError::InvalidManifest => (47nat, 'n'),
            FreeSemanticError::ManifestMismatch => (59nat, 'n'),
            FreeSemanticError::MissingPublishedReceipt => (58nat, 'm'),
            FreeSemanticError::CancelledPublication => (49nat, 'b'),
            FreeSemanticError::StalePublication { .. } => (43nat, 'b'),
            FreeSemanticError::GenerationOverflow => (58nat, 'b'),
            FreeSemanticError::ChunkOccurrenceOverflow => (52nat, 'u'),
            FreeSemanticError::VaultMismatch => (48nat, 'u'),
            FreeSemanticError::InvalidVector => (76nat, 'c'),
            FreeSemanticError::TooManyVectors { .. } => (40nat, 'c'),
            FreeSemanticError::InvalidChannelHit => (64nat, 'a'),
            FreeSemanticError::TooManyChannelHits { .. } => (45nat, 'a'),
            FreeSemanticError::DuplicateChannelHit => (43nat, 'a'),
            FreeSemanticError::DuplicateChannelRank => (33nat, 'a'),
            FreeSemanticError::InvalidChannelBatch => (68nat, 'a'),
            FreeSemanticError::InvalidRequest => (49nat, 'q'),
            FreeSemanticError::InvalidRankPolicy => (30nat, 'n'),
        },
{
    match e {
        FreeSemanticError::EmptyVaultID => {
            reveal_strlit("vault identifier was empty");
        },
        FreeSemanticError::EmptyNoteID => {
            reveal_strlit("note identifier was empty");
        },
        FreeSemanticError::InvalidVaultID => {
            reveal_strlit("vault identifier was malformed or non-canonical");
        },
        FreeSemanticError::InvalidNoteID => {
            reveal_strlit("note identifier was malformed or non-canonical");
        },
        FreeSemanticError::NoteTooLarge { .. } => {
            reveal_strlit("note exceeds bounded byte limit ");
        },
        FreeSemanticError::InvalidChunkPolicy => {
            reveal_strlit("chunk policy exceeds the Free search bounds");
        },
        FreeSemanticError::ChunkExceedsPolicy { .. } => {
            reveal_strlit("chunk exceeds bounded byte limit ");
        },
        FreeSemanticError::InvalidBodyRange => {
            reveal_strlit("chunk body range was invalid");
        },
        FreeSemanticError::ChunkingPolicyMismatch => {
            reveal_strlit("incremental publication changed the catalog-wide chunking policy");
        },
        FreeSemanticError::InvalidProjection => {
            reveal_strlit("projection failed invariant validation");
        },
        FreeSemanticError::InvalidManifest => {
            reveal_strlit("generation manifest failed invariant validation");
        },
        FreeSemanticError::ManifestMismatch => {
            reveal_strlit("generation manifest did not match the requested publication");
        },
        FreeSemanticError::MissingPublishedReceipt => {
            reveal_strlit("a mutation requires the prior published generation receipt");
        },
        FreeSemanticError::CancelledPublication => {
            reveal_strlit("publication was cancelled before it could publish");
        },
        FreeSemanticError::StalePublication { .. } => {
            reveal_strlit("publication generation was stale: expected ");
        },
        FreeSemanticError::GenerationOverflow => {
            reveal_strlit("publication generation overflow requires a bounded rebuild");
        },
        FreeSemanticError::ChunkOccurrenceOverflow => {
            reveal_strlit("chunk occurrence overflow requires a bounded rebuild");
        },
        FreeSemanticError::VaultMismatch => {
            reveal_strlit("vault identity did not match the current catalog");
        },
        FreeSemanticError::InvalidVector => {
            reveal_strlit("vector was empty, non-finite, zero-norm, over-bound, or dimension-mismatched");
        },
        FreeSemanticError::TooManyVectors { .. } => {
            reveal_strlit("vector collection exceeds bounded count ");
        },
        FreeSemanticError::InvalidChannelHit => {
            reveal_strlit("channel hit was non-finite, rankless, or lacked a chunk identity");
        },
        FreeSemanticError::TooManyChannelHits { .. } => {
            reveal_strlit("channel hit collection exceeds bounded count ");
        },
        FreeSemanticError::DuplicateChannelHit => {
            reveal_strlit("channel included a duplicate chunk identity");
        },
        FreeSemanticError::DuplicateChannelRank => {
            reveal_strlit("channel included a duplicate rank");
        },
        FreeSemanticError::InvalidChannelBatch => {
            reveal_strlit("channel batch did not bind one bounded request and published receipt");
        },
        FreeSemanticError::InvalidRequest => {
            reveal_strlit("request exceeded the bounded note-search contract");
        },
        FreeSemanticError::InvalidRankPolicy => {
            reveal_strlit("rank fusion policy was invalid");
        },
    }
}

/// Errors of different kinds have different labels.
pub proof fn law_labels_tell_kinds_apart(a: FreeSemanticError, b: FreeSemanticError)
    requires
        error_label(a) == error_label(b),
    ensures
        kind(a) == kind(b),
{
    lemma_label_mark(a);
    lemma_label_mark(b);
}

} // verus!
