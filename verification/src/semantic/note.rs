//! Notes and the bounded policy by which they are cut into chunks.

use vstd::prelude::*;

use super::diagnostic::{describe, described};
use super::error::FreeSemanticError;
use super::identity::{canonical_identity, identity_error, is_identity, IdentityKind};
use crate::digest::{digest, is_digest, sha256_digest, texts};
use crate::keys::string_views;
use crate::text::{byte_len, decimal, decimal_string, str_byte_len};

verus! {

/// The format of the chunks, which is part of their identity.
pub const CHUNK_FORMAT_VERSION: u32 = 2;

pub const MAX_NOTE_BYTES: usize = 1_048_576;

pub const MAX_CHUNK_BYTES: usize = 2_048;

pub const MAX_CHUNKS_PER_NOTE: usize = 128;

pub const MAX_OVERLAP_BYTES: usize = 256;

/// A note by its texts.
#[verifier::ext_equal]
pub struct NoteModel {
    pub vault_id: Seq<char>,
    pub note_id: Seq<char>,
    pub title: Seq<char>,
    pub body: Seq<char>,
}

/// Strictly a note: there is no way to make one of chat data.
#[derive(PartialEq, Eq)]
pub struct NoteInput {
    pub vault_id: String,
    pub note_id: String,
    pub title: String,
    pub body: String,
}

impl View for NoteInput {
    type V = NoteModel;

    open spec fn view(&self) -> NoteModel {
        NoteModel {
            vault_id: self.vault_id@,
            note_id: self.note_id@,
            title: self.title@,
            body: self.body@,
        }
    }
}

impl Clone for NoteInput {
    fn clone(&self) -> (r: Self)
        ensures
            r@ == self@,
    {
        NoteInput {
            vault_id: self.vault_id.clone(),
            note_id: self.note_id.clone(),
            title: self.title.clone(),
            body: self.body.clone(),
        }
    }
}

/// Whether title and body together exceed the limit of a note.
pub open spec fn note_too_large(title: Seq<char>, body: Seq<char>) -> bool {
    byte_len(title) + byte_len(body) > MAX_NOTE_BYTES
}

/// Whether title and body together exceed the limit of a note.
pub fn exceeds_note_bytes(title: &str, body: &str) -> (r: bool)
    ensures
        r == note_too_large(title@, body@),
{
    let t: usize = str_byte_len(title);
    let b: usize = str_byte_len(body);
    t > MAX_NOTE_BYTES || b > MAX_NOTE_BYTES - t
}

/// Why a note is refused, if it is.
pub open spec fn note_error(note: NoteModel) -> Option<FreeSemanticError> {
    if !is_identity(note.vault_id) {
        Some(identity_error(note.vault_id, IdentityKind::Vault))
    } else if !is_identity(note.note_id) {
        Some(identity_error(note.note_id, IdentityKind::Note))
    } else if note_too_large(note.title, note.body) {
        Some(FreeSemanticError::NoteTooLarge { limit: MAX_NOTE_BYTES })
    } else {
        None
    }
}

/// What a log may say of a note: the sizes of its title and body.
pub open spec fn note_diagnostic(title_bytes: nat, body_bytes: nat) -> Seq<char> {
    described(
        "NoteInput"@,
        seq!["title_bytes"@, "body_bytes"@],
        seq![decimal(title_bytes), decimal(body_bytes)],
    )
}

impl NoteInput {
    /// A description without any text of the note.
    pub fn diagnostic(&self) -> (r: String)
        ensures
            r@ == note_diagnostic(byte_len(self@.title), byte_len(self@.body)),
    {
        let labels: [&str; 2] = ["title_bytes", "body_bytes"];
        let mut values: Vec<String> = Vec::new();
        values.push(decimal_string(str_byte_len(self.title.as_str()) as u64));
        values.push(decimal_string(str_byte_len(self.body.as_str()) as u64));
        assert(texts(labels@) =~= seq!["title_bytes"@, "body_bytes"@]);
        assert(string_views(values@) =~= seq![
            decimal(byte_len(self@.title)),
            decimal(byte_len(self@.body)),
        ]);
        describe("NoteInput", &labels, &values)
    }

    /// A note with canonical identities and of a bounded size.
    pub fn new(vault_id: &str, note_id: &str, title: &str, body: &str) -> (r: Result<
        Self,
        FreeSemanticError,
    >)
        ensures
            ({
                let model = NoteModel {
                    vault_id: vault_id@,
                    note_id: note_id@,
                    title: title@,
                    body: body@,
                };
                match r {
                    Ok(note) => note_error(model) is None && note@ == model,
                    Err(e) => note_error(model) == Some(e),
                }
            }),
    {
        let vault: String = match canonical_identity(vault_id.to_owned(), IdentityKind::Vault) {
            Ok(v) => v,
            Err(e) => {
                return Err(e);
            },
        };
        let note: String = match canonical_identity(note_id.to_owned(), IdentityKind::Note) {
            Ok(v) => v,
            Err(e) => {
                return Err(e);
            },
        };
        if exceeds_note_bytes(title, body) {
            return Err(FreeSemanticError::NoteTooLarge { limit: MAX_NOTE_BYTES });
        }
        Ok(
            NoteInput {
                vault_id: vault,
                note_id: note,
                title: title.to_owned(),
                body: body.to_owned(),
            },
        )
    }
}

#[derive(Clone, Copy, Debug, PartialEq, Eq, Structural)]
pub struct ChunkingPolicy {
    pub max_chunk_bytes: usize,
    pub max_chunks_per_note: usize,
    pub overlap_bytes: usize,
}

impl Default for ChunkingPolicy {
    fn default() -> (r: Self)
        ensures
            r.max_chunk_bytes == MAX_CHUNK_BYTES,
            r.max_chunks_per_note == MAX_CHUNKS_PER_NOTE,
            r.overlap_bytes == 128,
    {
        ChunkingPolicy {
            max_chunk_bytes: MAX_CHUNK_BYTES,
            max_chunks_per_note: MAX_CHUNKS_PER_NOTE,
            overlap_bytes: 128,
        }
    }
}

/// The policies within the bounds of the catalog.
pub open spec fn policy_ok(policy: ChunkingPolicy) -> bool {
    &&& 0 < policy.max_chunk_bytes <= MAX_CHUNK_BYTES
    &&& 0 < policy.max_chunks_per_note <= MAX_CHUNKS_PER_NOTE
    &&& policy.overlap_bytes < policy.max_chunk_bytes
    &&& policy.overlap_bytes <= MAX_OVERLAP_BYTES
}

pub open spec fn policy_digest(policy: ChunkingPolicy) -> Seq<char> {
    digest(
        "chunking-policy-v1"@,
        seq![
            decimal(policy.max_chunk_bytes as nat),
            decimal(policy.max_chunks_per_note as nat),
            decimal(policy.overlap_bytes as nat),
        ],
    )
}

impl ChunkingPolicy {
    pub fn validate(&self) -> (r: Result<(), FreeSemanticError>)
        ensures
            r is Ok <==> policy_ok(*self),
            r matches Err(e) ==> e == FreeSemanticError::InvalidChunkPolicy,
    {
        if self.max_chunk_bytes == 0 || self.max_chunk_bytes > MAX_CHUNK_BYTES {
            return Err(FreeSemanticError::InvalidChunkPolicy);
        }
        if self.max_chunks_per_note == 0 || self.max_chunks_per_note > MAX_CHUNKS_PER_NOTE {
            return Err(FreeSemanticError::InvalidChunkPolicy);
        }
        if self.overlap_bytes >= self.max_chunk_bytes || self.overlap_bytes > MAX_OVERLAP_BYTES {
            return Err(FreeSemanticError::InvalidChunkPolicy);
        }
        Ok(())
    }

    pub fn digest(&self) -> (r: String)
        ensures
            r@ == policy_digest(*self),
            is_digest(r@),
    {
        let a: String = decimal_string(self.max_chunk_bytes as u64);
        let b: String = decimal_string(self.max_chunks_per_note as u64);
        let c: String = decimal_string(self.overlap_bytes as u64);
        let fields: [&str; 3] = [a.as_str(), b.as_str(), c.as_str()];
        let r: String = sha256_digest("chunking-policy-v1", &fields);
        assert(crate::digest::texts(fields@) =~= seq![a@, b@, c@]);
        r
    }
}

} // verus!
