//! The projection of a note into chunks with stable identities.

use vstd::prelude::*;

use super::blocks::{kind_tag, ChunkKind};
use super::coverage::{covered_below, covered_bytes, ranges_within};
use super::diagnostic::{describe, described, flag_string, flag_text};
use super::error::FreeSemanticError;
use super::note::{
    exceeds_note_bytes, note_too_large, policy_digest, policy_ok, ChunkingPolicy, NoteInput,
    NoteModel, CHUNK_FORMAT_VERSION, MAX_NOTE_BYTES,
};
use super::pieces::{
    block_pieces, body_piece, is_body_piece, law_body_pieces_are_parts_of_the_body, note_pieces,
    piece_views, pieces_of, range_view, title_pieces, BodyByteRange, NotePiece, Piece,
};
use super::blocks::body_blocks;
use crate::digest::{digest, is_digest, sha256_digest, texts};
use crate::keys::string_views;
use crate::text::{byte_len, concat2, decimal, decimal_string, lemma_byte_off_mono, str_byte_len};

verus! {

/// A chunk by its texts and numbers.
#[verifier::ext_equal]
pub struct ChunkModel {
    pub logical_id: Seq<char>,
    pub chunk_id: Seq<char>,
    pub vault_id: Seq<char>,
    pub note_id: Seq<char>,
    pub title: Seq<char>,
    pub text: Seq<char>,
    pub kind: ChunkKind,
    pub body_range: Option<(nat, nat)>,
    pub content_digest: Seq<char>,
    pub note_revision_digest: Seq<char>,
    pub occurrence: nat,
    pub format_version: u32,
}

/// One paragraph, heading, block of code or title of a note.
#[derive(PartialEq, Eq)]
pub struct ParagraphChunk {
    /// Stable only while the logical occurrence is unchanged. It is distinct
    /// from the page identity and the full note revision digest.
    pub logical_id: String,
    pub chunk_id: String,
    pub vault_id: String,
    pub note_id: String,
    pub title: String,
    pub text: String,
    pub kind: ChunkKind,
    /// Title chunks have no body range; every body chunk has an exact trimmed
    /// UTF-8 byte range into the body of its note.
    pub body_range: Option<BodyByteRange>,
    pub content_digest: String,
    pub note_revision_digest: String,
    /// Occurrence is reusable only for unique content. Ambiguous duplicate
    /// chunks are revision-scoped before an old vector can be reused.
    pub occurrence: usize,
    pub format_version: u32,
}

impl View for ParagraphChunk {
    type V = ChunkModel;

    open spec fn view(&self) -> ChunkModel {
        ChunkModel {
            logical_id: self.logical_id@,
            chunk_id: self.chunk_id@,
            vault_id: self.vault_id@,
            note_id: self.note_id@,
            title: self.title@,
            text: self.text@,
            kind: self.kind,
            body_range: range_view(self.body_range),
            content_digest: self.content_digest@,
            note_revision_digest: self.note_revision_digest@,
            occurrence: self.occurrence as nat,
            format_version: self.format_version,
        }
    }
}

impl Clone for ParagraphChunk {
    fn clone(&self) -> (r: Self)
        ensures
            r@ == self@,
    {
        ParagraphChunk {
            logical_id: self.logical_id.clone(),
            chunk_id: self.chunk_id.clone(),
            vault_id: self.vault_id.clone(),
            note_id: self.note_id.clone(),
            title: self.title.clone(),
            text: self.text.clone(),
            kind: self.kind,
            body_range: self.body_range,
            content_digest: self.content_digest.clone(),
            note_revision_digest: self.note_revision_digest.clone(),
            occurrence: self.occurrence,
            format_version: self.format_version,
        }
    }
}

pub open spec fn chunk_views(chunks: Seq<ParagraphChunk>) -> Seq<ChunkModel> {
    chunks.map_values(|c: ParagraphChunk| c@)
}

fn same_range(a: Option<BodyByteRange>, b: Option<BodyByteRange>) -> (r: bool)
    ensures
        r == (range_view(a) == range_view(b)),
{
    match (a, b) {
        (Some(x), Some(y)) => x.start_byte == y.start_byte && x.end_byte == y.end_byte,
        (None, None) => true,
        _ => false,
    }
}

impl ParagraphChunk {
    /// Whether two chunks agree in every field.
    pub fn same(&self, other: &Self) -> (r: bool)
        ensures
            r == (self@ == other@),
    {
        let r: bool = self.logical_id == other.logical_id && self.chunk_id == other.chunk_id
            && self.vault_id == other.vault_id && self.note_id == other.note_id && self.title
            == other.title && self.text == other.text && self.kind == other.kind && same_range(
            self.body_range,
            other.body_range,
        ) && self.content_digest == other.content_digest && self.note_revision_digest
            == other.note_revision_digest && self.occurrence == other.occurrence
            && self.format_version == other.format_version;
        r
    }
}

/// The name of a kind in a description.
pub open spec fn kind_name(kind: ChunkKind) -> Seq<char> {
    match kind {
        ChunkKind::Title => "Title"@,
        ChunkKind::Heading => "Heading"@,
        ChunkKind::Paragraph => "Paragraph"@,
        ChunkKind::Code => "Code"@,
    }
}

fn kind_string(kind: ChunkKind) -> (r: String)
    ensures
        r@ == kind_name(kind),
{
    match kind {
        ChunkKind::Title => "Title".to_owned(),
        ChunkKind::Heading => "Heading".to_owned(),
        ChunkKind::Paragraph => "Paragraph".to_owned(),
        ChunkKind::Code => "Code".to_owned(),
    }
}

/// What a log may say of a chunk: its kind, its size and its numbers.
pub open spec fn chunk_diagnostic(
    kind: ChunkKind,
    text_bytes: nat,
    has_body_range: bool,
    occurrence: nat,
    format_version: nat,
) -> Seq<char> {
    described(
        "ParagraphChunk"@,
        seq![
            "kind"@,
            "text_bytes"@,
            "has_body_range"@,
            "occurrence"@,
            "format_version"@,
        ],
        seq![
            kind_name(kind),
            decimal(text_bytes),
            flag_text(has_body_range),
            decimal(occurrence),
            decimal(format_version),
        ],
    )
}

impl ParagraphChunk {
    /// A description without any text of the chunk.
    pub fn diagnostic(&self) -> (r: String)
        ensures
            r@ == chunk_diagnostic(
                self@.kind,
                byte_len(self@.text),
                self@.body_range is Some,
                self@.occurrence,
                self@.format_version as nat,
            ),
    {
        let labels: [&str; 5] = [
            "kind",
            "text_bytes",
            "has_body_range",
            "occurrence",
            "format_version",
        ];
        let mut values: Vec<String> = Vec::new();
        values.push(kind_string(self.kind));
        values.push(decimal_string(str_byte_len(self.text.as_str()) as u64));
        values.push(flag_string(self.body_range.is_some()));
        values.push(decimal_string(self.occurrence as u64));
        values.push(decimal_string(self.format_version as u64));
        assert(texts(labels@) =~= seq![
            "kind"@,
            "text_bytes"@,
            "has_body_range"@,
            "occurrence"@,
            "format_version"@,
        ]);
        assert(string_views(values@) =~= seq![
            kind_name(self@.kind),
            decimal(byte_len(self@.text)),
            flag_text(self@.body_range is Some),
            decimal(self@.occurrence),
            decimal(self@.format_version as nat),
        ]);
        describe("ParagraphChunk", &labels, &values)
    }
}

#[derive(Clone, Copy, Debug, PartialEq, Eq, Structural)]
pub enum ProjectionPartialReason {
    ChunkLimit,
}

#[derive(Clone, Copy, Debug, PartialEq, Eq, Structural)]
pub enum ProjectionStatus {
    Complete,
    Partial { omitted_from_body_byte: usize, reason: ProjectionPartialReason },
}

#[derive(Clone, Copy, Debug, PartialEq, Eq, Structural)]
pub struct ChunkCoverage {
    pub total_body_bytes: usize,
    pub indexed_body_bytes: usize,
    pub status: ProjectionStatus,
}

/// A projection by its texts, numbers and chunks.
#[verifier::ext_equal]
pub struct ProjectionModel {
    pub vault_id: Seq<char>,
    pub note_id: Seq<char>,
    pub canonical_title: Seq<char>,
    pub canonical_body: Seq<char>,
    pub note_revision_digest: Seq<char>,
    pub chunking_policy: ChunkingPolicy,
    pub chunking_policy_digest: Seq<char>,
    pub body_byte_len: nat,
    pub chunks: Seq<ChunkModel>,
    pub total_body_bytes: nat,
    pub indexed_body_bytes: nat,
    /// The byte from which on the body is left out, where it is.
    pub omitted_from: Option<nat>,
}

pub open spec fn omitted_view(status: ProjectionStatus) -> Option<nat> {
    match status {
        ProjectionStatus::Complete => None,
        ProjectionStatus::Partial { omitted_from_body_byte, .. } => Some(
            omitted_from_body_byte as nat,
        ),
    }
}

/// A note cut into chunks, with its source and what of it is indexed.
#[derive(PartialEq, Eq)]
pub struct ChunkProjection {
    pub vault_id: String,
    pub note_id: String,
    /// Bounded canonical source retained only while this in-memory projection
    /// is validated and staged; it is not a derived-index persistence format.
    pub canonical_title: String,
    pub canonical_body: String,
    pub note_revision_digest: String,
    /// The bounded canonical policy used to construct this exact projection.
    /// Its digest is retained separately for the generation receipt.
    pub chunking_policy: ChunkingPolicy,
    pub chunking_policy_digest: String,
    pub body_byte_len: usize,
    pub chunks: Vec<ParagraphChunk>,
    pub coverage: ChunkCoverage,
}

impl View for ChunkProjection {
    type V = ProjectionModel;

    open spec fn view(&self) -> ProjectionModel {
        ProjectionModel {
            vault_id: self.vault_id@,
            note_id: self.note_id@,
            canonical_title: self.canonical_title@,
            canonical_body: self.canonical_body@,
            note_revision_digest: self.note_revision_digest@,
            chunking_policy: self.chunking_policy,
            chunking_policy_digest: self.chunking_policy_digest@,
            body_byte_len: self.body_byte_len as nat,
            chunks: chunk_views(self.chunks@),
            total_body_bytes: self.coverage.total_body_bytes as nat,
            indexed_body_bytes: self.coverage.indexed_body_bytes as nat,
            omitted_from: omitted_view(self.coverage.status),
        }
    }
}

/// What a log may say of the state of a projection.
pub open spec fn status_diagnostic(omitted_from: Option<nat>) -> Seq<char> {
    match omitted_from {
        None => "Complete"@,
        Some(n) => described(
            "Partial"@,
            seq!["omitted_from_body_byte"@, "reason"@],
            seq![decimal(n), "ChunkLimit"@],
        ),
    }
}

fn status_string(status: ProjectionStatus) -> (r: String)
    ensures
        r@ == status_diagnostic(omitted_view(status)),
{
    match status {
        ProjectionStatus::Complete => "Complete".to_owned(),
        ProjectionStatus::Partial { omitted_from_body_byte, .. } => {
            let labels: [&str; 2] = ["omitted_from_body_byte", "reason"];
            let mut values: Vec<String> = Vec::new();
            values.push(decimal_string(omitted_from_body_byte as u64));
            values.push("ChunkLimit".to_owned());
            assert(texts(labels@) =~= seq!["omitted_from_body_byte"@, "reason"@]);
            assert(string_views(values@) =~= seq![
                decimal(omitted_from_body_byte as nat),
                "ChunkLimit"@,
            ]);
            describe("Partial", &labels, &values)
        },
    }
}

/// What a log may say of how much of a body is indexed.
pub open spec fn coverage_diagnostic(
    total_body_bytes: nat,
    indexed_body_bytes: nat,
    omitted_from: Option<nat>,
) -> Seq<char> {
    described(
        "ChunkCoverage"@,
        seq![
            "total_body_bytes"@,
            "indexed_body_bytes"@,
            "status"@,
        ],
        seq![
            decimal(total_body_bytes),
            decimal(indexed_body_bytes),
            status_diagnostic(omitted_from),
        ],
    )
}

impl ChunkCoverage {
    /// A description of the coverage.
    pub fn diagnostic(&self) -> (r: String)
        ensures
            r@ == coverage_diagnostic(
                self.total_body_bytes as nat,
                self.indexed_body_bytes as nat,
                omitted_view(self.status),
            ),
    {
        let labels: [&str; 3] = [
            "total_body_bytes",
            "indexed_body_bytes",
            "status",
        ];
        let mut values: Vec<String> = Vec::new();
        values.push(decimal_string(self.total_body_bytes as u64));
        values.push(decimal_string(self.indexed_body_bytes as u64));
        values.push(status_string(self.status));
        assert(texts(labels@) =~= seq![
            "total_body_bytes"@,
            "indexed_body_bytes"@,
            "status"@,
        ]);
        assert(string_views(values@) =~= seq![
            decimal(self.total_body_bytes as nat),
            decimal(self.indexed_body_bytes as nat),
            status_diagnostic(omitted_view(self.status)),
        ]);
        describe("ChunkCoverage", &labels, &values)
    }
}

/// What a log may say of a projection: sizes, and how much is indexed.
pub open spec fn projection_diagnostic(
    title_bytes: nat,
    body_bytes: nat,
    chunk_count: nat,
    coverage: Seq<char>,
) -> Seq<char> {
    described(
        "ChunkProjection"@,
        seq![
            "title_bytes"@,
            "body_bytes"@,
            "chunk_count"@,
            "coverage"@,
        ],
        seq![
            decimal(title_bytes),
            decimal(body_bytes),
            decimal(chunk_count),
            coverage,
        ],
    )
}

impl ChunkProjection {
    /// A description without any text of the note.
    pub fn diagnostic(&self) -> (r: String)
        ensures
            r@ == projection_diagnostic(
                byte_len(self@.canonical_title),
                byte_len(self@.canonical_body),
                self@.chunks.len(),
                coverage_diagnostic(
                    self@.total_body_bytes,
                    self@.indexed_body_bytes,
                    self@.omitted_from,
                ),
            ),
    {
        let labels: [&str; 4] = [
            "title_bytes",
            "body_bytes",
            "chunk_count",
            "coverage",
        ];
        let mut values: Vec<String> = Vec::new();
        values.push(decimal_string(str_byte_len(self.canonical_title.as_str()) as u64));
        values.push(decimal_string(str_byte_len(self.canonical_body.as_str()) as u64));
        values.push(decimal_string(self.chunks.len() as u64));
        values.push(self.coverage.diagnostic());
        assert(texts(labels@) =~= seq![
            "title_bytes"@,
            "body_bytes"@,
            "chunk_count"@,
            "coverage"@,
        ]);
        assert(string_views(values@) =~= seq![
            decimal(byte_len(self@.canonical_title)),
            decimal(byte_len(self@.canonical_body)),
            decimal(self@.chunks.len()),
            coverage_diagnostic(self@.total_body_bytes, self@.indexed_body_bytes, self@.omitted_from),
        ]);
        describe("ChunkProjection", &labels, &values)
    }
}

pub fn clone_chunks(chunks: &Vec<ParagraphChunk>) -> (r: Vec<ParagraphChunk>)
    ensures
        chunk_views(r@) == chunk_views(chunks@),
{
    let mut out: Vec<ParagraphChunk> = Vec::new();
    let mut i: usize = 0;
    while i < chunks.len()
        invariant
            i <= chunks@.len(),
            chunk_views(out@) =~= chunk_views(chunks@).take(i as int),
        decreases chunks@.len() - i,
    {
        let chunk: ParagraphChunk = chunks[i].clone();
        let ghost model = chunk@;
        let ghost before = chunk_views(out@);
        out.push(chunk);
        assert(model == chunk_views(chunks@)[i as int]);
        assert(chunk_views(out@) =~= before.push(model));
        i += 1;
    }
    assert(chunk_views(chunks@).take(chunks@.len() as int) =~= chunk_views(chunks@));
    out
}

impl Clone for ChunkProjection {
    fn clone(&self) -> (r: Self)
        ensures
            r@ == self@,
    {
        ChunkProjection {
            vault_id: self.vault_id.clone(),
            note_id: self.note_id.clone(),
            canonical_title: self.canonical_title.clone(),
            canonical_body: self.canonical_body.clone(),
            note_revision_digest: self.note_revision_digest.clone(),
            chunking_policy: self.chunking_policy,
            chunking_policy_digest: self.chunking_policy_digest.clone(),
            body_byte_len: self.body_byte_len,
            chunks: clone_chunks(&self.chunks),
            coverage: self.coverage,
        }
    }
}

fn same_chunks(a: &Vec<ParagraphChunk>, b: &Vec<ParagraphChunk>) -> (r: bool)
    ensures
        r == (chunk_views(a@) == chunk_views(b@)),
{
    if a.len() != b.len() {
        assert(chunk_views(a@).len() != chunk_views(b@).len());
        return false;
    }
    let mut i: usize = 0;
    while i < a.len()
        invariant
            a@.len() == b@.len(),
            i <= a@.len(),
            forall|k: int| 0 <= k < i ==> #[trigger] a@[k]@ == b@[k]@,
        decreases a@.len() - i,
    {
        if !a[i].same(&b[i]) {
            assert(chunk_views(a@)[i as int] != chunk_views(b@)[i as int]);
            return false;
        }
        i += 1;
    }
    assert(chunk_views(a@) =~= chunk_views(b@));
    true
}

impl ChunkProjection {
    /// Whether two projections agree in every field.
    pub fn same(&self, other: &Self) -> (r: bool)
        ensures
            r == (self@ == other@),
    {
        let status: bool = match (self.coverage.status, other.coverage.status) {
            (ProjectionStatus::Complete, ProjectionStatus::Complete) => true,
            (
                ProjectionStatus::Partial { omitted_from_body_byte: x, .. },
                ProjectionStatus::Partial { omitted_from_body_byte: y, .. },
            ) => x == y,
            _ => false,
        };
        let r: bool = status && self.vault_id == other.vault_id && self.note_id == other.note_id
            && self.canonical_title == other.canonical_title && self.canonical_body
            == other.canonical_body && self.note_revision_digest == other.note_revision_digest
            && self.chunking_policy == other.chunking_policy && self.chunking_policy_digest
            == other.chunking_policy_digest && self.body_byte_len == other.body_byte_len
            && self.coverage.total_body_bytes == other.coverage.total_body_bytes
            && self.coverage.indexed_body_bytes == other.coverage.indexed_body_bytes && same_chunks(
            &self.chunks,
            &other.chunks,
        );
        r
    }
}

/// The digest of one revision of a note.
pub open spec fn revision_digest(note: NoteModel) -> Seq<char> {
    digest("note-revision-v1"@, seq![note.vault_id, note.note_id, note.title, note.body])
}

/// The digest of the text of a chunk.
pub open spec fn content_digest(text: Seq<char>) -> Seq<char> {
    digest("chunk-content-v1"@, seq![text])
}

/// The logical identity of a chunk: scoped to a revision where its content
/// alone would be ambiguous.
pub open spec fn logical_id(
    vault_id: Seq<char>,
    note_id: Seq<char>,
    kind: ChunkKind,
    content: Seq<char>,
    occurrence: nat,
    ambiguity_revision: Option<Seq<char>>,
) -> Seq<char> {
    match ambiguity_revision {
        Some(revision) => digest(
            "ambiguous-logical-chunk-v2"@,
            seq![vault_id, note_id, kind_tag(kind), content, decimal(occurrence), revision],
        ),
        None => digest(
            "logical-chunk-v2"@,
            seq![vault_id, note_id, kind_tag(kind), content, decimal(occurrence)],
        ),
    }
}

/// The identity of a chunk: its format and its logical identity.
pub open spec fn chunk_id_of(logical: Seq<char>) -> Seq<char> {
    "pc2:"@ + logical
}

/// Whether two pieces have the same kind and the same content.
pub open spec fn same_content(p: Piece, q: Piece) -> bool {
    p.kind == q.kind && content_digest(p.text) == content_digest(q.text)
}

/// How many of the first `n` pieces have the kind and content of `p`.
pub open spec fn content_count(pieces: Seq<Piece>, n: int, p: Piece) -> nat
    decreases n,
{
    if n <= 0 {
        0
    } else {
        content_count(pieces, n - 1, p) + if same_content(pieces[n - 1], p) {
            1nat
        } else {
            0nat
        }
    }
}

/// The chunk of the piece at `i` among the pieces that are indexed.
pub open spec fn chunk_of(note: NoteModel, pieces: Seq<Piece>, i: int) -> ChunkModel {
    let p = pieces[i];
    let content = content_digest(p.text);
    let revision = revision_digest(note);
    let occurrence = content_count(pieces, i, p);
    let ambiguous = content_count(pieces, pieces.len() as int, p) > 1;
    let logical = logical_id(
        note.vault_id,
        note.note_id,
        p.kind,
        content,
        occurrence,
        if ambiguous {
            Some(revision)
        } else {
            None
        },
    );
    ChunkModel {
        logical_id: logical,
        chunk_id: chunk_id_of(logical),
        vault_id: note.vault_id,
        note_id: note.note_id,
        title: note.title,
        text: p.text,
        kind: p.kind,
        body_range: p.range,
        content_digest: content,
        note_revision_digest: revision,
        occurrence,
        format_version: CHUNK_FORMAT_VERSION,
    }
}

/// The pieces that are indexed: the first ones, as many as the policy allows.
pub open spec fn indexed_pieces(note: NoteModel, policy: ChunkingPolicy) -> Seq<Piece> {
    let all = note_pieces(note, policy);
    if all.len() <= policy.max_chunks_per_note {
        all
    } else {
        all.take(policy.max_chunks_per_note as int)
    }
}

pub open spec fn piece_ranges(pieces: Seq<Piece>) -> Seq<Option<(nat, nat)>> {
    pieces.map_values(|p: Piece| p.range)
}

/// The end of the last range among the first `n` pieces, at least `floor`.
pub open spec fn max_end(pieces: Seq<Piece>, n: int, floor: nat) -> nat
    decreases n,
{
    if n <= 0 {
        floor
    } else {
        let before = max_end(pieces, n - 1, floor);
        match pieces[n - 1].range {
            Some((lo, hi)) => if hi > before {
                hi
            } else {
                before
            },
            None => before,
        }
    }
}

/// From which byte on a body is left out, where the policy allows too few
/// chunks: behind all that is indexed, and not before the first piece that is
/// not.
pub open spec fn omitted_from(note: NoteModel, policy: ChunkingPolicy) -> Option<nat> {
    let all = note_pieces(note, policy);
    let n = policy.max_chunks_per_note as int;
    if all.len() <= n {
        None
    } else {
        Some(max_end(all, n, all[n].from))
    }
}

/// The projection of a note under a policy.
pub open spec fn projection_of(note: NoteModel, policy: ChunkingPolicy) -> ProjectionModel {
    let pieces = indexed_pieces(note, policy);
    ProjectionModel {
        vault_id: note.vault_id,
        note_id: note.note_id,
        canonical_title: note.title,
        canonical_body: note.body,
        note_revision_digest: revision_digest(note),
        chunking_policy: policy,
        chunking_policy_digest: policy_digest(policy),
        body_byte_len: byte_len(note.body),
        chunks: Seq::new(pieces.len(), |i: int| chunk_of(note, pieces, i)),
        total_body_bytes: byte_len(note.body),
        indexed_body_bytes: covered_below(piece_ranges(pieces), byte_len(note.body) as int),
        omitted_from: omitted_from(note, policy),
    }
}

/// Why a note is not projected, if it is not: a policy out of bounds, a note
/// too large, or a piece that is indexed and larger than a chunk may be.
pub open spec fn projection_error(note: NoteModel, policy: ChunkingPolicy) -> Option<
    FreeSemanticError,
> {
    if !policy_ok(policy) {
        Some(FreeSemanticError::InvalidChunkPolicy)
    } else if note_too_large(note.title, note.body) {
        Some(FreeSemanticError::NoteTooLarge { limit: MAX_NOTE_BYTES })
    } else if exists|i: int|
        0 <= i < indexed_pieces(note, policy).len() && byte_len(
            (#[trigger] indexed_pieces(note, policy)[i]).text,
        ) > policy.max_chunk_bytes {
        Some(FreeSemanticError::ChunkExceedsPolicy { limit: policy.max_chunk_bytes })
    } else {
        None
    }
}

pub fn note_revision(note: &NoteInput) -> (r: String)
    ensures
        r@ == revision_digest(note@),
        is_digest(r@),
{
    let fields: [&str; 4] = [
        note.vault_id.as_str(),
        note.note_id.as_str(),
        note.title.as_str(),
        note.body.as_str(),
    ];
    let r: String = sha256_digest("note-revision-v1", &fields);
    assert(crate::digest::texts(fields@) =~= seq![
        note.vault_id@,
        note.note_id@,
        note.title@,
        note.body@,
    ]);
    r
}

pub fn chunk_content_digest(text: &str) -> (r: String)
    ensures
        r@ == content_digest(text@),
        is_digest(r@),
{
    let fields: [&str; 1] = [text];
    let r: String = sha256_digest("chunk-content-v1", &fields);
    assert(crate::digest::texts(fields@) =~= seq![text@]);
    r
}

pub fn logical_chunk_id(
    vault_id: &str,
    note_id: &str,
    kind: ChunkKind,
    content: &str,
    occurrence: usize,
    ambiguity_revision: Option<&str>,
) -> (r: String)
    ensures
        r@ == logical_id(
            vault_id@,
            note_id@,
            kind,
            content@,
            occurrence as nat,
            match ambiguity_revision {
                Some(revision) => Some(revision@),
                None => None,
            },
        ),
        is_digest(r@),
{
    let number: String = decimal_string(occurrence as u64);
    match ambiguity_revision {
        Some(revision) => {
            let fields: [&str; 6] = [
                vault_id,
                note_id,
                kind.tag(),
                content,
                number.as_str(),
                revision,
            ];
            let r: String = sha256_digest("ambiguous-logical-chunk-v2", &fields);
            assert(crate::digest::texts(fields@) =~= seq![
                vault_id@,
                note_id@,
                kind_tag(kind),
                content@,
                number@,
                revision@,
            ]);
            r
        },
        None => {
            let fields: [&str; 5] = [vault_id, note_id, kind.tag(), content, number.as_str()];
            let r: String = sha256_digest("logical-chunk-v2", &fields);
            assert(crate::digest::texts(fields@) =~= seq![
                vault_id@,
                note_id@,
                kind_tag(kind),
                content@,
                number@,
            ]);
            r
        },
    }
}

/// The ranges of the pieces of a note lie within its body.
pub proof fn lemma_piece_ranges_within(note: NoteModel, policy: ChunkingPolicy)
    requires
        policy_ok(policy),
    ensures
        ranges_within(piece_ranges(note_pieces(note, policy)), byte_len(note.body) as int),
        ranges_within(piece_ranges(indexed_pieces(note, policy)), byte_len(note.body) as int),
{
    let all = note_pieces(note, policy);
    let head = title_pieces(note.title);
    let tail = block_pieces(note.body, body_blocks(note.body), policy);
    law_body_pieces_are_parts_of_the_body(note.body, policy);
    let s = note.body;
    assert forall|i: int| 0 <= i < all.len() implies (#[trigger] piece_ranges(all)[i] matches Some(
        (lo, hi),
    ) ==> lo <= hi <= byte_len(s)) by {
        assert(piece_ranges(all)[i] == all[i].range);
        if i < head.len() {
            assert(all[i] == head[i]);
        } else {
            let p = tail[i - head.len()];
            assert(all[i] == p);
            assert(is_body_piece(s, p));
            let (from, lo, hi) = choose|from: int, lo: int, hi: int|
                #![trigger body_piece(s, p.kind, from, lo, hi)]
                0 <= from <= lo < hi <= s.len() && p == body_piece(s, p.kind, from, lo, hi);
            lemma_byte_off_mono(s, lo, hi);
            lemma_byte_off_mono(s, hi, s.len() as int);
        }
    }
    let some = indexed_pieces(note, policy);
    assert forall|i: int| 0 <= i < some.len() implies (#[trigger] piece_ranges(
        some,
    )[i] matches Some((lo, hi)) ==> lo <= hi <= byte_len(s)) by {
        assert(some[i] == all[i]);
        assert(piece_ranges(all)[i] == all[i].range);
    }
}

pub proof fn lemma_content_count_bound(pieces: Seq<Piece>, n: int, p: Piece)
    requires
        0 <= n,
    ensures
        content_count(pieces, n, p) <= n,
    decreases n,
{
    if n > 0 {
        lemma_content_count_bound(pieces, n - 1, p);
    }
}

proof fn lemma_content_count_take(pieces: Seq<Piece>, m: int, n: int, p: Piece)
    requires
        0 <= n <= m <= pieces.len(),
    ensures
        content_count(pieces.take(m), n, p) == content_count(pieces, n, p),
    decreases n,
{
    if n > 0 {
        lemma_content_count_take(pieces, m, n - 1, p);
    }
}

/// How many of the first `n` pieces share kind and content with piece `at`.
fn count_content(pieces: &Vec<NotePiece>, contents: &Vec<String>, n: usize, at: usize) -> (r: usize)
    requires
        n <= contents@.len() <= pieces@.len(),
        at < contents@.len(),
        forall|k: int|
            0 <= k < contents@.len() ==> #[trigger] contents@[k]@ == content_digest(
                pieces@[k].text@,
            ),
    ensures
        r == content_count(piece_views(pieces@), n as int, piece_views(pieces@)[at as int]),
        r <= n,
{
    let ghost views = piece_views(pieces@);
    let mut count: usize = 0;
    let mut i: usize = 0;
    while i < n
        invariant
            views == piece_views(pieces@),
            i <= n <= contents@.len() <= pieces@.len(),
            at < contents@.len(),
            forall|k: int|
                0 <= k < contents@.len() ==> #[trigger] contents@[k]@ == content_digest(
                    pieces@[k].text@,
                ),
            count == content_count(views, i as int, views[at as int]),
            count <= i,
        decreases n - i,
    {
        assert(views[i as int] == pieces@[i as int]@);
        assert(views[at as int] == pieces@[at as int]@);
        if pieces[i].kind == pieces[at].kind && contents[i] == contents[at] {
            count += 1;
        }
        i += 1;
    }
    count
}

/// The chunk of the piece at `at` among the first `contents.len()` pieces.
fn build_chunk(
    note: &NoteInput,
    pieces: &Vec<NotePiece>,
    contents: &Vec<String>,
    revision: &String,
    at: usize,
) -> (r: ParagraphChunk)
    requires
        contents@.len() <= pieces@.len(),
        at < contents@.len(),
        forall|k: int|
            0 <= k < contents@.len() ==> #[trigger] contents@[k]@ == content_digest(
                pieces@[k].text@,
            ),
        revision@ == revision_digest(note@),
    ensures
        r@ == chunk_of(note@, piece_views(pieces@).take(contents@.len() as int), at as int),
{
    let ghost views = piece_views(pieces@);
    let ghost taken = views.take(contents@.len() as int);
    assert(views[at as int] == pieces@[at as int]@);
    let occurrence: usize = count_content(pieces, contents, at, at);
    let total: usize = count_content(pieces, contents, contents.len(), at);
    proof {
        lemma_content_count_take(
            views,
            contents@.len() as int,
            at as int,
            views[at as int],
        );
        lemma_content_count_take(
            views,
            contents@.len() as int,
            contents@.len() as int,
            views[at as int],
        );
    }
    let ambiguity: Option<&str> = if total > 1 {
        Some(revision.as_str())
    } else {
        None
    };
    let kind: ChunkKind = pieces[at].kind;
    let logical: String = logical_chunk_id(
        note.vault_id.as_str(),
        note.note_id.as_str(),
        kind,
        contents[at].as_str(),
        occurrence,
        ambiguity,
    );
    let chunk_id: String = concat2("pc2:", logical.as_str());
    ParagraphChunk {
        logical_id: logical,
        chunk_id,
        vault_id: note.vault_id.clone(),
        note_id: note.note_id.clone(),
        title: note.title.clone(),
        text: pieces[at].text.clone(),
        kind,
        body_range: pieces[at].range,
        content_digest: contents[at].clone(),
        note_revision_digest: revision.clone(),
        occurrence,
        format_version: CHUNK_FORMAT_VERSION,
    }
}

/// The end of the last range of the first `n` pieces, at least `floor`.
fn first_unrepresented_body_byte(pieces: &Vec<NotePiece>, n: usize, floor: usize) -> (r: usize)
    requires
        n <= pieces@.len(),
    ensures
        r == max_end(piece_views(pieces@), n as int, floor as nat),
{
    let ghost views = piece_views(pieces@);
    let mut best: usize = floor;
    let mut i: usize = 0;
    while i < n
        invariant
            views == piece_views(pieces@),
            i <= n <= pieces@.len(),
            best == max_end(views, i as int, floor as nat),
        decreases n - i,
    {
        assert(views[i as int] == pieces@[i as int]@);
        if let Some(range) = pieces[i].range {
            if range.end_byte > best {
                best = range.end_byte;
            }
        }
        i += 1;
    }
    best
}

/// Projects a note into deterministic title, heading, paragraph and fenced
/// code chunks. A note that exceeds its chosen chunk budget gives a truthful
/// partial projection rather than pretending that the whole body is indexed.
pub fn chunk_note(note: &NoteInput, policy: &ChunkingPolicy) -> (r: Result<
    ChunkProjection,
    FreeSemanticError,
>)
    ensures
        match r {
            Ok(p) => projection_error(note@, *policy) is None && p@ == projection_of(
                note@,
                *policy,
            ),
            Err(e) => projection_error(note@, *policy) == Some(e),
        },
{
    match policy.validate() {
        Ok(()) => {},
        Err(e) => {
            return Err(e);
        },
    }
    if exceeds_note_bytes(note.title.as_str(), note.body.as_str()) {
        return Err(FreeSemanticError::NoteTooLarge { limit: MAX_NOTE_BYTES });
    }
    let pieces: Vec<NotePiece> = pieces_of(note, policy);
    let ghost views = piece_views(pieces@);
    let ghost taken = indexed_pieces(note@, *policy);
    let n: usize = if pieces.len() <= policy.max_chunks_per_note {
        pieces.len()
    } else {
        policy.max_chunks_per_note
    };
    assert(taken =~= views.take(n as int));
    let mut contents: Vec<String> = Vec::new();
    let mut ranges: Vec<Option<BodyByteRange>> = Vec::new();
    let mut i: usize = 0;
    while i < n
        invariant
            i <= n <= pieces@.len(),
            policy_ok(*policy),
            !note_too_large(note@.title, note@.body),
            views == piece_views(pieces@),
            taken == indexed_pieces(note@, *policy),
            taken == views.take(n as int),
            contents@.len() == i,
            ranges@.len() == i,
            forall|k: int|
                0 <= k < i ==> #[trigger] contents@[k]@ == content_digest(pieces@[k].text@),
            forall|k: int| 0 <= k < i ==> #[trigger] ranges@[k] == pieces@[k].range,
            forall|k: int|
                0 <= k < i ==> byte_len((#[trigger] taken[k]).text) <= policy.max_chunk_bytes,
        decreases n - i,
    {
        assert(taken[i as int] == pieces@[i as int]@);
        let text: &str = pieces[i].text.as_str();
        if str_byte_len(text) > policy.max_chunk_bytes {
            return Err(FreeSemanticError::ChunkExceedsPolicy { limit: policy.max_chunk_bytes });
        }
        contents.push(chunk_content_digest(text));
        ranges.push(pieces[i].range);
        i += 1;
    }
    let revision: String = note_revision(note);
    let mut chunks: Vec<ParagraphChunk> = Vec::new();
    let ghost expected = projection_of(note@, *policy);
    let mut j: usize = 0;
    while j < n
        invariant
            j <= n <= pieces@.len(),
            views == piece_views(pieces@),
            taken == views.take(n as int),
            taken == indexed_pieces(note@, *policy),
            expected == projection_of(note@, *policy),
            contents@.len() == n,
            forall|k: int|
                0 <= k < n ==> #[trigger] contents@[k]@ == content_digest(pieces@[k].text@),
            revision@ == revision_digest(note@),
            chunk_views(chunks@) =~= expected.chunks.take(j as int),
        decreases n - j,
    {
        let chunk: ParagraphChunk = build_chunk(note, &pieces, &contents, &revision, j);
        let ghost model = chunk@;
        let ghost before = chunk_views(chunks@);
        chunks.push(chunk);
        assert(chunk_views(chunks@) =~= before.push(model));
        assert(model == expected.chunks[j as int]);
        j += 1;
    }
    assert(expected.chunks.take(n as int) =~= expected.chunks);
    let body_len: usize = str_byte_len(note.body.as_str());
    proof {
        lemma_piece_ranges_within(note@, *policy);
        assert(ranges@.map_values(|x: Option<BodyByteRange>| range_view(x)) =~= piece_ranges(
            taken,
        ));
    }
    let indexed: usize = covered_bytes(&ranges, body_len);
    let status: ProjectionStatus = if pieces.len() <= n {
        ProjectionStatus::Complete
    } else {
        assert(views[n as int] == pieces@[n as int]@);
        ProjectionStatus::Partial {
            omitted_from_body_byte: first_unrepresented_body_byte(&pieces, n, pieces[n].from),
            reason: ProjectionPartialReason::ChunkLimit,
        }
    };
    Ok(
        ChunkProjection {
            vault_id: note.vault_id.clone(),
            note_id: note.note_id.clone(),
            canonical_title: note.title.clone(),
            canonical_body: note.body.clone(),
            note_revision_digest: revision,
            chunking_policy: *policy,
            chunking_policy_digest: policy.digest(),
            body_byte_len: body_len,
            chunks,
            coverage: ChunkCoverage {
                total_body_bytes: body_len,
                indexed_body_bytes: indexed,
                status,
            },
        },
    )
}

} // verus!
