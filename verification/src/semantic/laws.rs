//! What holds of chunking, publication and ranking as a whole.

use vstd::prelude::*;
use vstd::utf8::encode_utf8;

use super::blocks::{body_blocks, kind_tag, ChunkKind};
use super::catalog::{
    catalog_ok, next_catalog, projected_note, projection_fault, publish_error,
    store_with_projection, token_error, CatalogModel, TokenModel,
};
use super::coverage::{covers, law_coverage_is_at_most_the_body, lemma_covered_gap};
use super::error::FreeSemanticError;
use super::identity::is_identity;
use super::manifest::ManifestModel;
use super::note::{note_error, policy_ok, ChunkingPolicy, NoteModel};
use super::pieces::{
    block_pieces, body_piece, is_body_piece, law_body_pieces_are_parts_of_the_body, note_pieces,
    title_pieces, Piece,
};
use super::projection::{
    chunk_id_of, chunk_of, content_count, content_digest, indexed_pieces, lemma_content_count_bound,
    logical_id, max_end, omitted_from, piece_ranges, projection_error, projection_of,
    revision_digest, same_content, ChunkModel, ProjectionModel,
};
use super::ranking::{
    crowded_out, is_candidate, is_ranking, law_ranking_order_is_total, one_per_note, ranked_of,
    ranks_before, stands_for, RankInput, RankedModel,
};
use super::request::{lease_ok, LeaseModel};
use super::store::{
    chunk_at, chunk_keys, id_set, ids_of, law_with_note, law_without_note, lemma_chunk_at, store_ok,
    without_note, StoreModel,
};
use crate::digest::{
    are_countable, collides, law_digest_binds_its_fields, lemma_digest_bytes,
    lemma_text_bytes, message, sha256_has_32_bytes,
};
use crate::text::{
    byte_len, decimal, lemma_byte_len_is_encoded_len, lemma_byte_off_mono, lemma_decimal_injective,
    lemma_encoded_subrange,
};

verus! {

/// Every chunk of a body is, byte for byte, the part of the body that its
/// range names; a chunk without a range is the title.
pub proof fn law_chunk_text_is_its_range(note: NoteModel, policy: ChunkingPolicy, i: int)
    requires
        policy_ok(policy),
        0 <= i < projection_of(note, policy).chunks.len(),
    ensures
        ({
            let c = projection_of(note, policy).chunks[i];
            match c.body_range {
                Some((lo, hi)) => {
                    &&& c.kind != ChunkKind::Title
                    &&& lo < hi <= byte_len(note.body)
                    &&& encode_utf8(c.text) == encode_utf8(note.body).subrange(lo as int, hi as int)
                },
                None => c.kind == ChunkKind::Title && c.text == crate::text::trim(note.title),
            }
        }),
{
    let pieces = indexed_pieces(note, policy);
    let all = note_pieces(note, policy);
    let head = title_pieces(note.title);
    let tail = block_pieces(note.body, body_blocks(note.body), policy);
    let p = pieces[i];
    assert(p == all[i]);
    if i < head.len() {
        assert(all[i] == head[i]);
    } else {
        let s = note.body;
        law_body_pieces_are_parts_of_the_body(s, policy);
        super::blocks::law_blocks_are_disjoint_and_ordered(s);
        super::pieces::lemma_piece_kinds(s, body_blocks(s), policy);
        assert(all[i] == tail[i - head.len()]);
        assert(is_body_piece(s, tail[i - head.len()]));
        let (from, lo, hi) = choose|from: int, lo: int, hi: int|
            #![trigger body_piece(s, p.kind, from, lo, hi)]
            0 <= from <= lo < hi <= s.len() && p == body_piece(s, p.kind, from, lo, hi);
        lemma_encoded_subrange(s, lo, hi);
        lemma_byte_off_mono(s, lo, hi);
        lemma_byte_len_is_encoded_len(s);
    }
}

/// A note never has more chunks than the policy allows, nor a chunk that is
/// larger, and what is indexed of it is at most its body.
pub proof fn law_projection_is_bounded(note: NoteModel, policy: ChunkingPolicy)
    requires
        projection_error(note, policy) is None,
    ensures
        projection_of(note, policy).chunks.len() <= policy.max_chunks_per_note,
        forall|i: int|
            0 <= i < projection_of(note, policy).chunks.len() ==> byte_len(
                (#[trigger] projection_of(note, policy).chunks[i]).text,
            ) <= policy.max_chunk_bytes,
        projection_of(note, policy).indexed_body_bytes <= byte_len(note.body),
{
    let pieces = indexed_pieces(note, policy);
    law_coverage_is_at_most_the_body(piece_ranges(pieces), byte_len(note.body) as int);
    assert forall|i: int| 0 <= i < projection_of(note, policy).chunks.len() implies byte_len(
        (#[trigger] projection_of(note, policy).chunks[i]).text,
    ) <= policy.max_chunk_bytes by {
        assert(pieces[i].text == projection_of(note, policy).chunks[i].text);
    }
}

/// A piece counts itself, so the count behind it is larger than before it.
proof fn lemma_count_grows(pieces: Seq<Piece>, i: int, n: int)
    requires
        0 <= i < n <= pieces.len(),
    ensures
        content_count(pieces, i, pieces[i]) < content_count(pieces, n, pieces[i]),
    decreases n - i,
{
    if n > i + 1 {
        lemma_count_grows(pieces, i, n - 1);
    }
}

proof fn lemma_kind_tags_differ(a: ChunkKind, b: ChunkKind)
    requires
        kind_tag(a) == kind_tag(b),
    ensures
        a == b,
{
    reveal_strlit("title");
    reveal_strlit("heading");
    reveal_strlit("paragraph");
    reveal_strlit("code");
    assert("title"@.len() == 5);
    assert("heading"@.len() == 7);
    assert("paragraph"@.len() == 9);
    assert("code"@.len() == 4);
}

/// The fields behind a logical identity.
pub open spec fn logical_fields(
    vault_id: Seq<char>,
    note_id: Seq<char>,
    kind: ChunkKind,
    content: Seq<char>,
    occurrence: nat,
    revision: Option<Seq<char>>,
) -> Seq<Seq<char>> {
    match revision {
        Some(r) => seq![vault_id, note_id, kind_tag(kind), content, decimal(occurrence), r],
        None => seq![vault_id, note_id, kind_tag(kind), content, decimal(occurrence)],
    }
}

/// The domain of a logical identity.
pub open spec fn logical_domain(revision: Option<Seq<char>>) -> Seq<char> {
    match revision {
        Some(r) => "ambiguous-logical-chunk-v2"@,
        None => "logical-chunk-v2"@,
    }
}

/// The message that is hashed for a logical identity.
pub open spec fn logical_message(
    vault_id: Seq<char>,
    note_id: Seq<char>,
    kind: ChunkKind,
    content: Seq<char>,
    occurrence: nat,
    revision: Option<Seq<char>>,
) -> Seq<u8> {
    message(
        logical_domain(revision),
        logical_fields(vault_id, note_id, kind, content, occurrence, revision),
    )
}

/// A logical identity names all that it is made of: two are the same only if
/// vault, note, kind, content, occurrence and revision are, unless SHA-256 gives
/// their two messages the same hash.
pub proof fn law_logical_identity_names_its_parts(
    vault1: Seq<char>,
    note1: Seq<char>,
    kind1: ChunkKind,
    content1: Seq<char>,
    occurrence1: nat,
    revision1: Option<Seq<char>>,
    vault2: Seq<char>,
    note2: Seq<char>,
    kind2: ChunkKind,
    content2: Seq<char>,
    occurrence2: nat,
    revision2: Option<Seq<char>>,
)
    requires
        are_countable(logical_fields(vault1, note1, kind1, content1, occurrence1, revision1)),
        are_countable(logical_fields(vault2, note2, kind2, content2, occurrence2, revision2)),
        logical_id(vault1, note1, kind1, content1, occurrence1, revision1) == logical_id(
            vault2,
            note2,
            kind2,
            content2,
            occurrence2,
            revision2,
        ),
    ensures
        (vault1 == vault2 && note1 == note2 && kind1 == kind2 && content1 == content2 && occurrence1
            == occurrence2 && revision1 == revision2) || collides(
            logical_message(vault1, note1, kind1, content1, occurrence1, revision1),
            logical_message(vault2, note2, kind2, content2, occurrence2, revision2),
        ),
{
    let fa = logical_fields(vault1, note1, kind1, content1, occurrence1, revision1);
    let fb = logical_fields(vault2, note2, kind2, content2, occurrence2, revision2);
    let da = logical_domain(revision1);
    let db = logical_domain(revision2);
    reveal_strlit("ambiguous-logical-chunk-v2");
    reveal_strlit("logical-chunk-v2");
    lemma_text_bytes(da);
    lemma_text_bytes(db);
    law_digest_binds_its_fields(da, fa, db, fb);
    if fa == fb && da == db {
        assert(fa[0] == fb[0] && fa[1] == fb[1] && fa[2] == fb[2] && fa[3] == fb[3] && fa[4]
            == fb[4]);
        assert(fa.len() == fb.len());
        if revision1 is Some {
            assert(fa[5] == fb[5]);
        }
        lemma_kind_tags_differ(kind1, kind2);
        lemma_decimal_injective(occurrence1, occurrence2);
    }
}

/// The revision that the identity of a piece is bound to: that of the note where
/// another piece has the same content.
pub open spec fn bound_revision(note: NoteModel, pieces: Seq<Piece>, i: int) -> Option<Seq<char>> {
    if content_count(pieces, pieces.len() as int, pieces[i]) > 1 {
        Some(revision_digest(note))
    } else {
        None
    }
}

/// The message that is hashed for the identity of a chunk.
pub open spec fn identity_message(note: NoteModel, policy: ChunkingPolicy, i: int) -> Seq<u8> {
    let pieces = indexed_pieces(note, policy);
    logical_message(
        note.vault_id,
        note.note_id,
        pieces[i].kind,
        content_digest(pieces[i].text),
        content_count(pieces, i, pieces[i]),
        bound_revision(note, pieces, i),
    )
}

/// The message that is hashed for a text.
pub open spec fn content_message(text: Seq<char>) -> Seq<u8> {
    message("chunk-content-v1"@, seq![text])
}

/// The message that is hashed for a revision of a note.
pub open spec fn revision_message(note: NoteModel) -> Seq<u8> {
    message("note-revision-v1"@, seq![note.vault_id, note.note_id, note.title, note.body])
}

/// What two chunks have in common that have the same identity.
proof fn lemma_same_identity(
    note1: NoteModel,
    policy1: ChunkingPolicy,
    i: int,
    note2: NoteModel,
    policy2: ChunkingPolicy,
    j: int,
)
    requires
        sha256_has_32_bytes(),
        note_error(note1) is None,
        note_error(note2) is None,
        projection_error(note1, policy1) is None,
        projection_error(note2, policy2) is None,
        0 <= i < projection_of(note1, policy1).chunks.len(),
        0 <= j < projection_of(note2, policy2).chunks.len(),
        projection_of(note1, policy1).chunks[i].chunk_id == projection_of(
            note2,
            policy2,
        ).chunks[j].chunk_id || projection_of(note1, policy1).chunks[i].logical_id
            == projection_of(note2, policy2).chunks[j].logical_id,
        !collides(identity_message(note1, policy1, i), identity_message(note2, policy2, j)),
    ensures
        note1.vault_id == note2.vault_id,
        note1.note_id == note2.note_id,
        same_content(indexed_pieces(note1, policy1)[i], indexed_pieces(note2, policy2)[j]),
        content_count(
            indexed_pieces(note1, policy1),
            i,
            indexed_pieces(note1, policy1)[i],
        ) == content_count(
            indexed_pieces(note2, policy2),
            j,
            indexed_pieces(note2, policy2)[j],
        ),
        bound_revision(note1, indexed_pieces(note1, policy1), i) == bound_revision(
            note2,
            indexed_pieces(note2, policy2),
            j,
        ),
{
    let p = indexed_pieces(note1, policy1);
    let q = indexed_pieces(note2, policy2);
    let x = chunk_of(note1, p, i);
    let y = chunk_of(note2, q, j);
    assert(x.logical_id == y.logical_id) by {
        assert(chunk_id_of(x.logical_id).skip("pc2:"@.len() as int) =~= x.logical_id);
        assert(chunk_id_of(y.logical_id).skip("pc2:"@.len() as int) =~= y.logical_id);
    }
    lemma_identity_is_countable(note1, policy1, i);
    lemma_identity_is_countable(note2, policy2, j);
    law_logical_identity_names_its_parts(
        note1.vault_id,
        note1.note_id,
        p[i].kind,
        content_digest(p[i].text),
        content_count(p, i, p[i]),
        bound_revision(note1, p, i),
        note2.vault_id,
        note2.note_id,
        q[j].kind,
        content_digest(q[j].text),
        content_count(q, j, q[j]),
        bound_revision(note2, q, j),
    );
}

proof fn lemma_identity_is_countable(note: NoteModel, policy: ChunkingPolicy, i: int)
    requires
        sha256_has_32_bytes(),
        note_error(note) is None,
        projection_error(note, policy) is None,
        0 <= i < indexed_pieces(note, policy).len(),
    ensures
        ({
            let pieces = indexed_pieces(note, policy);
            are_countable(
                logical_fields(
                    note.vault_id,
                    note.note_id,
                    pieces[i].kind,
                    content_digest(pieces[i].text),
                    content_count(pieces, i, pieces[i]),
                    bound_revision(note, pieces, i),
                ),
            )
        }),
{
    let pieces = indexed_pieces(note, policy);
    let n = content_count(pieces, i, pieces[i]);
    lemma_digest_bytes("chunk-content-v1"@, seq![pieces[i].text]);
    lemma_digest_bytes(
        "note-revision-v1"@,
        seq![note.vault_id, note.note_id, note.title, note.body],
    );
    lemma_content_count_bound(pieces, i, pieces[i]);
    reveal_with_fuel(decimal, 4);
    assert(decimal(n).len() <= 3);
    lemma_text_bytes(decimal(n));
    reveal_strlit("title");
    reveal_strlit("heading");
    reveal_strlit("paragraph");
    reveal_strlit("code");
    lemma_text_bytes(kind_tag(pieces[i].kind));
}

/// The identities of the chunks of one projection differ, as long as SHA-256
/// tells them apart: duplicates of a text differ in their occurrence.
pub proof fn law_chunk_identities_differ(note: NoteModel, policy: ChunkingPolicy, i: int, j: int)
    requires
        sha256_has_32_bytes(),
        note_error(note) is None,
        projection_error(note, policy) is None,
        0 <= i < j < projection_of(note, policy).chunks.len(),
        !collides(identity_message(note, policy, i), identity_message(note, policy, j)),
    ensures
        projection_of(note, policy).chunks[i].chunk_id != projection_of(
            note,
            policy,
        ).chunks[j].chunk_id,
{
    let pieces = indexed_pieces(note, policy);
    if projection_of(note, policy).chunks[i].chunk_id == projection_of(
        note,
        policy,
    ).chunks[j].chunk_id {
        lemma_same_identity(note, policy, i, note, policy, j);
        lemma_same_count(pieces, j, pieces[i], pieces[j]);
        lemma_count_grows(pieces, i, j);
    }
}

/// The chunks of different notes, or of different vaults, have different
/// identities, as long as SHA-256 tells them apart.
pub proof fn law_identities_of_notes_differ(
    note1: NoteModel,
    policy1: ChunkingPolicy,
    i: int,
    note2: NoteModel,
    policy2: ChunkingPolicy,
    j: int,
)
    requires
        sha256_has_32_bytes(),
        note_error(note1) is None,
        note_error(note2) is None,
        projection_error(note1, policy1) is None,
        projection_error(note2, policy2) is None,
        note1.vault_id != note2.vault_id || note1.note_id != note2.note_id,
        0 <= i < projection_of(note1, policy1).chunks.len(),
        0 <= j < projection_of(note2, policy2).chunks.len(),
        !collides(identity_message(note1, policy1, i), identity_message(note2, policy2, j)),
    ensures
        projection_of(note1, policy1).chunks[i].chunk_id != projection_of(
            note2,
            policy2,
        ).chunks[j].chunk_id,
{
    if projection_of(note1, policy1).chunks[i].chunk_id == projection_of(
        note2,
        policy2,
    ).chunks[j].chunk_id {
        lemma_same_identity(note1, policy1, i, note2, policy2, j);
    }
}

/// How many of the first `n` pieces have the kind and the text of a piece.
pub open spec fn text_count(pieces: Seq<Piece>, n: int, p: Piece) -> nat
    decreases n,
{
    if n <= 0 {
        0
    } else {
        text_count(pieces, n - 1, p) + if pieces[n - 1].kind == p.kind && pieces[n - 1].text
            == p.text {
            1nat
        } else {
            0nat
        }
    }
}

/// Whether SHA-256 tells the text of a piece from those of others.
pub open spec fn is_told_apart(pieces: Seq<Piece>, p: Piece) -> bool {
    forall|k: int|
        0 <= k < pieces.len() ==> !collides(
            content_message((#[trigger] pieces[k]).text),
            content_message(p.text),
        )
}

proof fn lemma_counts_agree(note: NoteModel, policy: ChunkingPolicy, n: int, i: int)
    requires
        projection_error(note, policy) is None,
        0 <= i < indexed_pieces(note, policy).len(),
        0 <= n <= indexed_pieces(note, policy).len(),
        is_told_apart(indexed_pieces(note, policy), indexed_pieces(note, policy)[i]),
    ensures
        content_count(
            indexed_pieces(note, policy),
            n,
            indexed_pieces(note, policy)[i],
        ) == text_count(indexed_pieces(note, policy), n, indexed_pieces(note, policy)[i]),
    decreases n,
{
    if n > 0 {
        let pieces = indexed_pieces(note, policy);
        let p = pieces[i];
        let q = pieces[n - 1];
        lemma_counts_agree(note, policy, n - 1, i);
        if content_digest(q.text) == content_digest(p.text) {
            reveal_strlit("chunk-content-v1");
            lemma_text_bytes("chunk-content-v1"@);
            assert(byte_len(q.text) <= policy.max_chunk_bytes);
            assert(byte_len(p.text) <= policy.max_chunk_bytes);
            law_digest_binds_its_fields(
                "chunk-content-v1"@,
                seq![q.text],
                "chunk-content-v1"@,
                seq![p.text],
            );
            assert(seq![q.text][0] == seq![p.text][0]);
        }
    }
}

/// The occurrence of a chunk is the number of chunks before it with its kind and
/// text, as long as SHA-256 tells texts apart.
pub proof fn law_occurrence_counts_duplicates(note: NoteModel, policy: ChunkingPolicy, i: int)
    requires
        projection_error(note, policy) is None,
        0 <= i < projection_of(note, policy).chunks.len(),
        is_told_apart(indexed_pieces(note, policy), indexed_pieces(note, policy)[i]),
    ensures
        projection_of(note, policy).chunks[i].occurrence == text_count(
            indexed_pieces(note, policy),
            i,
            indexed_pieces(note, policy)[i],
        ),
{
    lemma_counts_agree(note, policy, i, i);
}

proof fn lemma_text_count_of_one(pieces: Seq<Piece>, i: int, n: int)
    requires
        0 <= i < pieces.len(),
        0 <= n <= pieces.len(),
        forall|k: int|
            0 <= k < pieces.len() && k != i ==> (#[trigger] pieces[k]).kind != pieces[i].kind
                || pieces[k].text != pieces[i].text,
    ensures
        text_count(pieces, n, pieces[i]) == if i < n {
            1nat
        } else {
            0
        },
    decreases n,
{
    if n > 0 {
        lemma_text_count_of_one(pieces, i, n - 1);
    }
}

/// Whether no other piece has the kind and the text of a piece.
pub open spec fn is_single(pieces: Seq<Piece>, i: int) -> bool {
    forall|k: int|
        0 <= k < pieces.len() && k != i ==> (#[trigger] pieces[k]).kind != pieces[i].kind
            || pieces[k].text != pieces[i].text
}

/// An unchanged chunk keeps its identity, wherever it moved: where two revisions
/// of a note, each with its own policy, hold a piece of the same kind and text,
/// once each, it has the same logical identity, the same chunk identity and the
/// same content digest in both, as long as SHA-256 tells texts apart.
pub proof fn law_unchanged_chunk_keeps_its_identity(
    before: NoteModel,
    policy1: ChunkingPolicy,
    i: int,
    after: NoteModel,
    policy2: ChunkingPolicy,
    j: int,
)
    requires
        before.vault_id == after.vault_id,
        before.note_id == after.note_id,
        projection_error(before, policy1) is None,
        projection_error(after, policy2) is None,
        0 <= i < indexed_pieces(before, policy1).len(),
        0 <= j < indexed_pieces(after, policy2).len(),
        indexed_pieces(before, policy1)[i].kind == indexed_pieces(after, policy2)[j].kind,
        indexed_pieces(before, policy1)[i].text == indexed_pieces(after, policy2)[j].text,
        is_single(indexed_pieces(before, policy1), i),
        is_single(indexed_pieces(after, policy2), j),
        is_told_apart(indexed_pieces(before, policy1), indexed_pieces(before, policy1)[i]),
        is_told_apart(indexed_pieces(after, policy2), indexed_pieces(after, policy2)[j]),
    ensures
        ({
            let x = projection_of(before, policy1).chunks[i];
            let y = projection_of(after, policy2).chunks[j];
            &&& x.logical_id == y.logical_id
            &&& x.chunk_id == y.chunk_id
            &&& x.content_digest == y.content_digest
        }),
{
    let p = indexed_pieces(before, policy1);
    let q = indexed_pieces(after, policy2);
    lemma_counts_agree(before, policy1, i, i);
    lemma_counts_agree(before, policy1, p.len() as int, i);
    lemma_counts_agree(after, policy2, j, j);
    lemma_counts_agree(after, policy2, q.len() as int, j);
    lemma_text_count_of_one(p, i, i);
    lemma_text_count_of_one(p, i, p.len() as int);
    lemma_text_count_of_one(q, j, j);
    lemma_text_count_of_one(q, j, q.len() as int);
}

/// Another title or another body is another revision, as long as SHA-256 tells
/// the two revisions apart.
pub proof fn law_changed_note_has_another_revision(before: NoteModel, after: NoteModel)
    requires
        note_error(before) is None,
        note_error(after) is None,
        before.title != after.title || before.body != after.body,
        !collides(revision_message(before), revision_message(after)),
    ensures
        revision_digest(before) != revision_digest(after),
{
    let x = seq![before.vault_id, before.note_id, before.title, before.body];
    let y = seq![after.vault_id, after.note_id, after.title, after.body];
    if revision_digest(before) == revision_digest(after) {
        reveal_strlit("note-revision-v1");
        lemma_text_bytes("note-revision-v1"@);
        law_digest_binds_its_fields("note-revision-v1"@, x, "note-revision-v1"@, y);
        assert(x[2] == y[2] && x[3] == y[3]);
    }
}

/// Duplicated passages are scoped to their revision: where a chunk is not the
/// only one of its kind and text, no chunk of another revision has its logical
/// identity or its chunk identity, as long as SHA-256 tells the revisions and
/// the two chunks apart.
pub proof fn law_duplicates_are_scoped_to_their_revision(
    before: NoteModel,
    policy1: ChunkingPolicy,
    i: int,
    twin: int,
    after: NoteModel,
    policy2: ChunkingPolicy,
    j: int,
)
    requires
        sha256_has_32_bytes(),
        note_error(before) is None,
        note_error(after) is None,
        projection_error(before, policy1) is None,
        projection_error(after, policy2) is None,
        before.title != after.title || before.body != after.body,
        0 <= i < indexed_pieces(before, policy1).len(),
        0 <= twin < indexed_pieces(before, policy1).len(),
        twin != i,
        indexed_pieces(before, policy1)[twin].kind == indexed_pieces(before, policy1)[i].kind,
        indexed_pieces(before, policy1)[twin].text == indexed_pieces(before, policy1)[i].text,
        0 <= j < indexed_pieces(after, policy2).len(),
        !collides(revision_message(before), revision_message(after)),
        !collides(identity_message(before, policy1, i), identity_message(after, policy2, j)),
    ensures
        projection_of(before, policy1).chunks[i].logical_id != projection_of(
            after,
            policy2,
        ).chunks[j].logical_id,
        projection_of(before, policy1).chunks[i].chunk_id != projection_of(
            after,
            policy2,
        ).chunks[j].chunk_id,
{
    let p = indexed_pieces(before, policy1);
    let x = projection_of(before, policy1).chunks[i];
    let y = projection_of(after, policy2).chunks[j];
    let n = p.len() as int;
    if i < twin {
        lemma_count_grows(p, i, twin);
        lemma_count_grows(p, twin, n);
        lemma_same_count(p, twin, p[i], p[twin]);
        lemma_same_count(p, n, p[i], p[twin]);
    } else {
        lemma_count_grows(p, twin, i);
        lemma_count_grows(p, i, n);
        lemma_same_count(p, i, p[twin], p[i]);
    }
    if x.logical_id == y.logical_id || x.chunk_id == y.chunk_id {
        lemma_same_identity(before, policy1, i, after, policy2, j);
        law_changed_note_has_another_revision(before, after);
    }
}

/// Pieces with the same content are counted alike.
proof fn lemma_same_count(pieces: Seq<Piece>, n: int, a: Piece, b: Piece)
    requires
        same_content(a, b),
    ensures
        content_count(pieces, n, a) == content_count(pieces, n, b),
    decreases n,
{
    if n > 0 {
        lemma_same_count(pieces, n - 1, a, b);
    }
}

/// A projection enters a vault exactly if it is what the projector makes of the
/// title and the body that it names, of a valid note of that vault whose title
/// has no null character, as long as SHA-256 tells its chunks apart.
pub proof fn law_valid_projection_is_the_projectors(p: ProjectionModel, vault_id: Seq<char>)
    requires
        sha256_has_32_bytes(),
        is_identity(vault_id),
        forall|i: int, j: int|
            0 <= i < j < indexed_pieces(projected_note(p), p.chunking_policy).len()
                ==> !collides(
                #[trigger] identity_message(projected_note(p), p.chunking_policy, i),
                #[trigger] identity_message(projected_note(p), p.chunking_policy, j),
            ),
    ensures
        projection_fault(p, vault_id) is None <==> {
            &&& p.vault_id == vault_id
            &&& !p.canonical_title.contains('\0')
            &&& note_error(projected_note(p)) is None
            &&& projection_error(projected_note(p), p.chunking_policy) is None
            &&& p == projection_of(projected_note(p), p.chunking_policy)
        },
{
    let note = projected_note(p);
    if note_error(note) is None && projection_error(note, p.chunking_policy) is None && p
        == projection_of(note, p.chunking_policy) {
        assert forall|i: int, j: int| 0 <= i < j < p.chunks.len() implies (
        #[trigger] p.chunks[i]).chunk_id != (#[trigger] p.chunks[j]).chunk_id by {
            assert(!collides(
                identity_message(note, p.chunking_policy, i),
                identity_message(note, p.chunking_policy, j),
            ));
            law_chunk_identities_differ(note, p.chunking_policy, i, j);
        }
    }
}

/// A publication that is not refused advances the generation by exactly one,
/// and spends every token of the generation before.
pub proof fn law_publication_advances_by_one(
    m: CatalogModel,
    store: StoreModel,
    manifest: ManifestModel,
    token: TokenModel,
    held: TokenModel,
)
    requires
        token_error(token, m) is None,
        m.generation < u64::MAX,
        held.vault_id == m.vault_id,
        held.expected_generation == m.generation,
        !held.cancelled,
    ensures
        next_catalog(m, store, manifest).generation == m.generation + 1,
        token_error(held, next_catalog(m, store, manifest)) == Some(
            FreeSemanticError::StalePublication {
                expected: m.generation,
                actual: (m.generation + 1) as u64,
            },
        ),
{
}

/// A published note is found again: each of its chunks by its identity, and
/// what is listed for the note are exactly the identities of its chunks.
pub proof fn law_published_chunks_are_found(
    m: CatalogModel,
    token: TokenModel,
    p: ProjectionModel,
    manifest: ManifestModel,
    i: int,
)
    requires
        catalog_ok(m),
        publish_error(m, token, p, manifest) is None,
        0 <= i < p.chunks.len(),
    ensures
        chunk_at(store_with_projection(m.store, p), p.chunks[i].chunk_id) == Some(p.chunks[i]),
        ids_of(store_with_projection(m.store, p), p.note_id) == id_set(p.chunks),
{
    let note = projected_note(p);
    let pieces = indexed_pieces(note, p.chunking_policy);
    assert forall|k: int| 0 <= k < p.chunks.len() implies (#[trigger] p.chunks[k]).note_id
        == p.note_id by {
        assert(p.chunks[k] == chunk_of(note, pieces, k));
    }
    let base = without_note(m.store, p.note_id);
    law_without_note(m.store, p.note_id);
    law_with_note(base, p.note_id, p.chunks);
    super::store::lemma_put_chunks_holds(base.chunks, p.chunks, i);
    let after = store_with_projection(m.store, p);
    let k = choose|k: int| 0 <= k < after.chunks.len() && after.chunks[k] == p.chunks[i];
    lemma_chunk_at(after, p.chunks[i].chunk_id);
    assert(after.chunks[k].chunk_id == p.chunks[i].chunk_id);
}

/// A publication leaves the chunks of other notes as they were, unless one of
/// its own chunks has the identity of theirs.
pub proof fn law_publication_leaves_other_notes(
    m: CatalogModel,
    token: TokenModel,
    p: ProjectionModel,
    manifest: ManifestModel,
    c: ChunkModel,
)
    requires
        catalog_ok(m),
        publish_error(m, token, p, manifest) is None,
        m.store.chunks.contains(c),
        !ids_of(m.store, p.note_id).contains(c.chunk_id),
        !chunk_keys(p.chunks).contains(c.chunk_id),
    ensures
        store_with_projection(m.store, p).chunks.contains(c),
{
    let note = projected_note(p);
    let pieces = indexed_pieces(note, p.chunking_policy);
    assert forall|k: int| 0 <= k < p.chunks.len() implies (#[trigger] p.chunks[k]).note_id
        == p.note_id by {
        assert(p.chunks[k] == chunk_of(note, pieces, k));
    }
    law_without_note(m.store, p.note_id);
    law_with_note(without_note(m.store, p.note_id), p.note_id, p.chunks);
}

/// A removed note leaves nothing behind: no chunk of it is stored, and none is
/// listed for it.
pub proof fn law_removed_note_is_gone(m: CatalogModel, note_id: Seq<char>, c: ChunkModel)
    requires
        catalog_ok(m),
        without_note(m.store, note_id).chunks.contains(c),
    ensures
        c.note_id != note_id,
        ids_of(without_note(m.store, note_id), note_id).len() == 0,
{
    law_without_note(m.store, note_id);
}

/// A lease does not outlive its generation.
pub proof fn law_lease_expires_with_its_generation(
    lease: LeaseModel,
    vault_id: Seq<char>,
    generation: u64,
    manifest: ManifestModel,
    later: u64,
    later_manifest: ManifestModel,
)
    requires
        lease_ok(lease, vault_id, generation, manifest),
        later != generation,
    ensures
        !lease_ok(lease, vault_id, later, later_manifest),
{
}

/// The note that a search came from is never in its ranking, and no note is
/// in it twice.
pub proof fn law_ranking_leaves_out_the_origin(
    out: Seq<RankedModel>,
    x: RankInput,
    limit: int,
    i: int,
    j: int,
)
    requires
        is_ranking(out, x, limit),
        0 <= i < out.len(),
        0 <= j < out.len(),
    ensures
        x.origin != Some(out[i].note_id),
        out[i].note_id == out[j].note_id ==> i == j,
        out.len() <= limit,
{
    reveal(one_per_note);
    let c = choose|c: ChunkModel| is_candidate(x, c) && out[i] == #[trigger] ranked_of(x, c);
    assert(is_candidate(x, c));
    if i < j {
        assert(out[i].note_id != out[j].note_id);
    }
    if j < i {
        assert(out[j].note_id != out[i].note_id);
    }
}

/// What a ranking holds at a place, another ranking of the same input holds or
/// has something else in front of: the hit is found in it, not before the
/// place from which on they may differ, or everything in it comes first.
proof fn lemma_rankings_meet(
    a: Seq<RankedModel>,
    b: Seq<RankedModel>,
    x: RankInput,
    limit: int,
    i: int,
) -> (k: Option<int>)
    requires
        store_ok(x.store),
        is_ranking(a, x, limit),
        is_ranking(b, x, limit),
        0 <= i < a.len(),
        i <= b.len(),
        forall|m: int| 0 <= m < i ==> a[m] == b[m],
    ensures
        match k {
            Some(n) => i <= n < b.len() && b[n] == a[i],
            None => b.len() == limit && forall|m: int|
                0 <= m < b.len() ==> ranks_before(#[trigger] b[m], a[i]),
        },
{
    reveal(one_per_note);
    let c = choose|c: ChunkModel| is_candidate(x, c) && a[i] == #[trigger] ranked_of(x, c);
    assert(is_candidate(x, c));
    if stands_for(b, x, c) {
        let n = choose|n: int|
            0 <= n < b.len() && (#[trigger] b[n]).note_id == c.note_id && !ranks_before(
                ranked_of(x, c),
                b[n],
            );
        if n < i {
            assert(a[n] == b[n]);
            assert(a[n].note_id != a[i].note_id);
        }
        let d = choose|d: ChunkModel| is_candidate(x, d) && b[n] == #[trigger] ranked_of(x, d);
        assert(is_candidate(x, d));
        assert(!ranks_before(b[n], a[i])) by {
            if stands_for(a, x, d) {
                let q = choose|q: int|
                    0 <= q < a.len() && (#[trigger] a[q]).note_id == d.note_id && !ranks_before(
                        ranked_of(x, d),
                        a[q],
                    );
                if q < i {
                    assert(a[q].note_id != a[i].note_id);
                }
                if i < q {
                    assert(a[i].note_id != a[q].note_id);
                }
            } else {
                assert(crowded_out(a, x, d, limit));
                assert(ranks_before(a[i], ranked_of(x, d)));
            }
        }
        law_ranking_order_is_total(a[i], b[n], b[n]);
        let u = choose|u: int| 0 <= u < x.store.chunks.len() && x.store.chunks[u] == c;
        let v = choose|v: int| 0 <= v < x.store.chunks.len() && x.store.chunks[v] == d;
        lemma_chunk_at(x.store, c.chunk_id);
        assert(x.store.chunks[u].chunk_id == c.chunk_id);
        assert(x.store.chunks[v].chunk_id == c.chunk_id);
        assert(c == d);
        Some(n)
    } else {
        assert(crowded_out(b, x, c, limit));
        None
    }
}

proof fn lemma_rankings_agree_at(
    a: Seq<RankedModel>,
    b: Seq<RankedModel>,
    x: RankInput,
    limit: int,
    i: int,
)
    requires
        store_ok(x.store),
        is_ranking(a, x, limit),
        is_ranking(b, x, limit),
        0 <= i < a.len(),
        i <= b.len(),
        forall|m: int| 0 <= m < i ==> a[m] == b[m],
    ensures
        i < b.len(),
        a[i] == b[i],
{
    let k = lemma_rankings_meet(a, b, x, limit, i);
    match k {
        Some(n) => {
            if n > i {
                assert(ranks_before(b[i], b[n]));
                let q = lemma_rankings_meet(b, a, x, limit, i);
                match q {
                    Some(p) => {
                        if p > i {
                            assert(ranks_before(a[i], a[p]));
                        }
                        law_ranking_order_is_total(a[i], b[i], a[i]);
                    },
                    None => {
                        assert(ranks_before(a[i], b[i]));
                        law_ranking_order_is_total(a[i], b[i], a[i]);
                    },
                }
            }
        },
        None => {
            assert(i < b.len());
            assert(ranks_before(b[i], a[i]));
            let q = lemma_rankings_meet(b, a, x, limit, i);
            match q {
                Some(p) => {
                    if p > i {
                        assert(ranks_before(a[i], a[p]));
                    }
                    law_ranking_order_is_total(a[i], b[i], a[i]);
                },
                None => {
                    assert(ranks_before(a[i], b[i]));
                    law_ranking_order_is_total(a[i], b[i], a[i]);
                },
            }
        },
    }
}

proof fn lemma_rankings_agree_up_to(
    a: Seq<RankedModel>,
    b: Seq<RankedModel>,
    x: RankInput,
    limit: int,
    n: int,
)
    requires
        store_ok(x.store),
        is_ranking(a, x, limit),
        is_ranking(b, x, limit),
        0 <= n <= a.len(),
    ensures
        n <= b.len(),
        forall|m: int| 0 <= m < n ==> a[m] == b[m],
    decreases n,
{
    if n > 0 {
        lemma_rankings_agree_up_to(a, b, x, limit, n - 1);
        lemma_rankings_agree_at(a, b, x, limit, n - 1);
    }
}

/// Ranking is deterministic: a request has one ranking.
pub proof fn law_ranking_is_unique(
    a: Seq<RankedModel>,
    b: Seq<RankedModel>,
    x: RankInput,
    limit: int,
)
    requires
        store_ok(x.store),
        is_ranking(a, x, limit),
        is_ranking(b, x, limit),
    ensures
        a == b,
{
    lemma_rankings_agree_up_to(a, b, x, limit, a.len() as int);
    lemma_rankings_agree_up_to(b, a, x, limit, b.len() as int);
    assert(a =~= b);
}

/// The greatest end of pieces is the floor or the end of one of them.
pub proof fn lemma_max_end(pieces: Seq<Piece>, n: int, floor: nat)
    requires
        0 <= n <= pieces.len(),
    ensures
        floor <= max_end(pieces, n, floor),
        forall|k: int|
            0 <= k < n ==> ((#[trigger] pieces[k]).range matches Some((lo, hi)) ==> hi <= max_end(
                pieces,
                n,
                floor,
            )),
        max_end(pieces, n, floor) == floor || exists|k: int|
            0 <= k < n && (#[trigger] pieces[k].range matches Some((lo, hi)) && hi == max_end(
                pieces,
                n,
                floor,
            )),
    decreases n,
{
    if n > 0 {
        lemma_max_end(pieces, n - 1, floor);
        let before = max_end(pieces, n - 1, floor);
        let now = max_end(pieces, n, floor);
        if now != before {
            assert(pieces[n - 1].range matches Some((lo, hi)) && hi == now);
        } else if before != floor {
            let k = choose|k: int|
                0 <= k < n - 1 && (#[trigger] pieces[k].range matches Some((lo, hi)) && hi
                    == before);
            assert(pieces[k].range matches Some((lo, hi)) && hi == now);
        }
    }
}

/// A partial projection says truthfully what it leaves out: the byte that it
/// names lies within the body, and all that is indexed lies before it.
pub proof fn law_partial_projection_is_truthful(note: NoteModel, policy: ChunkingPolicy, from: nat)
    requires
        policy_ok(policy),
        omitted_from(note, policy) == Some(from),
    ensures
        from < byte_len(note.body),
        projection_of(note, policy).indexed_body_bytes <= from,
        forall|i: int|
            0 <= i < projection_of(note, policy).chunks.len() ==> ((
            #[trigger] projection_of(note, policy).chunks[i]).body_range matches Some((lo, hi))
                ==> hi <= from),
{
    let all = note_pieces(note, policy);
    let n = policy.max_chunks_per_note as int;
    let s = note.body;
    let head = title_pieces(note.title);
    let tail = block_pieces(s, body_blocks(s), policy);
    let some = indexed_pieces(note, policy);
    let total = byte_len(s) as int;
    lemma_max_end(all, n, all[n].from);
    super::blocks::law_blocks_are_disjoint_and_ordered(s);
    super::pieces::lemma_piece_ends(s, body_blocks(s), policy);
    law_body_pieces_are_parts_of_the_body(s, policy);
    let last = tail[n - head.len()];
    assert(all[n] == last);
    assert(is_body_piece(s, last));
    let (f, lo, hi) = choose|f: int, lo: int, hi: int|
        #![trigger body_piece(s, last.kind, f, lo, hi)]
        0 <= f <= lo < hi <= s.len() && last == body_piece(s, last.kind, f, lo, hi);
    lemma_byte_off_mono(s, f, hi);
    lemma_byte_off_mono(s, hi, s.len() as int);
    if from != all[n].from {
        let k = choose|k: int|
            0 <= k < n && (#[trigger] all[k].range matches Some((p, q)) && q == from);
        if k < head.len() {
            assert(all[k] == head[k]);
        } else {
            assert(all[k] == tail[k - head.len()]);
        }
    }
    let ranges = piece_ranges(some);
    assert forall|k: int| from <= k < total implies !covers(ranges, k) by {
        if covers(ranges, k) {
            let i = choose|i: int|
                #![trigger ranges[i]]
                0 <= i < ranges.len() && (ranges[i] matches Some((p, q)) && p <= k < q);
            assert(ranges[i] == some[i].range);
            assert(some[i] == all[i]);
        }
    }
    lemma_covered_gap(ranges, from as int, total);
    law_coverage_is_at_most_the_body(ranges, from as int);
    assert forall|i: int| 0 <= i < projection_of(note, policy).chunks.len() implies ((
    #[trigger] projection_of(note, policy).chunks[i]).body_range matches Some((p, q)) ==> q
        <= from) by {
        assert(projection_of(note, policy).chunks[i].body_range == some[i].range);
        assert(some[i] == all[i]);
    }
}

} // verus!
