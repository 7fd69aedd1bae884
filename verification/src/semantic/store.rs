//! Chunks by identity and, for each note, the identities of its chunks.

use vstd::prelude::*;

use super::blocks::kind_tag;
use super::pieces::{range_view, BodyByteRange};
use super::projection::{chunk_views, clone_chunks, ChunkModel, ParagraphChunk};
use crate::digest::{digest, is_digest, sha256_digest, texts};
use crate::keys::{
    ascending, has_key, insert_text, lemma_has_key, lemma_place, lemma_place_unique,
    lemma_search_step, lemma_with_key, lemma_without_place, place, string_views, with_key,
};
use crate::text::{decimal, decimal_string, order_text, text_lt, TextOrder};

verus! {

/// A note and the ascending identities of its chunks.
#[verifier::ext_equal]
pub struct NoteIds {
    pub note_id: Seq<char>,
    pub chunk_ids: Seq<Seq<char>>,
}

/// The chunks, ascending by identity, and the notes, ascending by identity.
#[verifier::ext_equal]
pub struct StoreModel {
    pub chunks: Seq<ChunkModel>,
    pub notes: Seq<NoteIds>,
}

pub open spec fn chunk_keys(chunks: Seq<ChunkModel>) -> Seq<Seq<char>> {
    chunks.map_values(|c: ChunkModel| c.chunk_id)
}

pub open spec fn note_keys(notes: Seq<NoteIds>) -> Seq<Seq<char>> {
    notes.map_values(|n: NoteIds| n.note_id)
}

pub open spec fn empty_store() -> StoreModel {
    StoreModel { chunks: Seq::empty(), notes: Seq::empty() }
}

/// The chunk with an identity.
pub open spec fn chunk_at(store: StoreModel, id: Seq<char>) -> Option<ChunkModel> {
    if has_key(chunk_keys(store.chunks), id) {
        Some(store.chunks[place(chunk_keys(store.chunks), id)])
    } else {
        None
    }
}

/// The identities listed for a note.
pub open spec fn ids_of(store: StoreModel, note_id: Seq<char>) -> Seq<Seq<char>> {
    if has_key(note_keys(store.notes), note_id) {
        store.notes[place(note_keys(store.notes), note_id)].chunk_ids
    } else {
        Seq::empty()
    }
}

/// Both maps are ascending, and every chunk is listed under its own note.
pub open spec fn store_ok(store: StoreModel) -> bool {
    &&& ascending(chunk_keys(store.chunks))
    &&& ascending(note_keys(store.notes))
    &&& forall|i: int|
        0 <= i < store.notes.len() ==> ascending((#[trigger] store.notes[i]).chunk_ids)
    &&& forall|i: int|
        #![trigger store.chunks[i]]
        0 <= i < store.chunks.len() ==> ids_of(store, store.chunks[i].note_id).contains(
            store.chunks[i].chunk_id,
        )
}

pub open spec fn drop_chunk(chunks: Seq<ChunkModel>, id: Seq<char>) -> Seq<ChunkModel> {
    if has_key(chunk_keys(chunks), id) {
        chunks.remove(place(chunk_keys(chunks), id))
    } else {
        chunks
    }
}

pub open spec fn drop_chunks(chunks: Seq<ChunkModel>, ids: Seq<Seq<char>>) -> Seq<ChunkModel>
    decreases ids.len(),
{
    if ids.len() == 0 {
        chunks
    } else {
        drop_chunk(drop_chunks(chunks, ids.drop_last()), ids.last())
    }
}

/// The chunks with one put in, in place of one with the same identity.
pub open spec fn put_chunk(chunks: Seq<ChunkModel>, chunk: ChunkModel) -> Seq<ChunkModel> {
    let at = place(chunk_keys(chunks), chunk.chunk_id);
    if has_key(chunk_keys(chunks), chunk.chunk_id) {
        chunks.update(at, chunk)
    } else {
        chunks.insert(at, chunk)
    }
}

pub open spec fn put_chunks(chunks: Seq<ChunkModel>, new: Seq<ChunkModel>) -> Seq<ChunkModel>
    decreases new.len(),
{
    if new.len() == 0 {
        chunks
    } else {
        put_chunk(put_chunks(chunks, new.drop_last()), new.last())
    }
}

/// The ascending identities of chunks.
pub open spec fn id_set(chunks: Seq<ChunkModel>) -> Seq<Seq<char>>
    decreases chunks.len(),
{
    if chunks.len() == 0 {
        Seq::empty()
    } else {
        with_key(id_set(chunks.drop_last()), chunks.last().chunk_id)
    }
}

/// The store without a note and the chunks listed for it.
pub open spec fn without_note(store: StoreModel, note_id: Seq<char>) -> StoreModel {
    StoreModel {
        chunks: drop_chunks(store.chunks, ids_of(store, note_id)),
        notes: if has_key(note_keys(store.notes), note_id) {
            store.notes.remove(place(note_keys(store.notes), note_id))
        } else {
            store.notes
        },
    }
}

/// The store with chunks put in and listed for a note that has none yet; no
/// chunks leave it without an entry.
pub open spec fn with_note(
    store: StoreModel,
    note_id: Seq<char>,
    new: Seq<ChunkModel>,
) -> StoreModel {
    StoreModel {
        chunks: put_chunks(store.chunks, new),
        notes: if new.len() == 0 {
            store.notes
        } else {
            store.notes.insert(
                place(note_keys(store.notes), note_id),
                NoteIds { note_id, chunk_ids: id_set(new) },
            )
        },
    }
}

/// The digest of one stored chunk.
pub open spec fn chunk_entry_digest(chunk: ChunkModel) -> Seq<char> {
    digest(
        "catalog-chunk-entry-v1"@,
        seq![
            chunk.chunk_id,
            chunk.logical_id,
            chunk.vault_id,
            chunk.note_id,
            chunk.content_digest,
            chunk.note_revision_digest,
            kind_tag(chunk.kind),
            decimal(chunk.occurrence),
            range_text(chunk.body_range, false),
            range_text(chunk.body_range, true),
        ],
    )
}

/// The first or the last byte of a range in a digest.
pub open spec fn range_text(range: Option<(nat, nat)>, end: bool) -> Seq<char> {
    match range {
        Some((lo, hi)) => decimal(
            if end {
                hi
            } else {
                lo
            },
        ),
        None => "none"@,
    }
}

/// The digest of all stored chunks, in the order of their identities.
pub open spec fn chunk_map_digest(chunks: Seq<ChunkModel>) -> Seq<char> {
    digest("catalog-chunk-map-v1"@, chunks.map_values(|c: ChunkModel| chunk_entry_digest(c)))
}

/// The digest of one note and the identities of its chunks.
pub open spec fn note_entry_digest(note: NoteIds) -> Seq<char> {
    digest(
        "catalog-note-set-entry-v1"@,
        seq![note.note_id, digest("catalog-note-chunk-ids-v1"@, note.chunk_ids)],
    )
}

/// The digest of all notes, in the order of their identities.
pub open spec fn note_set_digest(notes: Seq<NoteIds>) -> Seq<char> {
    digest("catalog-note-set-v1"@, notes.map_values(|n: NoteIds| note_entry_digest(n)))
}

proof fn lemma_drop_chunk(chunks: Seq<ChunkModel>, id: Seq<char>)
    requires
        ascending(chunk_keys(chunks)),
    ensures
        ascending(chunk_keys(drop_chunk(chunks, id))),
        forall|c: ChunkModel| #[trigger]
            drop_chunk(chunks, id).contains(c) <==> chunks.contains(c) && c.chunk_id != id,
{
    let keys = chunk_keys(chunks);
    lemma_place(keys, id);
    lemma_has_key(keys, id);
    let p = place(keys, id);
    let after = drop_chunk(chunks, id);
    if has_key(keys, id) {
        lemma_without_place(keys, id);
        assert(chunk_keys(after) =~= keys.remove(p));
    }
    assert forall|c: ChunkModel| #[trigger] after.contains(c) <==> chunks.contains(c) && c.chunk_id
        != id by {
        if chunks.contains(c) {
            let i = choose|i: int| 0 <= i < chunks.len() && chunks[i] == c;
            assert(keys[i] == c.chunk_id);
            if c.chunk_id != id && has_key(keys, id) {
                assert(i != p);
                if i < p {
                    assert(after[i] == c);
                } else {
                    assert(after[i - 1] == c);
                }
            }
        }
        if after.contains(c) {
            let i = choose|i: int| 0 <= i < after.len() && after[i] == c;
            if has_key(keys, id) {
                let x = if i < p {
                    i
                } else {
                    i + 1
                };
                assert(chunks[x] == c);
                assert(keys[x] == c.chunk_id);
            } else {
                assert(keys[i] == c.chunk_id);
                assert(keys.contains(c.chunk_id));
            }
        }
    }
}

proof fn lemma_drop_chunks(chunks: Seq<ChunkModel>, ids: Seq<Seq<char>>)
    requires
        ascending(chunk_keys(chunks)),
    ensures
        ascending(chunk_keys(drop_chunks(chunks, ids))),
        forall|c: ChunkModel| #[trigger]
            drop_chunks(chunks, ids).contains(c) <==> chunks.contains(c) && !ids.contains(
                c.chunk_id,
            ),
    decreases ids.len(),
{
    if ids.len() > 0 {
        let front = ids.drop_last();
        lemma_drop_chunks(chunks, front);
        lemma_drop_chunk(drop_chunks(chunks, front), ids.last());
        assert forall|k: Seq<char>| #[trigger] ids.contains(k) <==> front.contains(k) || k
            == ids.last() by {
            if ids.contains(k) {
                let i = choose|i: int| 0 <= i < ids.len() && ids[i] == k;
                if i < front.len() {
                    assert(front[i] == k);
                }
            }
            if front.contains(k) {
                let i = choose|i: int| 0 <= i < front.len() && front[i] == k;
                assert(ids[i] == k);
            }
            assert(ids[ids.len() - 1] == ids.last());
        }
    }
}

proof fn lemma_put_chunk(chunks: Seq<ChunkModel>, chunk: ChunkModel)
    requires
        ascending(chunk_keys(chunks)),
    ensures
        ascending(chunk_keys(put_chunk(chunks, chunk))),
        forall|c: ChunkModel| #[trigger]
            put_chunk(chunks, chunk).contains(c) <==> c == chunk || (chunks.contains(c)
                && c.chunk_id != chunk.chunk_id),
{
    let keys = chunk_keys(chunks);
    let id = chunk.chunk_id;
    lemma_place(keys, id);
    lemma_has_key(keys, id);
    lemma_with_key(keys, id);
    let p = place(keys, id);
    let after = put_chunk(chunks, chunk);
    assert(chunk_keys(after) =~= with_key(keys, id));
    assert forall|c: ChunkModel| #[trigger] after.contains(c) <==> c == chunk || (chunks.contains(c)
        && c.chunk_id != id) by {
        assert(after[p] == chunk);
        if chunks.contains(c) && c.chunk_id != id {
            let i = choose|i: int| 0 <= i < chunks.len() && chunks[i] == c;
            if has_key(keys, id) {
                assert(after[i] == c);
            } else if i < p {
                assert(after[i] == c);
            } else {
                assert(after[i + 1] == c);
            }
        }
        if after.contains(c) && c != chunk {
            let i = choose|i: int| 0 <= i < after.len() && after[i] == c;
            let x = if has_key(keys, id) || i < p {
                i
            } else {
                i - 1
            };
            assert(chunks[x] == c);
            assert(keys[x] == c.chunk_id);
            assert(keys.contains(c.chunk_id));
        }
    }
}

proof fn lemma_put_chunks(chunks: Seq<ChunkModel>, new: Seq<ChunkModel>)
    requires
        ascending(chunk_keys(chunks)),
    ensures
        ascending(chunk_keys(put_chunks(chunks, new))),
        forall|c: ChunkModel| #[trigger]
            put_chunks(chunks, new).contains(c) ==> new.contains(c) || (chunks.contains(c) && !chunk_keys(
                new,
            ).contains(c.chunk_id)),
        forall|c: ChunkModel|
            chunks.contains(c) && !chunk_keys(new).contains(c.chunk_id) ==> #[trigger] put_chunks(
                chunks,
                new,
            ).contains(c),
    decreases new.len(),
{
    if new.len() > 0 {
        let front = new.drop_last();
        lemma_put_chunks(chunks, front);
        lemma_put_chunk(put_chunks(chunks, front), new.last());
        assert(new =~= front.push(new.last()));
        let keys = chunk_keys(new);
        let fkeys = chunk_keys(front);
        assert(keys =~= fkeys.push(new.last().chunk_id));
        assert forall|k: Seq<char>| #[trigger] keys.contains(k) <==> fkeys.contains(k) || k
            == new.last().chunk_id by {
            if keys.contains(k) {
                let i = choose|i: int| 0 <= i < keys.len() && keys[i] == k;
                if i < fkeys.len() {
                    assert(fkeys[i] == k);
                }
            }
            if fkeys.contains(k) {
                let i = choose|i: int| 0 <= i < fkeys.len() && fkeys[i] == k;
                assert(keys[i] == k);
            }
            assert(keys[keys.len() - 1] == new.last().chunk_id);
        }
        assert forall|c: ChunkModel| front.contains(c) implies #[trigger] new.contains(c) by {
            let i = choose|i: int| 0 <= i < front.len() && front[i] == c;
            assert(new[i] == c);
        }
        assert(new[new.len() - 1] == new.last());
        assert(new.contains(new.last()));
    } else {
        assert(chunk_keys(new) =~= Seq::empty());
    }
}

/// Chunks with different identities are all there once they are put in.
pub proof fn lemma_put_chunks_holds(chunks: Seq<ChunkModel>, new: Seq<ChunkModel>, i: int)
    requires
        ascending(chunk_keys(chunks)),
        0 <= i < new.len(),
        forall|a: int, b: int|
            0 <= a < b < new.len() ==> (#[trigger] new[a]).chunk_id != (#[trigger] new[b]).chunk_id,
    ensures
        put_chunks(chunks, new).contains(new[i]),
    decreases new.len(),
{
    let front = new.drop_last();
    lemma_put_chunks(chunks, front);
    lemma_put_chunk(put_chunks(chunks, front), new.last());
    if i < front.len() {
        assert forall|a: int, b: int| 0 <= a < b < front.len() implies (
        #[trigger] front[a]).chunk_id != (#[trigger] front[b]).chunk_id by {
            assert(front[a] == new[a]);
            assert(front[b] == new[b]);
        }
        lemma_put_chunks_holds(chunks, front, i);
        assert(front[i] == new[i]);
        assert(new[i].chunk_id != new[new.len() - 1].chunk_id);
    }
}

/// The identities of chunks, each once.
pub proof fn lemma_id_set(chunks: Seq<ChunkModel>)
    ensures
        ascending(id_set(chunks)),
        forall|k: Seq<char>| #[trigger]
            id_set(chunks).contains(k) <==> chunk_keys(chunks).contains(k),
    decreases chunks.len(),
{
    let keys = chunk_keys(chunks);
    if chunks.len() > 0 {
        let front = chunks.drop_last();
        lemma_id_set(front);
        lemma_with_key(id_set(front), chunks.last().chunk_id);
        let fkeys = chunk_keys(front);
        assert(keys =~= fkeys.push(chunks.last().chunk_id));
        assert forall|k: Seq<char>| #[trigger] id_set(chunks).contains(k) <==> keys.contains(k) by {
            if keys.contains(k) {
                let i = choose|i: int| 0 <= i < keys.len() && keys[i] == k;
                if i < fkeys.len() {
                    assert(fkeys[i] == k);
                }
            }
            if fkeys.contains(k) {
                let i = choose|i: int| 0 <= i < fkeys.len() && fkeys[i] == k;
                assert(keys[i] == k);
            }
            assert(keys[keys.len() - 1] == chunks.last().chunk_id);
        }
    } else {
        assert(keys =~= Seq::empty());
    }
}

/// What is listed for a note is its entry, wherever that stands.
pub proof fn lemma_ids_of(store: StoreModel, note_id: Seq<char>)
    requires
        ascending(note_keys(store.notes)),
    ensures
        forall|i: int|
            0 <= i < store.notes.len() && (#[trigger] store.notes[i]).note_id == note_id
                ==> has_key(note_keys(store.notes), note_id) && ids_of(store, note_id)
                == store.notes[i].chunk_ids,
        (forall|i: int| 0 <= i < store.notes.len() ==> (#[trigger] store.notes[i]).note_id != note_id)
            ==> !has_key(note_keys(store.notes), note_id) && ids_of(store, note_id) == Seq::<
            Seq<char>,
        >::empty(),
{
    let keys = note_keys(store.notes);
    lemma_has_key(keys, note_id);
    lemma_place(keys, note_id);
    assert forall|i: int|
        0 <= i < store.notes.len() && (#[trigger] store.notes[i]).note_id
            == note_id implies has_key(keys, note_id) && ids_of(store, note_id)
        == store.notes[i].chunk_ids by {
        assert(keys[i] == note_id);
        assert(keys.contains(note_id));
    }
    if has_key(keys, note_id) {
        assert(store.notes[place(keys, note_id)].note_id == note_id);
    }
}

/// The chunk found for an identity is the one that has it.
pub proof fn lemma_chunk_at(store: StoreModel, id: Seq<char>)
    requires
        ascending(chunk_keys(store.chunks)),
    ensures
        forall|i: int|
            0 <= i < store.chunks.len() && (#[trigger] store.chunks[i]).chunk_id == id
                ==> chunk_at(store, id) == Some(store.chunks[i]),
        chunk_at(store, id) matches Some(c) ==> store.chunks.contains(c) && c.chunk_id == id,
{
    let keys = chunk_keys(store.chunks);
    lemma_has_key(keys, id);
    lemma_place(keys, id);
    assert forall|i: int|
        0 <= i < store.chunks.len() && (#[trigger] store.chunks[i]).chunk_id == id implies chunk_at(
        store,
        id,
    ) == Some(store.chunks[i]) by {
        assert(keys[i] == id);
        assert(keys.contains(id));
    }
    if has_key(keys, id) {
        assert(store.chunks[place(keys, id)].chunk_id == id);
    }
}

/// Taking a note out leaves exactly the chunks that are not listed for it:
/// none of its own chunks stays, and what is listed for other notes does not
/// change.
pub proof fn law_without_note(store: StoreModel, note_id: Seq<char>)
    requires
        store_ok(store),
    ensures
        store_ok(without_note(store, note_id)),
        forall|c: ChunkModel| #[trigger]
            without_note(store, note_id).chunks.contains(c) <==> store.chunks.contains(c)
                && !ids_of(store, note_id).contains(c.chunk_id),
        forall|c: ChunkModel| #[trigger]
            without_note(store, note_id).chunks.contains(c) ==> c.note_id != note_id,
        !has_key(note_keys(without_note(store, note_id).notes), note_id),
        ids_of(without_note(store, note_id), note_id) == Seq::<Seq<char>>::empty(),
        forall|m: Seq<char>|
            m != note_id ==> #[trigger] ids_of(without_note(store, note_id), m) == ids_of(store, m),
{
    let after = without_note(store, note_id);
    let keys = note_keys(store.notes);
    let akeys = note_keys(after.notes);
    let ids = ids_of(store, note_id);
    let p = place(keys, note_id);
    lemma_drop_chunks(store.chunks, ids);
    lemma_place(keys, note_id);
    lemma_has_key(keys, note_id);
    if has_key(keys, note_id) {
        lemma_without_place(keys, note_id);
        assert(akeys =~= keys.remove(p));
    }
    lemma_ids_of(store, note_id);
    lemma_ids_of(after, note_id);
    assert forall|i: int| 0 <= i < after.notes.len() implies (#[trigger] after.notes[i]).note_id
        != note_id by {
        assert(akeys[i] == after.notes[i].note_id);
        assert(akeys.contains(after.notes[i].note_id));
        if !has_key(keys, note_id) {
            assert(keys.contains(after.notes[i].note_id));
        }
    }
    assert forall|m: Seq<char>| m != note_id implies #[trigger] ids_of(after, m) == ids_of(
        store,
        m,
    ) by {
        lemma_ids_of(store, m);
        lemma_ids_of(after, m);
        if has_key(keys, m) {
            let i = place(keys, m);
            lemma_place(keys, m);
            assert(store.notes[i].note_id == m);
            if has_key(keys, note_id) {
                assert(store.notes[p].note_id == note_id);
                if i < p {
                    assert(after.notes[i] == store.notes[i]);
                } else {
                    assert(after.notes[i - 1] == store.notes[i]);
                }
            }
        } else {
            assert forall|i: int| 0 <= i < after.notes.len() implies (
            #[trigger] after.notes[i]).note_id != m by {
                lemma_has_key(keys, m);
                let x = if has_key(keys, note_id) && i >= p {
                    i + 1
                } else {
                    i
                };
                assert(after.notes[i] == store.notes[x]);
                assert(keys[x] == store.notes[x].note_id);
                assert(keys.contains(keys[x]));
            }
        }
    }
    assert forall|c: ChunkModel| #[trigger] after.chunks.contains(c) implies c.note_id
        != note_id by {
        let i = choose|i: int| 0 <= i < store.chunks.len() && store.chunks[i] == c;
        assert(ids_of(store, store.chunks[i].note_id).contains(store.chunks[i].chunk_id));
    }
    assert forall|i: int|
        #![trigger after.chunks[i]]
        0 <= i < after.chunks.len() implies ids_of(after, after.chunks[i].note_id).contains(
        after.chunks[i].chunk_id,
    ) by {
        let c = after.chunks[i];
        assert(after.chunks.contains(c));
        let j = choose|j: int| 0 <= j < store.chunks.len() && store.chunks[j] == c;
        assert(ids_of(store, store.chunks[j].note_id).contains(store.chunks[j].chunk_id));
    }
    assert forall|i: int| 0 <= i < after.notes.len() implies ascending(
        (#[trigger] after.notes[i]).chunk_ids,
    ) by {
        let x = if has_key(keys, note_id) && i >= p {
            i + 1
        } else {
            i
        };
        assert(after.notes[i] == store.notes[x]);
    }
}

/// Putting a note in lists exactly its chunks for it, keeps every other chunk
/// whose identity is not taken over, and does not change what is listed for
/// other notes.
pub proof fn law_with_note(store: StoreModel, note_id: Seq<char>, new: Seq<ChunkModel>)
    requires
        store_ok(store),
        !has_key(note_keys(store.notes), note_id),
        forall|i: int| 0 <= i < new.len() ==> (#[trigger] new[i]).note_id == note_id,
    ensures
        store_ok(with_note(store, note_id, new)),
        ids_of(with_note(store, note_id, new), note_id) == id_set(new),
        forall|m: Seq<char>|
            m != note_id ==> #[trigger] ids_of(with_note(store, note_id, new), m) == ids_of(
                store,
                m,
            ),
        forall|c: ChunkModel| #[trigger]
            with_note(store, note_id, new).chunks.contains(c) ==> new.contains(c)
                || store.chunks.contains(c),
        forall|c: ChunkModel|
            store.chunks.contains(c) && !chunk_keys(new).contains(c.chunk_id)
                ==> #[trigger] with_note(store, note_id, new).chunks.contains(c),
{
    let after = with_note(store, note_id, new);
    let keys = note_keys(store.notes);
    let akeys = note_keys(after.notes);
    let p = place(keys, note_id);
    lemma_put_chunks(store.chunks, new);
    lemma_id_set(new);
    lemma_place(keys, note_id);
    lemma_has_key(keys, note_id);
    lemma_with_key(keys, note_id);
    if new.len() > 0 {
        assert(akeys =~= with_key(keys, note_id));
        assert(after.notes[p].note_id == note_id);
    }
    lemma_ids_of(after, note_id);
    if new.len() == 0 {
        assert(id_set(new) =~= Seq::empty());
        lemma_ids_of(store, note_id);
    }
    assert forall|m: Seq<char>| m != note_id implies #[trigger] ids_of(after, m) == ids_of(
        store,
        m,
    ) by {
        lemma_ids_of(store, m);
        lemma_ids_of(after, m);
        if has_key(keys, m) {
            let i = place(keys, m);
            lemma_place(keys, m);
            assert(store.notes[i].note_id == m);
            if new.len() == 0 || i < p {
                assert(after.notes[i] == store.notes[i]);
            } else {
                assert(after.notes[i + 1] == store.notes[i]);
            }
        } else {
            lemma_has_key(keys, m);
            assert forall|i: int| 0 <= i < after.notes.len() implies (
            #[trigger] after.notes[i]).note_id != m by {
                if new.len() > 0 && i == p {
                } else {
                    let x = if new.len() > 0 && i > p {
                        i - 1
                    } else {
                        i
                    };
                    assert(after.notes[i] == store.notes[x]);
                    assert(keys[x] == store.notes[x].note_id);
                    assert(keys.contains(keys[x]));
                }
            }
        }
    }
    assert forall|i: int|
        #![trigger after.chunks[i]]
        0 <= i < after.chunks.len() implies ids_of(after, after.chunks[i].note_id).contains(
        after.chunks[i].chunk_id,
    ) by {
        let c = after.chunks[i];
        assert(after.chunks.contains(c));
        if new.contains(c) {
            let j = choose|j: int| 0 <= j < new.len() && new[j] == c;
            assert(chunk_keys(new)[j] == c.chunk_id);
            assert(chunk_keys(new).contains(c.chunk_id));
        } else {
            let j = choose|j: int| 0 <= j < store.chunks.len() && store.chunks[j] == c;
            assert(ids_of(store, store.chunks[j].note_id).contains(store.chunks[j].chunk_id));
            if c.note_id == note_id {
                lemma_ids_of(store, note_id);
                assert(false);
            }
        }
    }
    assert forall|i: int| 0 <= i < after.notes.len() implies ascending(
        (#[trigger] after.notes[i]).chunk_ids,
    ) by {
        if new.len() > 0 && i == p {
        } else {
            let x = if new.len() > 0 && i > p {
                i - 1
            } else {
                i
            };
            assert(after.notes[i] == store.notes[x]);
        }
    }
}

/// A note and the ascending identities of its chunks.
#[derive(PartialEq, Eq)]
pub struct NoteEntry {
    pub note_id: String,
    pub chunk_ids: Vec<String>,
}

impl View for NoteEntry {
    type V = NoteIds;

    open spec fn view(&self) -> NoteIds {
        NoteIds { note_id: self.note_id@, chunk_ids: string_views(self.chunk_ids@) }
    }
}

pub open spec fn entry_views(notes: Seq<NoteEntry>) -> Seq<NoteIds> {
    notes.map_values(|n: NoteEntry| n@)
}

/// Chunks by identity, and the identities of the chunks of each note.
#[derive(PartialEq, Eq)]
pub struct ChunkStore {
    pub chunks: Vec<ParagraphChunk>,
    pub notes: Vec<NoteEntry>,
}

impl View for ChunkStore {
    type V = StoreModel;

    open spec fn view(&self) -> StoreModel {
        StoreModel { chunks: chunk_views(self.chunks@), notes: entry_views(self.notes@) }
    }
}

pub fn clone_strings(v: &Vec<String>) -> (r: Vec<String>)
    ensures
        string_views(r@) == string_views(v@),
{
    let mut out: Vec<String> = Vec::new();
    let mut i: usize = 0;
    while i < v.len()
        invariant
            i <= v@.len(),
            string_views(out@) =~= string_views(v@).take(i as int),
        decreases v@.len() - i,
    {
        let ghost before = string_views(out@);
        out.push(v[i].clone());
        assert(string_views(out@) =~= before.push(v@[i as int]@));
        i += 1;
    }
    assert(string_views(v@).take(v@.len() as int) =~= string_views(v@));
    out
}

fn clone_entries(v: &Vec<NoteEntry>) -> (r: Vec<NoteEntry>)
    ensures
        entry_views(r@) == entry_views(v@),
{
    let mut out: Vec<NoteEntry> = Vec::new();
    let mut i: usize = 0;
    while i < v.len()
        invariant
            i <= v@.len(),
            entry_views(out@) =~= entry_views(v@).take(i as int),
        decreases v@.len() - i,
    {
        let entry: NoteEntry = NoteEntry {
            note_id: v[i].note_id.clone(),
            chunk_ids: clone_strings(&v[i].chunk_ids),
        };
        let ghost model = entry@;
        let ghost before = entry_views(out@);
        out.push(entry);
        assert(model == entry_views(v@)[i as int]);
        assert(entry_views(out@) =~= before.push(model));
        i += 1;
    }
    assert(entry_views(v@).take(v@.len() as int) =~= entry_views(v@));
    out
}

impl Clone for ChunkStore {
    fn clone(&self) -> (r: Self)
        ensures
            r@ == self@,
    {
        ChunkStore { chunks: clone_chunks(&self.chunks), notes: clone_entries(&self.notes) }
    }
}

fn find_chunk(chunks: &Vec<ParagraphChunk>, id: &str) -> (r: usize)
    requires
        ascending(chunk_keys(chunk_views(chunks@))),
    ensures
        r == place(chunk_keys(chunk_views(chunks@)), id@),
        r <= chunks@.len(),
{
    let ghost keys = chunk_keys(chunk_views(chunks@));
    let mut lo: usize = 0;
    let mut hi: usize = chunks.len();
    while lo < hi
        invariant
            keys == chunk_keys(chunk_views(chunks@)),
            ascending(keys),
            lo <= hi <= chunks@.len(),
            forall|i: int| 0 <= i < lo ==> text_lt(#[trigger] keys[i], id@),
            forall|i: int| hi <= i < keys.len() ==> !text_lt(#[trigger] keys[i], id@),
        decreases hi - lo,
    {
        let mid: usize = lo + (hi - lo) / 2;
        proof {
            lemma_search_step(keys, id@, mid as int);
        }
        assert(keys[mid as int] == chunks@[mid as int].chunk_id@);
        match order_text(chunks[mid].chunk_id.as_str(), id) {
            TextOrder::Before => {
                lo = mid + 1;
            },
            _ => {
                hi = mid;
            },
        }
    }
    proof {
        lemma_place_unique(keys, id@, lo as int);
    }
    lo
}

fn find_note(notes: &Vec<NoteEntry>, note_id: &str) -> (r: usize)
    requires
        ascending(note_keys(entry_views(notes@))),
    ensures
        r == place(note_keys(entry_views(notes@)), note_id@),
        r <= notes@.len(),
{
    let ghost keys = note_keys(entry_views(notes@));
    let mut lo: usize = 0;
    let mut hi: usize = notes.len();
    while lo < hi
        invariant
            keys == note_keys(entry_views(notes@)),
            ascending(keys),
            lo <= hi <= notes@.len(),
            forall|i: int| 0 <= i < lo ==> text_lt(#[trigger] keys[i], note_id@),
            forall|i: int| hi <= i < keys.len() ==> !text_lt(#[trigger] keys[i], note_id@),
        decreases hi - lo,
    {
        let mid: usize = lo + (hi - lo) / 2;
        proof {
            lemma_search_step(keys, note_id@, mid as int);
        }
        assert(keys[mid as int] == notes@[mid as int].note_id@);
        match order_text(notes[mid].note_id.as_str(), note_id) {
            TextOrder::Before => {
                lo = mid + 1;
            },
            _ => {
                hi = mid;
            },
        }
    }
    proof {
        lemma_place_unique(keys, note_id@, lo as int);
    }
    lo
}

impl ChunkStore {
    pub fn new() -> (r: Self)
        ensures
            r@ == empty_store(),
            store_ok(r@),
    {
        let r: ChunkStore = ChunkStore { chunks: Vec::new(), notes: Vec::new() };
        assert(r@ =~= empty_store());
        r
    }

    /// The chunk with an identity.
    pub fn chunk(&self, id: &str) -> (r: Option<&ParagraphChunk>)
        requires
            store_ok(self@),
        ensures
            match r {
                Some(c) => chunk_at(self@, id@) == Some(c@),
                None => chunk_at(self@, id@) is None,
            },
    {
        let at: usize = find_chunk(&self.chunks, id);
        if at < self.chunks.len() {
            assert(chunk_keys(self@.chunks)[at as int] == self.chunks@[at as int].chunk_id@);
            match order_text(self.chunks[at].chunk_id.as_str(), id) {
                TextOrder::Same => {
                    return Some(&self.chunks[at]);
                },
                _ => {},
            }
        }
        None
    }

    /// Where the entry of a note stands, if it has one.
    pub fn note_index(&self, note_id: &str) -> (r: Option<usize>)
        requires
            store_ok(self@),
        ensures
            match r {
                Some(i) => i < self.notes@.len() && has_key(note_keys(self@.notes), note_id@) && i
                    == place(note_keys(self@.notes), note_id@),
                None => !has_key(note_keys(self@.notes), note_id@),
            },
    {
        let at: usize = find_note(&self.notes, note_id);
        if at < self.notes.len() {
            assert(note_keys(self@.notes)[at as int] == self.notes@[at as int].note_id@);
            match order_text(self.notes[at].note_id.as_str(), note_id) {
                TextOrder::Same => {
                    return Some(at);
                },
                _ => {},
            }
        }
        None
    }

    /// Takes one chunk out, if it is there.
    fn drop_chunk(&mut self, id: &str)
        requires
            ascending(chunk_keys(old(self)@.chunks)),
        ensures
            final(self)@.chunks == drop_chunk(old(self)@.chunks, id@),
            final(self)@.notes == old(self)@.notes,
            ascending(chunk_keys(final(self)@.chunks)),
    {
        let ghost before = self@.chunks;
        proof {
            lemma_drop_chunk(before, id@);
        }
        let at: usize = find_chunk(&self.chunks, id);
        if at < self.chunks.len() {
            assert(chunk_keys(before)[at as int] == self.chunks@[at as int].chunk_id@);
            match order_text(self.chunks[at].chunk_id.as_str(), id) {
                TextOrder::Same => {
                    let gone: ParagraphChunk = self.chunks.remove(at);
                    assert(self@.chunks =~= before.remove(at as int));
                },
                _ => {},
            }
        }
    }

    /// Puts one chunk in, in place of one with the same identity; says
    /// whether there was none.
    fn put_chunk(&mut self, chunk: ParagraphChunk) -> (r: bool)
        requires
            ascending(chunk_keys(old(self)@.chunks)),
        ensures
            final(self)@.chunks == put_chunk(old(self)@.chunks, chunk@),
            final(self)@.notes == old(self)@.notes,
            ascending(chunk_keys(final(self)@.chunks)),
            r == !has_key(chunk_keys(old(self)@.chunks), chunk@.chunk_id),
    {
        let ghost before = self@.chunks;
        proof {
            lemma_put_chunk(before, chunk@);
            lemma_place(chunk_keys(before), chunk@.chunk_id);
        }
        let at: usize = find_chunk(&self.chunks, chunk.chunk_id.as_str());
        let ghost model = chunk@;
        if at < self.chunks.len() {
            assert(chunk_keys(before)[at as int] == self.chunks@[at as int].chunk_id@);
            match order_text(self.chunks[at].chunk_id.as_str(), chunk.chunk_id.as_str()) {
                TextOrder::Same => {
                    self.chunks[at] = chunk;
                    assert(self@.chunks =~= before.update(at as int, model));
                    return false;
                },
                _ => {},
            }
        }
        self.chunks.insert(at, chunk);
        assert(self@.chunks =~= before.insert(at as int, model));
        true
    }

    /// Takes a note out, with all the chunks listed for it.
    pub fn remove_note(&mut self, note_id: &str)
        requires
            store_ok(old(self)@),
        ensures
            final(self)@ == without_note(old(self)@, note_id@),
            store_ok(final(self)@),
    {
        let ghost before = self@;
        proof {
            law_without_note(before, note_id@);
        }
        match self.note_index(note_id) {
            Some(at) => {
                let ids: Vec<String> = clone_strings(&self.notes[at].chunk_ids);
                let ghost views = string_views(ids@);
                assert(views == before.notes[at as int].chunk_ids);
                let mut i: usize = 0;
                assert(views.take(0) =~= Seq::empty());
                while i < ids.len()
                    invariant
                        views == string_views(ids@),
                        i <= ids@.len(),
                        ascending(chunk_keys(self@.chunks)),
                        self@.chunks == drop_chunks(before.chunks, views.take(i as int)),
                        self@.notes == before.notes,
                    decreases ids@.len() - i,
                {
                    assert(views.take(i + 1).drop_last() =~= views.take(i as int));
                    assert(views.take(i + 1).last() == ids@[i as int]@);
                    self.drop_chunk(ids[i].as_str());
                    i += 1;
                }
                assert(views.take(views.len() as int) =~= views);
                let gone: NoteEntry = self.notes.remove(at);
                assert(self@.notes =~= before.notes.remove(at as int));
                assert(self@ =~= without_note(before, note_id@));
            },
            None => {
                assert(self@ =~= without_note(before, note_id@));
            },
        }
    }

    /// Puts chunks in and lists them for a note that has no entry. Says
    /// whether their identities were all new.
    pub fn add_note(&mut self, note_id: &str, chunks: Vec<ParagraphChunk>) -> (r: bool)
        requires
            store_ok(old(self)@),
            !has_key(note_keys(old(self)@.notes), note_id@),
            forall|i: int|
                0 <= i < chunks@.len() ==> (#[trigger] chunk_views(chunks@)[i]).note_id == note_id@,
        ensures
            final(self)@ == with_note(old(self)@, note_id@, chunk_views(chunks@)),
            store_ok(final(self)@),
            r == ids_are_new(old(self)@.chunks, chunk_views(chunks@)),
    {
        let ghost before = self@;
        let ghost new = chunk_views(chunks@);
        proof {
            law_with_note(before, note_id@, new);
        }
        let mut ids: Vec<String> = Vec::new();
        let mut fresh: bool = true;
        let mut i: usize = 0;
        assert(new.take(0) =~= Seq::empty());
        assert(string_views(ids@) =~= Seq::empty());
        while i < chunks.len()
            invariant
                new == chunk_views(chunks@),
                i <= chunks@.len(),
                ascending(chunk_keys(self@.chunks)),
                ascending(string_views(ids@)),
                self@.chunks == put_chunks(before.chunks, new.take(i as int)),
                self@.notes == before.notes,
                string_views(ids@) == id_set(new.take(i as int)),
                fresh == ids_are_new(before.chunks, new.take(i as int)),
            decreases chunks@.len() - i,
        {
            let chunk: ParagraphChunk = chunks[i].clone();
            proof {
                assert(new.take(i + 1).drop_last() =~= new.take(i as int));
                assert(new.take(i + 1).last() == chunk@);
            }
            insert_text(&mut ids, chunk.chunk_id.as_str());
            if !self.put_chunk(chunk) {
                fresh = false;
            }
            i += 1;
        }
        assert(new.take(new.len() as int) =~= new);
        if chunks.len() > 0 {
            let at: usize = find_note(&self.notes, note_id);
            let entry: NoteEntry = NoteEntry { note_id: note_id.to_owned(), chunk_ids: ids };
            let ghost model = entry@;
            self.notes.insert(at, entry);
            assert(self@.notes =~= before.notes.insert(at as int, model));
        }
        assert(self@ =~= with_note(before, note_id@, new));
        fresh
    }
}

/// Whether no identity of the new chunks is taken, by an old chunk or by one
/// before it.
pub open spec fn ids_are_new(chunks: Seq<ChunkModel>, new: Seq<ChunkModel>) -> bool
    decreases new.len(),
{
    new.len() == 0 || (ids_are_new(chunks, new.drop_last()) && !has_key(
        chunk_keys(put_chunks(chunks, new.drop_last())),
        new.last().chunk_id,
    ))
}

/// No chunk that is there has an identity that is new.
pub proof fn lemma_new_ids(chunks: Seq<ChunkModel>, new: Seq<ChunkModel>, c: ChunkModel)
    requires
        ascending(chunk_keys(chunks)),
        ids_are_new(chunks, new),
        chunks.contains(c),
    ensures
        !chunk_keys(new).contains(c.chunk_id),
    decreases new.len(),
{
    if new.len() > 0 {
        let front = new.drop_last();
        let so_far = put_chunks(chunks, front);
        lemma_new_ids(chunks, front, c);
        lemma_put_chunks(chunks, front);
        assert(so_far.contains(c));
        let i = choose|i: int| 0 <= i < so_far.len() && so_far[i] == c;
        assert(chunk_keys(so_far)[i] == c.chunk_id);
        lemma_has_key(chunk_keys(so_far), new.last().chunk_id);
        assert(chunk_keys(so_far).contains(c.chunk_id));
        if chunk_keys(new).contains(c.chunk_id) {
            let k = choose|k: int| 0 <= k < new.len() && chunk_keys(new)[k] == c.chunk_id;
            if k < front.len() {
                assert(chunk_keys(front)[k] == c.chunk_id);
                assert(chunk_keys(front).contains(c.chunk_id));
            } else {
                assert(new.last().chunk_id == c.chunk_id);
            }
        }
    }
}

/// The digest of a list of texts.
pub fn digest_of_strings(domain: &str, fields: &Vec<String>) -> (r: String)
    ensures
        r@ == digest(domain@, string_views(fields@)),
        is_digest(r@),
{
    let mut refs: Vec<&str> = Vec::new();
    let mut i: usize = 0;
    while i < fields.len()
        invariant
            i <= fields@.len(),
            texts(refs@) =~= string_views(fields@).take(i as int),
        decreases fields@.len() - i,
    {
        let ghost before = texts(refs@);
        refs.push(fields[i].as_str());
        assert(texts(refs@) =~= before.push(fields@[i as int]@));
        i += 1;
    }
    assert(texts(refs@) =~= string_views(fields@));
    sha256_digest(domain, refs.as_slice())
}

fn byte_text(range: Option<BodyByteRange>, end: bool) -> (r: String)
    ensures
        r@ == range_text(range_view(range), end),
{
    match range {
        Some(b) => if end {
            decimal_string(b.end_byte as u64)
        } else {
            decimal_string(b.start_byte as u64)
        },
        None => "none".to_owned(),
    }
}

fn stored_chunk_digest(chunk: &ParagraphChunk) -> (r: String)
    ensures
        r@ == chunk_entry_digest(chunk@),
{
    let occurrence: String = decimal_string(chunk.occurrence as u64);
    let start: String = byte_text(chunk.body_range, false);
    let end: String = byte_text(chunk.body_range, true);
    let fields: [&str; 10] = [
        chunk.chunk_id.as_str(),
        chunk.logical_id.as_str(),
        chunk.vault_id.as_str(),
        chunk.note_id.as_str(),
        chunk.content_digest.as_str(),
        chunk.note_revision_digest.as_str(),
        chunk.kind.tag(),
        occurrence.as_str(),
        start.as_str(),
        end.as_str(),
    ];
    let r: String = sha256_digest("catalog-chunk-entry-v1", &fields);
    let ghost c = chunk@;
    assert(texts(fields@) =~= seq![
        c.chunk_id,
        c.logical_id,
        c.vault_id,
        c.note_id,
        c.content_digest,
        c.note_revision_digest,
        kind_tag(c.kind),
        decimal(c.occurrence),
        range_text(c.body_range, false),
        range_text(c.body_range, true),
    ]);
    r
}

impl ChunkStore {
    /// The digest of all chunks.
    pub fn chunk_map_digest(&self) -> (r: String)
        ensures
            r@ == chunk_map_digest(self@.chunks),
            is_digest(r@),
    {
        let mut entries: Vec<String> = Vec::new();
        let ghost all = self@.chunks.map_values(|c: ChunkModel| chunk_entry_digest(c));
        let mut i: usize = 0;
        while i < self.chunks.len()
            invariant
                i <= self.chunks@.len(),
                all == self@.chunks.map_values(|c: ChunkModel| chunk_entry_digest(c)),
                string_views(entries@) =~= all.take(i as int),
            decreases self.chunks@.len() - i,
        {
            let ghost before = string_views(entries@);
            let entry: String = stored_chunk_digest(&self.chunks[i]);
            let ghost model = entry@;
            assert(self@.chunks[i as int] == self.chunks@[i as int]@);
            entries.push(entry);
            assert(string_views(entries@) =~= before.push(model));
            i += 1;
        }
        assert(string_views(entries@) =~= all);
        digest_of_strings("catalog-chunk-map-v1", &entries)
    }

    /// The digest of all notes and what is listed for them.
    pub fn note_set_digest(&self) -> (r: String)
        ensures
            r@ == note_set_digest(self@.notes),
            is_digest(r@),
    {
        let mut entries: Vec<String> = Vec::new();
        let ghost all = self@.notes.map_values(|n: NoteIds| note_entry_digest(n));
        let mut i: usize = 0;
        while i < self.notes.len()
            invariant
                i <= self.notes@.len(),
                all == self@.notes.map_values(|n: NoteIds| note_entry_digest(n)),
                string_views(entries@) =~= all.take(i as int),
            decreases self.notes@.len() - i,
        {
            let ghost before = string_views(entries@);
            let ids: String = digest_of_strings(
                "catalog-note-chunk-ids-v1",
                &self.notes[i].chunk_ids,
            );
            let fields: [&str; 2] = [self.notes[i].note_id.as_str(), ids.as_str()];
            let entry: String = sha256_digest("catalog-note-set-entry-v1", &fields);
            assert(texts(fields@) =~= seq![self.notes@[i as int].note_id@, ids@]);
            assert(self@.notes[i as int] == self.notes@[i as int]@);
            let ghost model = entry@;
            entries.push(entry);
            assert(string_views(entries@) =~= before.push(model));
            i += 1;
        }
        assert(string_views(entries@) =~= all);
        digest_of_strings("catalog-note-set-v1", &entries)
    }
}

} // verus!
