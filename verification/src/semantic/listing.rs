//! What is listed for notes: that every listed identity is that of a stored chunk
//! of the note, and that the lists add up to all chunks.

use vstd::prelude::*;

use super::catalog::{
    catalog_ok, listed_chunks, projected_note, projection_fault, publish_error,
    rebuild_fault, rebuilt_store, store_with_projection, CatalogModel, TokenModel,
};
use super::identity::is_identity;
use super::laws::{identity_message, law_identities_of_notes_differ};
use super::manifest::ManifestModel;
use super::note::{note_error, ChunkingPolicy, NoteModel};
use super::projection::{
    chunk_of, indexed_pieces, projection_error, projection_of, ChunkModel, ProjectionModel,
};
use super::store::{
    chunk_at, chunk_keys, empty_store, ids_of, law_with_note, law_without_note,
    lemma_chunk_at, lemma_id_set, lemma_ids_of, lemma_new_ids, lemma_put_chunks_holds, note_keys, store_ok,
    with_note, without_note, NoteIds, StoreModel,
};
use crate::digest::{collides, sha256_has_32_bytes};
use crate::keys::{ascending, has_key};
use crate::text::text_lt;

verus! {

/// Whether every identity that is listed for a note is that of a stored chunk of
/// the note.
pub open spec fn lists_ok(store: StoreModel) -> bool {
    forall|note_id: Seq<char>, id: Seq<char>| #[trigger]
        ids_of(store, note_id).contains(id) ==> (chunk_at(store, id) matches Some(c) && c.note_id
            == note_id && c.chunk_id == id)
}

/// Whether chunks of a note have the identity of no stored chunk of another.
pub open spec fn takes_nothing_over(
    store: StoreModel,
    note_id: Seq<char>,
    new: Seq<ChunkModel>,
) -> bool {
    forall|c: ChunkModel| #[trigger]
        store.chunks.contains(c) && c.note_id != note_id ==> !chunk_keys(new).contains(c.chunk_id)
}

/// A store without notes lists nothing.
pub proof fn law_empty_store_lists_nothing()
    ensures
        store_ok(empty_store()),
        lists_ok(empty_store()),
{
}

proof fn lemma_found(store: StoreModel, c: ChunkModel)
    requires
        store_ok(store),
        store.chunks.contains(c),
    ensures
        chunk_at(store, c.chunk_id) == Some(c),
{
    lemma_chunk_at(store, c.chunk_id);
    let i = choose|i: int| 0 <= i < store.chunks.len() && store.chunks[i] == c;
    assert(store.chunks[i].chunk_id == c.chunk_id);
}

/// Taking a note out leaves the lists of the others right.
pub proof fn law_removal_keeps_lists(store: StoreModel, note_id: Seq<char>)
    requires
        store_ok(store),
        lists_ok(store),
    ensures
        store_ok(without_note(store, note_id)),
        lists_ok(without_note(store, note_id)),
{
    let after = without_note(store, note_id);
    law_without_note(store, note_id);
    assert forall|n: Seq<char>, id: Seq<char>| #[trigger]
        ids_of(after, n).contains(id) implies (chunk_at(after, id) matches Some(c) && c.note_id == n
        && c.chunk_id == id) by {
        if n != note_id {
            assert(ids_of(store, n).contains(id));
            let c = chunk_at(store, id)->0;
            lemma_chunk_at(store, id);
            if ids_of(store, note_id).contains(id) {
                assert(c.note_id == note_id);
            }
            assert(after.chunks.contains(c));
            lemma_found(after, c);
        }
    }
}

/// Putting in a note keeps the lists right, as long as its chunks, which have
/// different identities, take no other chunk over.
pub proof fn law_new_note_keeps_lists(store: StoreModel, note_id: Seq<char>, new: Seq<ChunkModel>)
    requires
        store_ok(store),
        lists_ok(store),
        !has_key(note_keys(store.notes), note_id),
        forall|i: int| 0 <= i < new.len() ==> (#[trigger] new[i]).note_id == note_id,
        forall|i: int, j: int|
            0 <= i < j < new.len() ==> (#[trigger] new[i]).chunk_id != (#[trigger] new[j]).chunk_id,
        takes_nothing_over(store, note_id, new),
    ensures
        store_ok(with_note(store, note_id, new)),
        lists_ok(with_note(store, note_id, new)),
{
    let after = with_note(store, note_id, new);
    law_with_note(store, note_id, new);
    lemma_id_set(new);
    assert forall|n: Seq<char>, id: Seq<char>| #[trigger]
        ids_of(after, n).contains(id) implies (chunk_at(after, id) matches Some(c) && c.note_id == n
        && c.chunk_id == id) by {
        if n != note_id {
            assert(ids_of(store, n).contains(id));
            let c = chunk_at(store, id)->0;
            lemma_chunk_at(store, id);
            assert(store.chunks.contains(c));
            assert(after.chunks.contains(c));
            lemma_found(after, c);
        } else {
            assert(chunk_keys(new).contains(id));
            let i = choose|i: int| 0 <= i < new.len() && chunk_keys(new)[i] == id;
            assert(new[i].chunk_id == id);
            lemma_put_chunks_holds(store.chunks, new, i);
            lemma_found(after, new[i]);
        }
    }
}

proof fn lemma_chunks_of_note(p: ProjectionModel, vault_id: Seq<char>)
    requires
        projection_fault(p, vault_id) is None,
    ensures
        forall|i: int| 0 <= i < p.chunks.len() ==> (#[trigger] p.chunks[i]).note_id == p.note_id,
        forall|i: int, j: int|
            0 <= i < j < p.chunks.len() ==> (#[trigger] p.chunks[i]).chunk_id != (
            #[trigger] p.chunks[j]).chunk_id,
{
    let note = projected_note(p);
    let pieces = indexed_pieces(note, p.chunking_policy);
    assert forall|i: int| 0 <= i < p.chunks.len() implies (#[trigger] p.chunks[i]).note_id
        == p.note_id by {
        assert(p.chunks[i] == chunk_of(note, pieces, i));
    }
}

/// Whether a chunk is one that the projector makes of a note.
pub open spec fn is_projected(
    c: ChunkModel,
    note: NoteModel,
    policy: ChunkingPolicy,
    i: int,
) -> bool {
    &&& note_error(note) is None
    &&& projection_error(note, policy) is None
    &&& 0 <= i < projection_of(note, policy).chunks.len()
    &&& c == projection_of(note, policy).chunks[i]
}

/// Whether a chunk is one that the projector makes of some note, and SHA-256
/// tells its identity from those of the chunks of a projection.
pub open spec fn is_apart_from(c: ChunkModel, p: ProjectionModel) -> bool {
    exists|note: NoteModel, policy: ChunkingPolicy, i: int| #[trigger]
        is_projected(c, note, policy, i) && forall|k: int|
            0 <= k < p.chunks.len() ==> !collides(
                identity_message(note, policy, i),
                #[trigger] identity_message(projected_note(p), p.chunking_policy, k),
            )
}

/// A publication takes no chunk of another note over, as long as what is stored
/// was projected and SHA-256 tells it from what is new.
pub proof fn law_publication_takes_nothing_over(
    store: StoreModel,
    p: ProjectionModel,
    vault_id: Seq<char>,
)
    requires
        sha256_has_32_bytes(),
        is_identity(vault_id),
        projection_fault(p, vault_id) is None,
        forall|c: ChunkModel| #[trigger]
            store.chunks.contains(c) && c.note_id != p.note_id ==> is_apart_from(c, p),
    ensures
        takes_nothing_over(store, p.note_id, p.chunks),
{
    let own = projected_note(p);
    assert forall|c: ChunkModel| #[trigger]
        store.chunks.contains(c) && c.note_id != p.note_id implies !chunk_keys(p.chunks).contains(
        c.chunk_id,
    ) by {
        if chunk_keys(p.chunks).contains(c.chunk_id) {
            let k = choose|k: int| 0 <= k < p.chunks.len() && chunk_keys(p.chunks)[k] == c.chunk_id;
            assert(p.chunks[k].chunk_id == c.chunk_id);
            let (note, policy, i) = choose|note: NoteModel, policy: ChunkingPolicy, i: int|
                #[trigger] is_projected(c, note, policy, i) && forall|k: int|
                    0 <= k < p.chunks.len() ==> !collides(
                        identity_message(note, policy, i),
                        #[trigger] identity_message(own, p.chunking_policy, k),
                    );
            assert(!collides(
                identity_message(note, policy, i),
                identity_message(own, p.chunking_policy, k),
            ));
            law_identities_of_notes_differ(note, policy, i, own, p.chunking_policy, k);
        }
    }
}

/// A publication keeps the lists right, as long as it takes no chunk of another
/// note over, for which SHA-256 would have to collide.
pub proof fn law_publication_keeps_lists(
    m: CatalogModel,
    token: TokenModel,
    p: ProjectionModel,
    manifest: ManifestModel,
)
    requires
        catalog_ok(m),
        lists_ok(m.store),
        publish_error(m, token, p, manifest) is None,
        takes_nothing_over(m.store, p.note_id, p.chunks),
    ensures
        store_ok(store_with_projection(m.store, p)),
        lists_ok(store_with_projection(m.store, p)),
{
    let rest = without_note(m.store, p.note_id);
    lemma_chunks_of_note(p, m.vault_id);
    law_without_note(m.store, p.note_id);
    law_removal_keeps_lists(m.store, p.note_id);
    assert forall|c: ChunkModel| #[trigger]
        rest.chunks.contains(c) && c.note_id != p.note_id implies !chunk_keys(p.chunks).contains(
        c.chunk_id,
    ) by {
        assert(m.store.chunks.contains(c));
    }
    law_new_note_keeps_lists(rest, p.note_id, p.chunks);
}

/// A rebuilt catalog has the lists right: a rebuild takes no chunk over.
pub proof fn law_rebuild_keeps_lists(
    ps: Seq<ProjectionModel>,
    n: int,
    vault_id: Seq<char>,
    policy: ChunkingPolicy,
)
    requires
        0 <= n <= ps.len(),
        rebuild_fault(ps, n, vault_id, policy) is None,
    ensures
        store_ok(rebuilt_store(ps, n)),
        lists_ok(rebuilt_store(ps, n)),
    decreases n,
{
    if n <= 0 {
        law_empty_store_lists_nothing();
    } else {
        law_rebuild_keeps_lists(ps, n - 1, vault_id, policy);
        let before = rebuilt_store(ps, n - 1);
        let p = ps[n - 1];
        lemma_chunks_of_note(p, vault_id);
        assert forall|c: ChunkModel| #[trigger]
            before.chunks.contains(c) && c.note_id != p.note_id implies !chunk_keys(
            p.chunks,
        ).contains(c.chunk_id) by {
            lemma_new_ids(before.chunks, p.chunks, c);
        }
        law_new_note_keeps_lists(before, p.note_id, p.chunks);
    }
}

proof fn lemma_listed(store: StoreModel, note_id: Seq<char>, n: int)
    requires
        store_ok(store),
        lists_ok(store),
        0 <= n <= ids_of(store, note_id).len(),
    ensures
        listed_chunks(store, ids_of(store, note_id).take(n)).len() == n,
        forall|k: int|
            0 <= k < n ==> chunk_at(store, ids_of(store, note_id)[k]) == Some(
                #[trigger] listed_chunks(store, ids_of(store, note_id).take(n))[k],
            ),
    decreases n,
{
    let ids = ids_of(store, note_id);
    if n > 0 {
        lemma_listed(store, note_id, n - 1);
        assert(ids.take(n).drop_last() =~= ids.take(n - 1));
        assert(ids.take(n).last() == ids[n - 1]);
        assert(ids.contains(ids[n - 1]));
    }
}

/// What is listed for a note are stored chunks of the note, in the ascending
/// order of their identities, and every stored chunk of the note is among them.
/// A note that is not known has none.
pub proof fn law_listed_chunks_are_those_of_the_note(m: CatalogModel, note_id: Seq<char>)
    requires
        catalog_ok(m),
        lists_ok(m.store),
    ensures
        ({
            let all = listed_chunks(m.store, ids_of(m.store, note_id));
            &&& ascending(chunk_keys(all))
            &&& forall|k: int|
                0 <= k < all.len() ==> (#[trigger] all[k]).note_id == note_id && all[k].vault_id
                    == m.vault_id && chunk_at(m.store, all[k].chunk_id) == Some(all[k])
            &&& forall|c: ChunkModel| #[trigger]
                m.store.chunks.contains(c) && c.note_id == note_id ==> all.contains(c)
            &&& all.len() == ids_of(m.store, note_id).len()
            &&& !has_key(note_keys(m.store.notes), note_id) ==> all.len() == 0
        }),
{
    let store = m.store;
    let ids = ids_of(store, note_id);
    let all = listed_chunks(store, ids);
    let n = ids.len() as int;
    assert(ids.take(n) =~= ids);
    lemma_listed(store, note_id, n);
    assert forall|k: int| 0 <= k < all.len() implies (#[trigger] all[k]).note_id == note_id
        && all[k].vault_id == m.vault_id && all[k].chunk_id == ids[k] && chunk_at(
        store,
        all[k].chunk_id,
    ) == Some(all[k]) by {
        assert(ids.contains(ids[k]));
        lemma_chunk_at(store, ids[k]);
        assert(store.chunks.contains(all[k]));
    }
    assert(chunk_keys(all) =~= ids);
    assert(ascending(ids)) by {
        if has_key(note_keys(store.notes), note_id) {
            crate::keys::lemma_place(note_keys(store.notes), note_id);
            crate::keys::lemma_has_key(note_keys(store.notes), note_id);
        }
    }
    assert forall|c: ChunkModel| #[trigger]
        store.chunks.contains(c) && c.note_id == note_id implies all.contains(c) by {
        let i = choose|i: int| 0 <= i < store.chunks.len() && store.chunks[i] == c;
        assert(ids_of(store, store.chunks[i].note_id).contains(store.chunks[i].chunk_id));
        let k = choose|k: int| 0 <= k < ids.len() && ids[k] == c.chunk_id;
        lemma_found(store, c);
        assert(all[k] == c);
    }
}

/// The identities that are listed for the first `n` notes.
spec fn all_ids(notes: Seq<NoteIds>, n: int) -> Seq<Seq<char>>
    decreases n,
{
    if n <= 0 {
        Seq::empty()
    } else {
        all_ids(notes, n - 1) + notes[n - 1].chunk_ids
    }
}

/// How many identities are listed for the first `n` notes.
pub open spec fn listed_count(notes: Seq<NoteIds>, n: int) -> nat
    decreases n,
{
    if n <= 0 {
        0
    } else {
        listed_count(notes, n - 1) + notes[n - 1].chunk_ids.len()
    }
}

proof fn lemma_all_ids(store: StoreModel, n: int)
    requires
        store_ok(store),
        lists_ok(store),
        0 <= n <= store.notes.len(),
    ensures
        all_ids(store.notes, n).len() == listed_count(store.notes, n),
        all_ids(store.notes, n).no_duplicates(),
        forall|id: Seq<char>| #[trigger]
            all_ids(store.notes, n).contains(id) <==> exists|i: int|
                0 <= i < n && (#[trigger] store.notes[i]).chunk_ids.contains(id),
    decreases n,
{
    let notes = store.notes;
    let now = all_ids(notes, n);
    if n > 0 {
        lemma_all_ids(store, n - 1);
        let before = all_ids(notes, n - 1);
        let last = notes[n - 1].chunk_ids;
        assert(last.no_duplicates()) by {
            assert(ascending(notes[n - 1].chunk_ids));
            assert forall|a: int, b: int| 0 <= a < b < last.len() implies last[a] != last[b] by {
                assert(text_lt(last[a], last[b]));
                crate::text::lemma_text_lt_irreflexive(last[a]);
            }
        }
        assert forall|a: int, b: int| 0 <= a < b < now.len() implies now[a] != now[b] by {
            if a < before.len() && b >= before.len() {
                let id = now[a];
                assert(before[a] == id);
                assert(before.contains(id));
                if now[b] == id {
                    assert(last[b - before.len()] == id);
                    let i = choose|i: int|
                        0 <= i < n - 1 && (#[trigger] notes[i]).chunk_ids.contains(id);
                    lemma_listed_by(store, i, id);
                    lemma_listed_by(store, n - 1, id);
                    lemma_notes_differ(store, i, n - 1);
                }
            } else if b < before.len() {
                assert(before[a] != before[b]);
            } else {
                assert(last[a - before.len()] != last[b - before.len()]);
            }
        }
        assert forall|id: Seq<char>| #[trigger] now.contains(id) <==> exists|i: int|
            0 <= i < n && (#[trigger] notes[i]).chunk_ids.contains(id) by {
            if now.contains(id) {
                let a = choose|a: int| 0 <= a < now.len() && now[a] == id;
                if a < before.len() {
                    assert(before[a] == id);
                    assert(before.contains(id));
                } else {
                    assert(last[a - before.len()] == id);
                    assert(notes[n - 1].chunk_ids.contains(id));
                }
            }
            if exists|i: int| 0 <= i < n && (#[trigger] notes[i]).chunk_ids.contains(id) {
                let i = choose|i: int| 0 <= i < n && (#[trigger] notes[i]).chunk_ids.contains(id);
                if i < n - 1 {
                    assert(before.contains(id));
                    let a = choose|a: int| 0 <= a < before.len() && before[a] == id;
                    assert(now[a] == id);
                } else {
                    let a = choose|a: int| 0 <= a < last.len() && last[a] == id;
                    assert(now[before.len() + a] == id);
                }
            }
        }
    }
}

proof fn lemma_listed_by(store: StoreModel, i: int, id: Seq<char>)
    requires
        store_ok(store),
        lists_ok(store),
        0 <= i < store.notes.len(),
        store.notes[i].chunk_ids.contains(id),
    ensures
        chunk_at(store, id) matches Some(c) && c.note_id == store.notes[i].note_id,
{
    lemma_ids_of(store, store.notes[i].note_id);
    assert(ids_of(store, store.notes[i].note_id).contains(id));
}

proof fn lemma_notes_differ(store: StoreModel, i: int, j: int)
    requires
        store_ok(store),
        0 <= i < j < store.notes.len(),
    ensures
        store.notes[i].note_id != store.notes[j].note_id,
{
    let keys = note_keys(store.notes);
    assert(text_lt(keys[i], keys[j]));
    crate::text::lemma_text_lt_irreflexive(keys[i]);
}

/// What is listed for all notes adds up to all chunks.
pub proof fn law_lists_add_up(store: StoreModel)
    requires
        store_ok(store),
        lists_ok(store),
    ensures
        listed_count(store.notes, store.notes.len() as int) == store.chunks.len(),
{
    let n = store.notes.len() as int;
    let ids = all_ids(store.notes, n);
    let keys = chunk_keys(store.chunks);
    lemma_all_ids(store, n);
    assert(keys.no_duplicates()) by {
        assert forall|a: int, b: int| 0 <= a < b < keys.len() implies keys[a] != keys[b] by {
            assert(text_lt(keys[a], keys[b]));
            crate::text::lemma_text_lt_irreflexive(keys[a]);
        }
    }
    assert forall|id: Seq<char>| #[trigger] ids.to_set().contains(id) <==> keys.to_set().contains(
        id,
    ) by {
        if ids.contains(id) {
            let i = choose|i: int| 0 <= i < n && (#[trigger] store.notes[i]).chunk_ids.contains(id);
            lemma_listed_by(store, i, id);
            lemma_chunk_at(store, id);
            let c = chunk_at(store, id)->0;
            let k = choose|k: int| 0 <= k < store.chunks.len() && store.chunks[k] == c;
            assert(keys[k] == id);
        }
        if keys.contains(id) {
            let k = choose|k: int| 0 <= k < keys.len() && keys[k] == id;
            let c = store.chunks[k];
            assert(ids_of(store, c.note_id).contains(c.chunk_id));
            lemma_ids_of(store, c.note_id);
            let i = choose|i: int|
                0 <= i < n && (#[trigger] store.notes[i]).note_id == c.note_id;
            assert(store.notes[i].chunk_ids.contains(id));
        }
    }
    assert(ids.to_set() =~= keys.to_set());
    ids.unique_seq_to_set();
    keys.unique_seq_to_set();
}

} // verus!
