//! What holds of every search of the index.

use vstd::prelude::*;

use super::index::{
    best_results, embedded_results, entry_for, first_places, near_candidates, place_scores,
    scored_candidates, EntryModel, ResultModel,
};
use crate::bits::value_key;
use crate::order::{
    law_greater_key_comes_first, law_ranked_is_in_order, lemma_ranked_differ, lemma_ranked_holds,
    lemma_ranked_places, ranked, CandidateModel,
};
use crate::quant::binary::{distance, law_distance, law_signature_keeps_signs, sign_codes};
use crate::quant::packing::{code_in, packed};
use crate::quant::products::dot;

verus! {

/// The lesser of two counts.
pub open spec fn fewer(a: int, b: int) -> int {
    if a < b {
        a
    } else {
        b
    }
}

/// The first places are as many as asked for, as far as there are so many, lead to
/// different candidates, and leave out none with a greater key than one of them.
proof fn lemma_first_places(cs: Seq<CandidateModel>, k: int)
    requires
        forall|j: int| 0 <= j < cs.len() ==> (#[trigger] cs[j]).index == j,
        forall|j: int| 0 <= j < cs.len() ==> (#[trigger] cs[j]).id == Seq::<char>::empty(),
        0 <= k,
    ensures
        first_places(cs, k).len() == fewer(k, cs.len() as int),
        first_places(cs, k).no_duplicates(),
        forall|i: int|
            0 <= i < first_places(cs, k).len() ==> (#[trigger] first_places(cs, k)[i]) < cs.len(),
        forall|i: int, j: int|
            0 <= i < j < first_places(cs, k).len() ==> cs[(#[trigger] first_places(
                cs,
                k,
            )[i]) as int].key >= cs[(#[trigger] first_places(cs, k)[j]) as int].key,
        forall|i: int, j: int|
            0 <= i < first_places(cs, k).len() && 0 <= j < cs.len() && !first_places(
                cs,
                k,
            ).contains(j as usize) ==> cs[(#[trigger] first_places(cs, k)[i]) as int].key > (
            #[trigger] cs[j]).key || cs[first_places(cs, k)[i] as int].key == cs[j].key
                && first_places(cs, k)[i] < j,
{
    let order = ranked(cs);
    let places = first_places(cs, k);
    law_ranked_is_in_order(cs);
    lemma_ranked_places(cs);
    assert(cs.no_duplicates());
    lemma_ranked_differ(cs);
    assert forall|i: int| 0 <= i < places.len() implies (#[trigger] places[i]) < cs.len() by {
        assert(order[i].index < cs.len());
    }
    assert forall|i: int, j: int| 0 <= i < places.len() && 0 <= j < places.len() && i != j implies
        places[i] != places[j] by {
        assert(order[i] == cs[order[i].index as int]);
        assert(order[j] == cs[order[j].index as int]);
    }
    assert forall|i: int, j: int| 0 <= i < j < places.len() implies cs[(
    #[trigger] places[i]) as int].key >= cs[(#[trigger] places[j]) as int].key by {
        law_greater_key_comes_first(cs, i, j);
        assert(order[i] == cs[order[i].index as int]);
        assert(order[j] == cs[order[j].index as int]);
    }
    assert forall|i: int, j: int|
        0 <= i < places.len() && 0 <= j < cs.len() && !places.contains(j as usize) implies cs[(
    #[trigger] places[i]) as int].key > (#[trigger] cs[j]).key || cs[places[i] as int].key
        == cs[j].key && places[i] < j by {
        let at = lemma_ranked_holds(cs, j);
        assert(order[at].index == j);
        if at < places.len() {
            assert(places[at] == j as usize);
            assert(places.contains(j as usize));
        }
        law_greater_key_comes_first(cs, i, at);
        assert(order[i] == cs[order[i].index as int]);
        assert(order[i] != order[at]);
    }
}

/// The first phase keeps the nearest signatures: as many as asked for, each entry
/// once, and none that is left out is nearer to the signature of the query than
/// one that is kept. Of those as near the first ones are kept.
pub proof fn law_nearest_signatures_are_kept(entries: Seq<EntryModel>, signature: Seq<u8>, k: int)
    requires
        entries.len() <= usize::MAX,
        8 * signature.len() <= u32::MAX,
        0 <= k,
    ensures
        ({
            let kept = first_places(near_candidates(entries, signature), k);
            &&& kept.len() == if k < entries.len() {
                k
            } else {
                entries.len() as int
            }
            &&& kept.no_duplicates()
            &&& forall|i: int| 0 <= i < kept.len() ==> (#[trigger] kept[i]) < entries.len()
            &&& forall|i: int, j: int|
                0 <= i < kept.len() && 0 <= j < entries.len() && !kept.contains(j as usize)
                    ==> distance(signature, entries[(#[trigger] kept[i]) as int].binary) < distance(
                    signature,
                    (#[trigger] entries[j]).binary,
                ) || distance(signature, entries[kept[i] as int].binary) == distance(
                    signature,
                    entries[j].binary,
                ) && kept[i] < j
        }),
{
    let cs = near_candidates(entries, signature);
    let kept = first_places(cs, k);
    lemma_first_places(cs, k);
    assert forall|j: int| 0 <= j < entries.len() implies (#[trigger] cs[j]).key == -distance(
        signature,
        entries[j].binary,
    ) by {
        law_distance(signature, entries[j].binary);
    }
    assert forall|i: int, j: int|
        0 <= i < kept.len() && 0 <= j < entries.len() && !kept.contains(j as usize) implies distance(
        signature,
        entries[(#[trigger] kept[i]) as int].binary,
    ) < distance(signature, (#[trigger] entries[j]).binary) || distance(
        signature,
        entries[kept[i] as int].binary,
    ) == distance(signature, entries[j].binary) && kept[i] < j by {
        assert(cs[kept[i] as int].key >= cs[j].key);
    }
}

/// An entry with the signature of the query is kept by the first phase, unless as
/// many others before it have that signature too.
pub proof fn law_same_signature_is_kept(
    entries: Seq<EntryModel>,
    signature: Seq<u8>,
    k: int,
    j: int,
)
    requires
        entries.len() <= usize::MAX,
        8 * signature.len() <= u32::MAX,
        0 <= k,
        0 <= j < entries.len(),
        entries[j].binary == signature,
    ensures
        ({
            let kept = first_places(near_candidates(entries, signature), k);
            ||| kept.contains(j as usize)
            ||| kept.len() == k && forall|i: int|
                0 <= i < kept.len() ==> (#[trigger] kept[i]) < j && distance(
                    signature,
                    entries[kept[i] as int].binary,
                ) == 0
        }),
{
    law_nearest_signatures_are_kept(entries, signature, k);
    law_distance(signature, signature);
    let kept = first_places(near_candidates(entries, signature), k);
    if !kept.contains(j as usize) {
        assert forall|i: int| 0 <= i < kept.len() implies (#[trigger] kept[i]) < j && distance(
            signature,
            entries[kept[i] as int].binary,
        ) == 0 by {
            assert(distance(signature, entries[j].binary) == 0);
        }
        if kept.len() != k {
            assert(kept.len() == entries.len());
            lemma_all_places(kept, entries.len());
        }
    }
}

/// Whether a result is an entry, scored by the product of its embedding with that
/// of the query.
pub open spec fn is_entry(x: ResultModel, e: EntryModel, query: Seq<u32>) -> bool {
    x.doc_id == e.doc_id && x.text == e.text && x.score_bits == dot(query, e.components)
}

/// The results of the second phase: as many as asked for, as far as so many were
/// kept, each an entry that was kept, no result scoring less than one behind it,
/// and none that was kept is left out for one that scores less.
proof fn lemma_best_results(
    entries: Seq<EntryModel>,
    places: Seq<usize>,
    query: Seq<u32>,
    k: int,
)
    requires
        places.len() <= usize::MAX,
        0 <= k,
    ensures
        ({
            let out = best_results(entries, places, place_scores(entries, places, query), k);
            &&& out.len() == fewer(k, places.len() as int)
            &&& forall|i: int|
                0 <= i < out.len() ==> exists|a: int|
                    0 <= a < places.len() && is_entry(
                        #[trigger] out[i],
                        entries[(#[trigger] places[a]) as int],
                        query,
                    )
            &&& forall|i: int, j: int|
                0 <= i < j < out.len() ==> value_key((#[trigger] out[i]).score_bits) >= value_key(
                    (#[trigger] out[j]).score_bits,
                )
            &&& forall|a: int|
                0 <= a < places.len() ==> (exists|i: int|
                    0 <= i < out.len() && is_entry(
                        #[trigger] out[i],
                        entries[places[a] as int],
                        query,
                    )) || out.len() == k && forall|i: int|
                    0 <= i < out.len() ==> value_key((#[trigger] out[i]).score_bits) >= value_key(
                        dot(query, entries[(#[trigger] places[a]) as int].components),
                    )
        }),
{
    let scores = place_scores(entries, places, query);
    let cs = scored_candidates(scores);
    let best = first_places(cs, k);
    let out = best_results(entries, places, scores, k);
    lemma_first_places(cs, k);
    assert forall|j: int| 0 <= j < cs.len() implies (#[trigger] cs[j]).key == value_key(
        dot(query, entries[places[j] as int].components),
    ) by {
        assert(scores[j] == dot(query, entries[places[j] as int].components));
    }
    assert forall|i: int| 0 <= i < out.len() implies is_entry(
        #[trigger] out[i],
        entries[places[best[i] as int] as int],
        query,
    ) && value_key(out[i].score_bits) == cs[best[i] as int].key by {
        assert(best[i] < cs.len());
    }
    assert forall|i: int, j: int| 0 <= i < j < out.len() implies value_key(
        (#[trigger] out[i]).score_bits,
    ) >= value_key((#[trigger] out[j]).score_bits) by {
        assert(cs[best[i] as int].key >= cs[best[j] as int].key);
    }
    assert forall|i: int| 0 <= i < out.len() implies exists|a: int|
        0 <= a < places.len() && is_entry(
            #[trigger] out[i],
            entries[(#[trigger] places[a]) as int],
            query,
        ) by {
        let a = best[i] as int;
        assert(0 <= a < places.len());
        assert(is_entry(out[i], entries[places[a] as int], query));
    }
    assert forall|a: int| 0 <= a < places.len() implies (exists|i: int|
        0 <= i < out.len() && is_entry(#[trigger] out[i], entries[places[a] as int], query))
        || out.len() == k && forall|i: int|
        0 <= i < out.len() ==> value_key((#[trigger] out[i]).score_bits) >= value_key(
            dot(query, entries[(#[trigger] places[a]) as int].components),
        ) by {
        if best.contains(a as usize) {
            let i = choose|i: int| 0 <= i < best.len() && best[i] == a as usize;
            assert(is_entry(out[i], entries[places[a] as int], query));
        } else {
            assert forall|i: int| 0 <= i < out.len() implies value_key(
                (#[trigger] out[i]).score_bits,
            ) >= value_key(dot(query, entries[places[a] as int].components)) by {
                assert(cs[best[i] as int].key >= cs[a].key);
            }
            if out.len() != k {
                lemma_all_places(best, cs.len());
            }
        }
    }
}

/// Whether as many other entries as the first phase keeps are no further from the
/// signature of the query than the entry at `p`.
pub open spec fn has_nearer(
    entries: Seq<EntryModel>,
    signature: Seq<u8>,
    p: int,
    nearer: Seq<usize>,
    count: int,
) -> bool {
    &&& nearer.len() == count
    &&& nearer.no_duplicates()
    &&& !nearer.contains(p as usize)
    &&& forall|i: int|
        0 <= i < nearer.len() ==> (#[trigger] nearer[i]) < entries.len() && distance(
            signature,
            entries[nearer[i] as int].binary,
        ) <= distance(signature, entries[p].binary)
}

/// A search gives as many results as asked for, as far as there are so many and
/// the first phase keeps so many. Each is an entry with the product of its
/// embedding and that of the query as its score, and none scores less than one
/// behind it.
pub proof fn law_results_are_the_entries_in_order(
    entries: Seq<EntryModel>,
    binary_top_k: int,
    query: Seq<u32>,
    k: int,
)
    requires
        entries.len() <= usize::MAX,
        8 * packed(sign_codes(query), 1, query.len()).len() <= u32::MAX,
        0 <= binary_top_k,
        0 <= k,
    ensures
        ({
            let out = embedded_results(entries, binary_top_k, query, k);
            &&& out.len() == fewer(k, fewer(binary_top_k, entries.len() as int))
            &&& forall|i: int|
                0 <= i < out.len() ==> exists|p: int|
                    0 <= p < entries.len() && is_entry(#[trigger] out[i], entries[p], query)
            &&& forall|i: int, j: int|
                0 <= i < j < out.len() ==> value_key((#[trigger] out[i]).score_bits) >= value_key(
                    (#[trigger] out[j]).score_bits,
                )
        }),
{
    let signature = packed(sign_codes(query), 1, query.len());
    let kept = first_places(near_candidates(entries, signature), binary_top_k);
    let out = embedded_results(entries, binary_top_k, query, k);
    law_nearest_signatures_are_kept(entries, signature, binary_top_k);
    lemma_best_results(entries, kept, query, k);
    assert forall|i: int| 0 <= i < out.len() implies exists|p: int|
        0 <= p < entries.len() && is_entry(#[trigger] out[i], entries[p], query) by {
        let a = choose|a: int|
            0 <= a < kept.len() && is_entry(out[i], entries[(#[trigger] kept[a]) as int], query);
        let p = kept[a] as int;
        assert(0 <= p < entries.len());
        assert(is_entry(out[i], entries[p], query));
    }
}

/// An entry is left out of the results only where as many results as were asked
/// for score no less, or as many other entries as the first phase keeps are no
/// further from the query.
pub proof fn law_entry_is_left_out_for_better_ones(
    entries: Seq<EntryModel>,
    binary_top_k: int,
    query: Seq<u32>,
    k: int,
    p: int,
)
    requires
        entries.len() <= usize::MAX,
        8 * packed(sign_codes(query), 1, query.len()).len() <= u32::MAX,
        0 <= binary_top_k,
        0 <= k,
        0 <= p < entries.len(),
    ensures
        ({
            let out = embedded_results(entries, binary_top_k, query, k);
            ||| exists|i: int| 0 <= i < out.len() && is_entry(#[trigger] out[i], entries[p], query)
            ||| out.len() == k && forall|i: int|
                0 <= i < out.len() ==> value_key((#[trigger] out[i]).score_bits) >= value_key(
                    dot(query, entries[p].components),
                )
            ||| exists|nearer: Seq<usize>| #[trigger]
                has_nearer(
                    entries,
                    packed(sign_codes(query), 1, query.len()),
                    p,
                    nearer,
                    binary_top_k,
                )
        }),
{
    let signature = packed(sign_codes(query), 1, query.len());
    let kept = first_places(near_candidates(entries, signature), binary_top_k);
    law_nearest_signatures_are_kept(entries, signature, binary_top_k);
    lemma_best_results(entries, kept, query, k);
    if kept.contains(p as usize) {
        let a = choose|a: int| 0 <= a < kept.len() && kept[a] == p as usize;
        assert(entries[kept[a] as int] == entries[p]);
    } else {
        if kept.len() != binary_top_k {
            lemma_all_places(kept, entries.len());
        }
        assert(has_nearer(entries, signature, p, kept, binary_top_k));
    }
}

/// As many different places as there are entries are all of them.
proof fn lemma_all_places(places: Seq<usize>, n: nat)
    requires
        places.no_duplicates(),
        places.len() == n,
        forall|i: int| 0 <= i < places.len() ==> (#[trigger] places[i]) < n,
    ensures
        forall|j: int| 0 <= j < n ==> #[trigger] places.contains(j as usize),
{
    let s = places.map_values(|p: usize| p as int);
    assert(s.no_duplicates());
    s.unique_seq_to_set();
    let all = vstd::set_lib::set_int_range(0, n as int);
    vstd::set_lib::lemma_int_range(0, n as int);
    assert(s.to_set().subset_of(all)) by {
        assert forall|x: int| s.to_set().contains(x) implies all.contains(x) by {
            let i = choose|i: int| 0 <= i < s.len() && s[i] == x;
            assert(places[i] < n);
        }
    }
    vstd::set_lib::lemma_subset_equality(s.to_set(), all);
    assert forall|j: int| 0 <= j < n implies #[trigger] places.contains(j as usize) by {
        assert(all.contains(j));
        assert(s.contains(j));
        let i = choose|i: int| 0 <= i < s.len() && s[i] == j;
        assert(places[i] == j as usize);
    }
}

/// The entry of a document keeps its text and its embedding, and its signature tells
/// the sign of each component.
pub proof fn law_entry_keeps_its_document(
    doc_id: Seq<char>,
    components: Seq<u32>,
    text: Seq<char>,
    i: int,
)
    requires
        0 <= i < components.len(),
    ensures
        entry_for(doc_id, components, text).doc_id == doc_id,
        entry_for(doc_id, components, text).text == text,
        entry_for(doc_id, components, text).components == components,
        code_in(entry_for(doc_id, components, text).binary, 1, i) == 1 <==> 0 < components[i]
            <= 0x7f80_0000,
{
    law_signature_keeps_signs(components, i);
}

} // verus!
