//! What holds of every search of the layers of memory.

use vstd::prelude::*;

use super::embedder::embedded;
use super::index::{
    embedded_results, entry_for, ids_differ, law_insert_replaces, lemma_place_of, place_of,
    EntryModel, ResultModel,
};
use super::progressive::{
    akin, best_memories, faded, gathered, is_met, item_entry, keywords_of,
    law_memories_are_distinct, layer_entries, layer_entry, memory_candidates, memory_place, merged,
    met_count, stop_words, text_embedding, with_item, with_text, without_item, working_entries,
    ItemModel, MemoryLayer, MemoryModel, RetrieverModel,
};
use crate::bits::{double_key, is_nan_double};
use crate::order::{
    law_greater_key_comes_first, law_ranked_is_in_order, lemma_ranked_differ, lemma_ranked_holds,
    lemma_ranked_places, ranked,
};
use crate::shadow::matching::{law_find_is_first, lowercase, occurs_at};
use crate::text::byte_len;
use crate::words::words;

verus! {

/// Whether a score is a number that is no less than another.
pub open spec fn scores_at_least(score: u64, min: u64) -> bool {
    !is_nan_double(score) && !is_nan_double(min) && double_key(score) >= double_key(min)
}

proof fn lemma_memory_at(entries: Seq<MemoryModel>, doc_id: Seq<char>)
    ensures
        0 <= memory_place(entries, doc_id) <= entries.len(),
        memory_place(entries, doc_id) < entries.len() ==> entries[memory_place(
            entries,
            doc_id,
        )].doc_id == doc_id,
        memory_place(entries, doc_id) == entries.len() ==> forall|i: int|
            0 <= i < entries.len() ==> (#[trigger] entries[i]).doc_id != doc_id,
    decreases entries.len(),
{
    if entries.len() > 0 && entries[0].doc_id != doc_id {
        let rest = entries.drop_first();
        lemma_memory_at(rest, doc_id);
        assert forall|i: int|
            0 <= i < entries.len() && memory_place(entries, doc_id) == entries.len() implies (
        #[trigger] entries[i]).doc_id != doc_id by {
            if i > 0 {
                assert(rest[i - 1] == entries[i]);
            }
        }
    }
}

/// Every merged entry is one of those given, with a score that is no less than the
/// least.
pub proof fn law_merged_entries_are_given(entries: Seq<MemoryModel>, min: u64, k: int)
    requires
        0 <= k < merged(entries, min).len(),
    ensures
        entries.contains(merged(entries, min)[k]),
        scores_at_least(merged(entries, min)[k].score_bits, min),
    decreases entries.len(),
{
    let front = entries.drop_last();
    let before = merged(front, min);
    let e = entries.last();
    lemma_memory_at(before, e.doc_id);
    assert(entries[entries.len() - 1] == e);
    if k < before.len() && merged(entries, min)[k] == before[k] {
        law_merged_entries_are_given(front, min, k);
        let i = choose|i: int| 0 <= i < front.len() && front[i] == before[k];
        assert(entries[i] == before[k]);
    }
}

/// Of every identifier the entry that scores most is kept: for each entry that
/// scores no less than the least, there is one with its identifier that scores no
/// less.
pub proof fn law_best_duplicate_is_kept(entries: Seq<MemoryModel>, min: u64, i: int)
    requires
        0 <= i < entries.len(),
        scores_at_least(entries[i].score_bits, min),
    ensures
        exists|k: int|
            0 <= k < merged(entries, min).len() && (#[trigger] merged(entries, min)[k]).doc_id
                == entries[i].doc_id && scores_at_least(
                merged(entries, min)[k].score_bits,
                entries[i].score_bits,
            ),
    decreases entries.len(),
{
    let front = entries.drop_last();
    let before = merged(front, min);
    let after = merged(entries, min);
    let e = entries.last();
    lemma_memory_at(before, e.doc_id);
    let at = memory_place(before, e.doc_id);
    if i < front.len() {
        assert(front[i] == entries[i]);
        law_best_duplicate_is_kept(front, min, i);
        let k = choose|k: int|
            0 <= k < before.len() && (#[trigger] before[k]).doc_id == entries[i].doc_id
                && scores_at_least(before[k].score_bits, entries[i].score_bits);
        law_merged_entries_are_given(front, min, k);
        assert(after[k].doc_id == entries[i].doc_id && scores_at_least(
            after[k].score_bits,
            entries[i].score_bits,
        ));
    } else if at < before.len() {
        law_merged_entries_are_given(front, min, at);
        assert(after[at].doc_id == e.doc_id && scores_at_least(after[at].score_bits, e.score_bits));
    } else {
        assert(after[before.len() as int] == e);
    }
}

/// The best entries are as many as asked for, as far as there are so many, each one
/// of those given, none scoring less than one behind it, and none is left out for
/// one that scores less.
pub proof fn law_best_entries_are_kept(entries: Seq<MemoryModel>, limit: int)
    requires
        entries.len() <= usize::MAX,
        0 <= limit,
    ensures
        ({
            let out = best_memories(entries, limit);
            &&& out.len() == if limit < entries.len() {
                limit
            } else {
                entries.len() as int
            }
            &&& forall|i: int| 0 <= i < out.len() ==> entries.contains(#[trigger] out[i])
            &&& forall|i: int, j: int|
                0 <= i < j < out.len() ==> double_key((#[trigger] out[i]).score_bits) >= double_key(
                    (#[trigger] out[j]).score_bits,
                )
            &&& forall|j: int|
                0 <= j < entries.len() ==> out.contains(#[trigger] entries[j]) || out.len() == limit
                    && forall|i: int|
                    0 <= i < out.len() ==> double_key((#[trigger] out[i]).score_bits) >= double_key(
                        entries[j].score_bits,
                    )
        }),
{
    let cs = memory_candidates(entries);
    let order = ranked(cs);
    let out = best_memories(entries, limit);
    law_ranked_is_in_order(cs);
    lemma_ranked_places(cs);
    assert forall|i: int| 0 <= i < order.len() implies (#[trigger] order[i]).index < entries.len()
        && order[i].key == double_key(entries[order[i].index as int].score_bits) by {
        assert(order[i] == cs[order[i].index as int]);
    }
    assert forall|i: int| 0 <= i < out.len() implies entries.contains(#[trigger] out[i]) by {
        assert(out[i] == entries[order[i].index as int]);
    }
    assert forall|i: int, j: int| 0 <= i < j < out.len() implies double_key(
        (#[trigger] out[i]).score_bits,
    ) >= double_key((#[trigger] out[j]).score_bits) by {
        law_greater_key_comes_first(cs, i, j);
    }
    assert forall|j: int| 0 <= j < entries.len() implies out.contains(#[trigger] entries[j])
        || out.len() == limit && forall|i: int|
        0 <= i < out.len() ==> double_key((#[trigger] out[i]).score_bits) >= double_key(
            entries[j].score_bits,
        ) by {
        let at = lemma_ranked_holds(cs, j);
        assert(order[at].index == j);
        if at < out.len() {
            assert(out[at] == entries[j]);
        } else {
            assert forall|i: int| 0 <= i < out.len() implies double_key(
                (#[trigger] out[i]).score_bits,
            ) >= double_key(entries[j].score_bits) by {
                law_greater_key_comes_first(cs, i, at);
            }
        }
    }
}

/// What is recalled: no more than asked for, each a faded entry that scores no less
/// than the least, no identifier twice, and none scoring less than one behind it.
pub proof fn law_recalled_entries_are_distinct_and_in_order(
    entries: Seq<MemoryModel>,
    left: Seq<u64>,
    half_life: u64,
    min: u64,
    limit: int,
)
    requires
        entries.len() <= usize::MAX,
        0 <= limit,
    ensures
        ({
            let all = faded(entries, left, half_life);
            let out = best_memories(merged(all, min), limit);
            &&& out.len() <= limit
            &&& forall|i: int|
                0 <= i < out.len() ==> all.contains(#[trigger] out[i]) && scores_at_least(
                    out[i].score_bits,
                    min,
                )
            &&& forall|i: int, j: int|
                0 <= i < j < out.len() ==> (#[trigger] out[i]).doc_id != (
                #[trigger] out[j]).doc_id && double_key(out[i].score_bits) >= double_key(
                    out[j].score_bits,
                )
        }),
{
    let all = faded(entries, left, half_life);
    let kept = merged(all, min);
    let out = best_memories(kept, limit);
    lemma_merged_len(all, min);
    law_best_entries_are_kept(kept, limit);
    law_memories_are_distinct(all, min);
    assert forall|i: int| 0 <= i < out.len() implies all.contains(#[trigger] out[i])
        && scores_at_least(out[i].score_bits, min) by {
        assert(kept.contains(out[i]));
        let k = choose|k: int| 0 <= k < kept.len() && kept[k] == out[i];
        law_merged_entries_are_given(all, min, k);
    }
    let cs = memory_candidates(kept);
    lemma_ranked_places(cs);
    assert(cs.no_duplicates());
    lemma_ranked_differ(cs);
    law_ranked_is_in_order(cs);
    assert forall|i: int, j: int| 0 <= i < j < out.len() implies (#[trigger] out[i]).doc_id != (
    #[trigger] out[j]).doc_id && double_key(out[i].score_bits) >= double_key(
        out[j].score_bits,
    ) by {
        let order = ranked(cs);
        assert(order[i] != order[j]);
        assert(order[i] == cs[order[i].index as int]);
        assert(order[j] == cs[order[j].index as int]);
        let a = order[i].index as int;
        let b = order[j].index as int;
        assert(a != b);
        if a < b {
            assert(kept[a].doc_id != kept[b].doc_id);
        } else {
            assert(kept[b].doc_id != kept[a].doc_id);
        }
    }
}

proof fn lemma_merged_len(entries: Seq<MemoryModel>, min: u64)
    ensures
        merged(entries, min).len() <= entries.len(),
    decreases entries.len(),
{
    if entries.len() > 0 {
        lemma_merged_len(entries.drop_last(), min);
        lemma_memory_at(merged(entries.drop_last(), min), entries.last().doc_id);
    }
}

/// What a layer gave is recalled, under its identifier and with no lower a score
/// than it has after fading, where that is no less than the least, unless as many
/// as were asked for score no less.
pub proof fn law_given_entry_is_recalled(
    entries: Seq<MemoryModel>,
    left: Seq<u64>,
    half_life: u64,
    min: u64,
    limit: int,
    i: int,
)
    requires
        entries.len() <= usize::MAX,
        0 <= limit,
        0 <= i < entries.len(),
        scores_at_least(faded(entries, left, half_life)[i].score_bits, min),
    ensures
        ({
            let out = best_memories(merged(faded(entries, left, half_life), min), limit);
            let score = faded(entries, left, half_life)[i].score_bits;
            ||| exists|k: int|
                0 <= k < out.len() && (#[trigger] out[k]).doc_id == entries[i].doc_id
                    && scores_at_least(out[k].score_bits, score)
            ||| out.len() == limit && forall|k: int|
                0 <= k < out.len() ==> double_key((#[trigger] out[k]).score_bits) >= double_key(
                    score,
                )
        }),
{
    let all = faded(entries, left, half_life);
    let kept = merged(all, min);
    let out = best_memories(kept, limit);
    lemma_merged_len(all, min);
    law_best_entries_are_kept(kept, limit);
    law_best_duplicate_is_kept(all, min, i);
    let k = choose|k: int|
        0 <= k < kept.len() && (#[trigger] kept[k]).doc_id == all[i].doc_id && scores_at_least(
            kept[k].score_bits,
            all[i].score_bits,
        );
    assert(all[i].doc_id == entries[i].doc_id);
    if out.contains(kept[k]) {
        let a = choose|a: int| 0 <= a < out.len() && out[a] == kept[k];
        assert(out[a].doc_id == entries[i].doc_id);
    }
}

/// Every run of letters and numbers that is longer than two bytes and no stop word
/// is a keyword, and every keyword is such a run.
pub proof fn law_keywords_are_the_telling_runs(candidates: Seq<Seq<char>>, w: Seq<char>)
    ensures
        keywords_of(candidates).contains(w) <==> candidates.contains(w) && byte_len(w) > 2
            && !stop_words().contains(w),
    decreases candidates.len(),
{
    if candidates.len() > 0 {
        let front = candidates.drop_last();
        let before = keywords_of(front);
        let after = keywords_of(candidates);
        let last = candidates.last();
        law_keywords_are_the_telling_runs(front, w);
        if after.contains(w) {
            let i = choose|i: int| 0 <= i < after.len() && after[i] == w;
            if i < before.len() {
                assert(before[i] == w);
                assert(before.contains(w));
                let k = choose|k: int| 0 <= k < front.len() && front[k] == w;
                assert(candidates[k] == w);
            } else {
                assert(candidates[candidates.len() - 1] == w);
            }
        }
        if candidates.contains(w) && byte_len(w) > 2 && !stop_words().contains(w) {
            if before.contains(w) {
                let i = choose|i: int| 0 <= i < before.len() && before[i] == w;
                assert(after[i] == w);
            } else {
                let k = choose|k: int| 0 <= k < candidates.len() && candidates[k] == w;
                if k < front.len() {
                    assert(front[k] == w);
                }
                assert(last == w);
                assert(after[before.len() as int] == w);
            }
        }
    }
}

/// Whether one text stands in another.
pub open spec fn stands_in(q: Seq<char>, s: Seq<char>) -> bool {
    exists|i: int| occurs_at(s, q, i)
}

/// An item is recalled exactly where one of its keywords stands in a word of the
/// query, or a word of the query in it. It is recalled as it is.
pub proof fn law_item_is_recalled_for_a_keyword(x: ItemModel, query: Seq<Seq<char>>)
    ensures
        item_entry(x, query) is Some <==> exists|k: int, i: int|
            0 <= k < x.keywords.len() && 0 <= i < query.len() && (stands_in(
                #[trigger] query[i],
                #[trigger] x.keywords[k],
            ) || stands_in(x.keywords[k], query[i])),
        item_entry(x, query) matches Some(m) ==> m.doc_id == x.doc_id && m.text == x.text
            && m.age_seconds == x.age_seconds && m.layer == MemoryLayer::Working,
{
    lemma_met(x.keywords, query);
    if met_count(x.keywords, query) > 0 {
        let (k, i) = choose|k: int, i: int|
            0 <= k < x.keywords.len() && 0 <= i < query.len() && akin(
                #[trigger] x.keywords[k],
                #[trigger] query[i],
            );
        law_find_is_first(x.keywords[k], query[i]);
        law_find_is_first(query[i], x.keywords[k]);
        assert(stands_in(query[i], x.keywords[k]) || stands_in(x.keywords[k], query[i]));
    }
    if exists|k: int, i: int|
        0 <= k < x.keywords.len() && 0 <= i < query.len() && (stands_in(
            #[trigger] query[i],
            #[trigger] x.keywords[k],
        ) || stands_in(x.keywords[k], query[i])) {
        let (k, i) = choose|k: int, i: int|
            0 <= k < x.keywords.len() && 0 <= i < query.len() && (stands_in(
                #[trigger] query[i],
                #[trigger] x.keywords[k],
            ) || stands_in(x.keywords[k], query[i]));
        law_find_is_first(x.keywords[k], query[i]);
        law_find_is_first(query[i], x.keywords[k]);
        assert(akin(x.keywords[k], query[i]));
    }
}

proof fn lemma_met(keywords: Seq<Seq<char>>, query: Seq<Seq<char>>)
    ensures
        met_count(keywords, query) > 0 <==> exists|k: int, i: int|
            0 <= k < keywords.len() && 0 <= i < query.len() && akin(
                #[trigger] keywords[k],
                #[trigger] query[i],
            ),
        met_count(keywords, query) <= keywords.len(),
    decreases keywords.len(),
{
    if keywords.len() > 0 {
        let front = keywords.drop_last();
        lemma_met(front, query);
        if met_count(front, query) > 0 {
            let (k, i) = choose|k: int, i: int|
                0 <= k < front.len() && 0 <= i < query.len() && akin(
                    #[trigger] front[k],
                    #[trigger] query[i],
                );
            assert(akin(keywords[k], query[i]));
        }
        if is_met(keywords.last(), query) {
            let i = choose|i: int| 0 <= i < query.len() && akin(keywords.last(), #[trigger] query[i]);
            assert(akin(keywords[keywords.len() - 1], query[i]));
        }
        if exists|k: int, i: int|
            0 <= k < keywords.len() && 0 <= i < query.len() && akin(
                #[trigger] keywords[k],
                #[trigger] query[i],
            ) {
            let (k, i) = choose|k: int, i: int|
                0 <= k < keywords.len() && 0 <= i < query.len() && akin(
                    #[trigger] keywords[k],
                    #[trigger] query[i],
                );
            if k < front.len() {
                assert(akin(front[k], query[i]));
            } else {
                assert(is_met(keywords.last(), query));
            }
        }
    }
}

/// What is at hand is recalled, no more than the limit, and an item that the query
/// meets is left out only where as many before it are recalled.
pub proof fn law_items_at_hand_are_recalled(
    items: Seq<ItemModel>,
    query: Seq<Seq<char>>,
    limit: nat,
    i: int,
)
    requires
        0 <= i < items.len(),
        item_entry(items[i], query) is Some,
    ensures
        working_entries(items, query, limit).len() <= limit,
        working_entries(items, query, limit).contains(item_entry(items[i], query)->0)
            || working_entries(items.take(i), query, limit).len() == limit,
    decreases items.len(),
{
    let front = items.drop_last();
    let before = working_entries(front, query, limit);
    let after = working_entries(items, query, limit);
    lemma_working_len(items, query, limit);
    lemma_working_len(front, query, limit);
    if i < front.len() {
        assert(front[i] == items[i]);
        assert(front.take(i) =~= items.take(i));
        law_items_at_hand_are_recalled(front, query, limit, i);
        let m = item_entry(items[i], query)->0;
        if before.contains(m) {
            let k = choose|k: int| 0 <= k < before.len() && before[k] == m;
            assert(after[k] == m);
        }
    } else {
        assert(items.take(i) =~= front);
        if before.len() < limit {
            assert(after[before.len() as int] == item_entry(items[i], query)->0);
        }
    }
}

proof fn lemma_working_len(items: Seq<ItemModel>, query: Seq<Seq<char>>, limit: nat)
    ensures
        working_entries(items, query, limit).len() <= limit,
    decreases items.len(),
{
    if items.len() > 0 {
        lemma_working_len(items.drop_last(), query, limit);
    }
}

/// Every recalled item is one at hand.
pub proof fn law_recalled_items_are_at_hand(
    items: Seq<ItemModel>,
    query: Seq<Seq<char>>,
    limit: nat,
    k: int,
) -> (i: int)
    requires
        0 <= k < working_entries(items, query, limit).len(),
    ensures
        0 <= i < items.len(),
        item_entry(items[i], query) == Some(working_entries(items, query, limit)[k]),
    decreases items.len(),
{
    let front = items.drop_last();
    let before = working_entries(front, query, limit);
    if k < before.len() {
        let i = law_recalled_items_are_at_hand(front, query, limit, k);
        assert(working_entries(items, query, limit)[k] == before[k]);
        assert(front[i] == items[i]);
        i
    } else {
        items.len() - 1
    }
}

/// Putting something away takes away all with its identifier, and nothing else.
pub proof fn law_only_that_item_is_put_away(items: Seq<ItemModel>, doc_id: Seq<char>, x: ItemModel)
    ensures
        without_item(items, doc_id).contains(x) <==> items.contains(x) && x.doc_id != doc_id,
    decreases items.len(),
{
    if items.len() > 0 {
        let front = items.drop_last();
        let before = without_item(front, doc_id);
        let after = without_item(items, doc_id);
        law_only_that_item_is_put_away(front, doc_id, x);
        if after.contains(x) {
            let i = choose|i: int| 0 <= i < after.len() && after[i] == x;
            if i < before.len() {
                assert(before[i] == x);
                assert(before.contains(x));
                let k = choose|k: int| 0 <= k < front.len() && front[k] == x;
                assert(items[k] == x);
            } else {
                assert(items[items.len() - 1] == x);
            }
        }
        if items.contains(x) && x.doc_id != doc_id {
            let k = choose|k: int| 0 <= k < items.len() && items[k] == x;
            if k < front.len() {
                assert(front[k] == x);
                assert(before.contains(x));
                let i = choose|i: int| 0 <= i < before.len() && before[i] == x;
                assert(after[i] == x);
            } else {
                assert(after[before.len() as int] == x);
            }
        }
    }
}

/// What is put at hand is there, and everything else stays, as far as there are no
/// more than 32 items: beyond that the oldest go first.
pub proof fn law_item_is_put_at_hand(items: Seq<ItemModel>, x: ItemModel, other: ItemModel)
    ensures
        with_item(items, x).contains(x),
        without_item(items, x.doc_id).len() < 32 ==> (with_item(items, x).contains(other)
            <==> other == x || items.contains(other) && other.doc_id != x.doc_id),
        without_item(items, x.doc_id).len() >= 32 ==> with_item(items, x).len() == 32 && forall|
            i: int,
        |
            0 <= i < 31 ==> #[trigger] with_item(items, x)[i] == without_item(
                items,
                x.doc_id,
            )[without_item(items, x.doc_id).len() - 31 + i],
{
    let rest = without_item(items, x.doc_id);
    let after = with_item(items, x);
    law_only_that_item_is_put_away(items, x.doc_id, other);
    assert(after[after.len() - 1] == x);
    if rest.len() < 32 {
        assert(after == rest.push(x));
        if after.contains(other) && other != x {
            let i = choose|i: int| 0 <= i < after.len() && after[i] == other;
            assert(rest[i] == other);
        }
        if rest.contains(other) {
            let i = choose|i: int| 0 <= i < rest.len() && rest[i] == other;
            assert(after[i] == other);
        }
    }
}

/// What the session remembers scores twice what the same would score for long: an
/// ordinary score has an exponent that is one greater.
pub proof fn law_session_scores_twice(x: ResultModel)
    requires
        0x80_0000 <= x.score_bits < 0x7f80_0000,
    ensures
        layer_entry(x, MemoryLayer::Session).score_bits == layer_entry(
            x,
            MemoryLayer::LongTerm,
        ).score_bits + 0x10_0000_0000_0000,
        layer_entry(x, MemoryLayer::LongTerm).score_bits == (x.score_bits / 0x80_0000 + 896)
            * 0x10_0000_0000_0000 + (x.score_bits % 0x80_0000) * 0x2000_0000,
        layer_entry(x, MemoryLayer::Session).doc_id == x.doc_id,
        layer_entry(x, MemoryLayer::LongTerm).doc_id == x.doc_id,
{
}

/// What has no age, or fades in no time, keeps its score.
pub proof fn law_new_memories_do_not_fade(
    entries: Seq<MemoryModel>,
    left: Seq<u64>,
    half_life: u64,
    i: int,
)
    requires
        0 <= i < entries.len(),
        entries[i].age_seconds == 0 || half_life == 0,
    ensures
        faded(entries, left, half_life)[i] == entries[i],
{
}

/// The layers give all that they find: what is at hand, what the index of the
/// session finds and what the index of the rest finds.
pub proof fn law_all_layers_are_searched(m: RetrieverModel, query: Seq<char>, x: MemoryModel)
    ensures
        gathered(m, query).contains(x) <==> working_entries(
            m.working,
            words(lowercase(query)),
            m.config.working_limit as nat,
        ).contains(x) || (exists|k: int|
            0 <= k < found_of_session(m, query).len() && x == layer_entry(
                #[trigger] found_of_session(m, query)[k],
                MemoryLayer::Session,
            )) || (exists|k: int|
            0 <= k < found_of_the_rest(m, query).len() && x == layer_entry(
                #[trigger] found_of_the_rest(m, query)[k],
                MemoryLayer::LongTerm,
            )),
{
    let a = working_entries(m.working, words(lowercase(query)), m.config.working_limit as nat);
    let b = layer_entries(found_of_session(m, query), MemoryLayer::Session);
    let c = layer_entries(found_of_the_rest(m, query), MemoryLayer::LongTerm);
    let all = gathered(m, query);
    assert(all =~= a + b + c);
    if all.contains(x) {
        let i = choose|i: int| 0 <= i < all.len() && all[i] == x;
        if i < a.len() {
            assert(a[i] == x);
        } else if i < a.len() + b.len() {
            assert(b[i - a.len()] == x);
            assert(x == layer_entry(
                found_of_session(m, query)[i - a.len()],
                MemoryLayer::Session,
            ));
        } else {
            assert(c[i - a.len() - b.len()] == x);
            assert(x == layer_entry(
                found_of_the_rest(m, query)[i - a.len() - b.len()],
                MemoryLayer::LongTerm,
            ));
        }
    }
    if a.contains(x) {
        let i = choose|i: int| 0 <= i < a.len() && a[i] == x;
        assert(all[i] == x);
    }
    if exists|k: int|
        0 <= k < found_of_session(m, query).len() && x == layer_entry(
            #[trigger] found_of_session(m, query)[k],
            MemoryLayer::Session,
        ) {
        let k = choose|k: int|
            0 <= k < found_of_session(m, query).len() && x == layer_entry(
                #[trigger] found_of_session(m, query)[k],
                MemoryLayer::Session,
            );
        assert(all[a.len() + k] == b[k]);
    }
    if exists|k: int|
        0 <= k < found_of_the_rest(m, query).len() && x == layer_entry(
            #[trigger] found_of_the_rest(m, query)[k],
            MemoryLayer::LongTerm,
        ) {
        let k = choose|k: int|
            0 <= k < found_of_the_rest(m, query).len() && x == layer_entry(
                #[trigger] found_of_the_rest(m, query)[k],
                MemoryLayer::LongTerm,
            );
        assert(all[a.len() + b.len() + k] == c[k]);
    }
}

/// What the index of the session finds: of the hundred nearest signatures the best.
pub open spec fn found_of_session(m: RetrieverModel, query: Seq<char>) -> Seq<ResultModel> {
    embedded_results(m.session, 100, text_embedding(query), m.config.session_limit as int)
}

/// What the index of the rest finds.
pub open spec fn found_of_the_rest(m: RetrieverModel, query: Seq<char>) -> Seq<ResultModel> {
    embedded_results(m.longterm, 100, text_embedding(query), m.config.longterm_limit as int)
}

/// What is remembered is found as it was told: under its identifier, with its text
/// and the embedding of that in lower case, and every other memory stays.
pub proof fn law_text_is_remembered(
    entries: Seq<EntryModel>,
    doc_id: Seq<char>,
    text: Seq<char>,
    other: EntryModel,
)
    requires
        ids_differ(entries),
    ensures
        with_text(entries, doc_id, text).contains(
            entry_for(doc_id, embedded(lowercase(text), 1024), text),
        ),
        entries.contains(other) && other.doc_id != doc_id ==> with_text(
            entries,
            doc_id,
            text,
        ).contains(other),
        with_text(entries, doc_id, text).contains(other) && other.doc_id != doc_id
            ==> entries.contains(other),
        ids_differ(with_text(entries, doc_id, text)),
{
    let e = entry_for(doc_id, embedded(lowercase(text), 1024), text);
    let after = with_text(entries, doc_id, text);
    law_insert_replaces(entries, e, other.doc_id);
    lemma_place_of(entries, doc_id);
    let at = place_of(entries, doc_id);
    assert(after[at] == e);
    if entries.contains(other) && other.doc_id != doc_id {
        let k = choose|k: int| 0 <= k < entries.len() && entries[k] == other;
        assert(k != at);
        assert(after[k] == other);
    }
    if after.contains(other) && other.doc_id != doc_id {
        let k = choose|k: int| 0 <= k < after.len() && after[k] == other;
        assert(k != at);
        assert(entries[k] == other);
    }
}

} // verus!
