//! Weighted reciprocal rank fusion of three rankings, in single precision.

use vstd::prelude::*;

use super::channels::id_views;
use crate::float::{
    divide, is_number, number_two_to, plus, quotient, round_integer, rounded, single_bits, sum,
    to_single_bits, two_to, Number, Rounded,
};
use crate::keys::{
    ascending, find_text, lemma_has_key, lemma_place, lemma_with_key, string_views, with_key,
};
use crate::text::text_eq;

verus! {

/// A ranking that takes part in the fusion.
#[derive(Clone, Copy, Debug, PartialEq, Eq, Structural)]
pub enum Channel {
    Title,
    Bm25,
    TrigramVector,
}

/// The weight of a channel, as the nearest single: 1.35, 1 and 0.8.
pub open spec fn weight(c: Channel) -> Number {
    match c {
        Channel::Title => Number { m: 11324621, e: -23 },
        Channel::Bm25 => two_to(24, 0),
        Channel::TrigramVector => Number { m: 13421773, e: -24 },
    }
}

/// What a rank, counted from zero, adds to a score: the weight divided by
/// sixty and the rank and one.
pub open spec fn term(c: Channel, rank: nat) -> Number {
    quotient(
        24,
        weight(c),
        sum(24, sum(24, rounded(24, 60, 1), rounded(24, rank as int, 1)), two_to(24, 0)),
    )
}

/// One place in one ranking.
#[verifier::ext_equal]
pub struct Entry {
    pub id: Seq<char>,
    pub channel: Channel,
    pub rank: nat,
}

pub open spec fn channel_entries(c: Channel, ids: Seq<Seq<char>>) -> Seq<Entry> {
    Seq::new(ids.len(), |i: int| Entry { id: ids[i], channel: c, rank: i as nat })
}

/// The places in all rankings: titles, then full text, then vectors.
pub open spec fn all_entries(
    title: Seq<Seq<char>>,
    lexical: Seq<Seq<char>>,
    vector: Seq<Seq<char>>,
) -> Seq<Entry> {
    channel_entries(Channel::Title, title) + channel_entries(Channel::Bm25, lexical)
        + channel_entries(Channel::TrigramVector, vector)
}

/// The score of an identifier: what its places add, in their order.
pub open spec fn score_of(entries: Seq<Entry>, id: Seq<char>) -> Number
    decreases entries.len(),
{
    if entries.len() == 0 {
        Number { m: 0, e: 0 }
    } else {
        let before = score_of(entries.drop_last(), id);
        let last = entries.last();
        if last.id == id {
            sum(24, before, term(last.channel, last.rank))
        } else {
            before
        }
    }
}

/// Whether a ranking names an identifier.
pub open spec fn is_named(entries: Seq<Entry>, c: Channel, id: Seq<char>) -> bool {
    exists|i: int| 0 <= i < entries.len() && (#[trigger] entries[i]).id == id && entries[i].channel == c
}

/// The identifiers that occur, in ascending order.
pub open spec fn entry_ids(entries: Seq<Entry>) -> Seq<Seq<char>>
    decreases entries.len(),
{
    if entries.len() == 0 {
        Seq::empty()
    } else {
        with_key(entry_ids(entries.drop_last()), entries.last().id)
    }
}

/// The occurring identifiers are in order, and are those of the places.
pub proof fn lemma_entry_ids(entries: Seq<Entry>)
    ensures
        ascending(entry_ids(entries)),
        forall|id: Seq<char>| #[trigger]
            entry_ids(entries).contains(id) <==> exists|i: int|
                0 <= i < entries.len() && (#[trigger] entries[i]).id == id,
    decreases entries.len(),
{
    if entries.len() > 0 {
        let front = entries.drop_last();
        lemma_entry_ids(front);
        lemma_with_key(entry_ids(front), entries.last().id);
        assert forall|id: Seq<char>| #[trigger] entry_ids(entries).contains(id) <==> exists|i: int|
            0 <= i < entries.len() && (#[trigger] entries[i]).id == id by {
            if entry_ids(entries).contains(id) {
                if id == entries.last().id {
                    assert(entries[entries.len() - 1].id == id);
                } else {
                    assert(entry_ids(front).contains(id));
                    let i = choose|i: int| 0 <= i < front.len() && (#[trigger] front[i]).id == id;
                    assert(entries[i].id == id);
                }
            }
            if exists|i: int| 0 <= i < entries.len() && (#[trigger] entries[i]).id == id {
                let i = choose|i: int| 0 <= i < entries.len() && (#[trigger] entries[i]).id == id;
                if i < front.len() {
                    assert(front[i].id == id);
                    assert(entry_ids(front).contains(id));
                }
            }
        }
    }
}

/// A fused identifier: its score and the rankings that name it.
pub struct Fused {
    pub id: String,
    pub score_bits: u32,
    pub title: bool,
    pub bm25: bool,
    pub trigram_vector: bool,
}

#[verifier::ext_equal]
pub struct FusedModel {
    pub id: Seq<char>,
    pub score_bits: u32,
    pub title: bool,
    pub bm25: bool,
    pub trigram_vector: bool,
}

impl View for Fused {
    type V = FusedModel;

    open spec fn view(&self) -> FusedModel {
        FusedModel {
            id: self.id@,
            score_bits: self.score_bits,
            title: self.title,
            bm25: self.bm25,
            trigram_vector: self.trigram_vector,
        }
    }
}

pub open spec fn fused_models(v: Seq<Fused>) -> Seq<FusedModel> {
    v.map_values(|f: Fused| f@)
}

/// What the fusion says of an identifier.
pub open spec fn fused_of(entries: Seq<Entry>, id: Seq<char>) -> FusedModel {
    FusedModel {
        id,
        score_bits: single_bits(score_of(entries, id)) as u32,
        title: is_named(entries, Channel::Title, id),
        bm25: is_named(entries, Channel::Bm25, id),
        trigram_vector: is_named(entries, Channel::TrigramVector, id),
    }
}

/// What the fusion says of every identifier that occurs, in ascending order.
pub open spec fn fused(entries: Seq<Entry>) -> Seq<FusedModel> {
    entry_ids(entries).map_values(|id: Seq<char>| fused_of(entries, id))
}

fn rank_term(c: Channel, rank: usize) -> (r: Rounded)
    ensures
        r@ == term(c, rank as nat),
        is_number(24, r@),
        r.m > 0,
        -120 <= r.e <= 26,
{
    proof {
        crate::float::lemma_pow2_values();
    }
    let w: Rounded = match c {
        Channel::Title => Rounded { m: 11324621, e: -23 },
        Channel::Bm25 => number_two_to(24, 0),
        Channel::TrigramVector => Rounded { m: 13421773, e: -24 },
    };
    let n: Rounded = plus(
        24,
        plus(24, round_integer(24, 60), round_integer(24, rank as u64)),
        number_two_to(24, 0),
    );
    divide(24, w, n)
}

/// What is known of the identifiers met so far.
struct Tally {
    ids: Vec<String>,
    scores: Vec<Rounded>,
    title: Vec<bool>,
    bm25: Vec<bool>,
    trigram_vector: Vec<bool>,
}

spec fn tally_ok(t: Tally, entries: Seq<Entry>) -> bool {
    &&& string_views(t.ids@) == entry_ids(entries)
    &&& ascending(string_views(t.ids@))
    &&& t.scores@.len() == t.ids@.len()
    &&& t.title@.len() == t.ids@.len()
    &&& t.bm25@.len() == t.ids@.len()
    &&& t.trigram_vector@.len() == t.ids@.len()
    &&& forall|i: int| 0 <= i < t.ids@.len() ==> place_ok(t, entries, i)
}

spec fn place_ok(t: Tally, entries: Seq<Entry>, i: int) -> bool {
    &&& t.scores@[i]@ == score_of(entries, t.ids@[i]@)
    &&& is_number(24, t.scores@[i]@)
    &&& t.scores@[i].m > 0
    &&& -120 <= t.scores@[i].e <= 60
    &&& t.title@[i] == is_named(entries, Channel::Title, t.ids@[i]@)
    &&& t.bm25@[i] == is_named(entries, Channel::Bm25, t.ids@[i]@)
    &&& t.trigram_vector@[i] == is_named(entries, Channel::TrigramVector, t.ids@[i]@)
}

/// One more place changes nothing for another identifier, and adds to its own.
proof fn lemma_one_more(entries: Seq<Entry>, e: Entry, id: Seq<char>, c: Channel)
    ensures
        score_of(entries.push(e), id) == if e.id == id {
            sum(24, score_of(entries, id), term(e.channel, e.rank))
        } else {
            score_of(entries, id)
        },
        is_named(entries.push(e), c, id) == (is_named(entries, c, id) || e.id == id && e.channel
            == c),
{
    let more = entries.push(e);
    assert(more.drop_last() =~= entries);
    if is_named(entries, c, id) {
        let i = choose|i: int|
            0 <= i < entries.len() && (#[trigger] entries[i]).id == id && entries[i].channel == c;
        assert(more[i] == entries[i]);
    }
    if e.id == id && e.channel == c {
        assert(more[entries.len() as int] == e);
    }
    if is_named(more, c, id) {
        let i = choose|i: int|
            0 <= i < more.len() && (#[trigger] more[i]).id == id && more[i].channel == c;
        if i < entries.len() {
            assert(entries[i] == more[i]);
        }
    }
}

/// An identifier that does not occur has no score and no ranking.
proof fn lemma_absent(entries: Seq<Entry>, id: Seq<char>)
    requires
        !entry_ids(entries).contains(id),
    ensures
        score_of(entries, id) == (Number { m: 0, e: 0 }),
        !is_named(entries, Channel::Title, id),
        !is_named(entries, Channel::Bm25, id),
        !is_named(entries, Channel::TrigramVector, id),
    decreases entries.len(),
{
    lemma_entry_ids(entries);
    if entries.len() > 0 {
        let front = entries.drop_last();
        lemma_entry_ids(front);
        lemma_with_key(entry_ids(front), entries.last().id);
        assert(!entry_ids(front).contains(id)) by {
            if entry_ids(front).contains(id) {
                let i = choose|i: int| 0 <= i < front.len() && (#[trigger] front[i]).id == id;
                assert(entries[i].id == id);
            }
        }
        lemma_absent(front, id);
        assert(entries[entries.len() - 1].id != id);
    }
}

fn add_place(t: &mut Tally, id: &str, c: Channel, rank: usize, Ghost(entries): Ghost<Seq<Entry>>)
    requires
        tally_ok(*old(t), entries),
    ensures
        tally_ok(
            *final(t),
            entries.push(Entry { id: id@, channel: c, rank: rank as nat }),
        ),
{
    let ghost e = Entry { id: id@, channel: c, rank: rank as nat };
    let ghost more = entries.push(e);
    let ghost before = *t;
    let ghost keys = string_views(t.ids@);
    proof {
        assert(more.drop_last() =~= entries);
        lemma_has_key(keys, id@);
        lemma_with_key(keys, id@);
        lemma_place(keys, id@);
        assert(entry_ids(more) == with_key(keys, id@));
    }
    let at: usize = find_text(&t.ids, id);
    let term: Rounded = rank_term(c, rank);
    let mut found: bool = false;
    if at < t.ids.len() {
        assert(keys[at as int] == t.ids@[at as int]@);
        found = text_eq(t.ids[at].as_str(), id);
    }
    if found {
        assert(place_ok(before, entries, at as int));
        let score: Rounded = plus(24, t.scores[at], term);
        t.scores[at] = score;
        match c {
            Channel::Title => {
                t.title[at] = true;
            },
            Channel::Bm25 => {
                t.bm25[at] = true;
            },
            Channel::TrigramVector => {
                t.trigram_vector[at] = true;
            },
        }
        proof {
            assert forall|i: int| 0 <= i < t.ids@.len() implies place_ok(*t, more, i) by {
                assert(place_ok(before, entries, i));
                lemma_one_more(entries, e, t.ids@[i]@, Channel::Title);
                lemma_one_more(entries, e, t.ids@[i]@, Channel::Bm25);
                lemma_one_more(entries, e, t.ids@[i]@, Channel::TrigramVector);
                assert(keys[i] == t.ids@[i]@);
                if i != at {
                    assert(t.ids@[i]@ != id@);
                }
            }
        }
    } else {
        t.ids.insert(at, id.to_owned());
        t.scores.insert(at, term);
        t.title.insert(at, c == Channel::Title);
        t.bm25.insert(at, c == Channel::Bm25);
        t.trigram_vector.insert(at, c == Channel::TrigramVector);
        proof {
            assert(string_views(t.ids@) =~= keys.insert(at as int, id@));
            lemma_absent(entries, id@);
            assert forall|i: int| 0 <= i < t.ids@.len() implies place_ok(*t, more, i) by {
                lemma_one_more(entries, e, t.ids@[i]@, Channel::Title);
                lemma_one_more(entries, e, t.ids@[i]@, Channel::Bm25);
                lemma_one_more(entries, e, t.ids@[i]@, Channel::TrigramVector);
                if i < at {
                    assert(place_ok(before, entries, i));
                    assert(keys[i] == t.ids@[i]@);
                    assert(keys.contains(keys[i]));
                } else if i > at {
                    assert(place_ok(before, entries, i - 1));
                    assert(keys[i - 1] == t.ids@[i]@);
                    assert(keys.contains(keys[i - 1]));
                }
            }
        }
    }
}

fn add_channel(t: &mut Tally, c: Channel, ids: &Vec<String>, Ghost(entries): Ghost<Seq<Entry>>)
    requires
        tally_ok(*old(t), entries),
    ensures
        tally_ok(*final(t), entries + channel_entries(c, id_views(ids@))),
{
    let ghost more = channel_entries(c, id_views(ids@));
    let len: usize = ids.len();
    let mut i: usize = 0;
    assert(entries + more.take(0) =~= entries);
    while i < len
        invariant
            i <= len == ids@.len(),
            more == channel_entries(c, id_views(ids@)),
            tally_ok(*t, entries + more.take(i as int)),
        decreases len - i,
    {
        add_place(t, ids[i].as_str(), c, i, Ghost(entries + more.take(i as int)));
        proof {
            assert(id_views(ids@)[i as int] == ids@[i as int]@);
            assert((entries + more.take(i as int)).push(more[i as int]) =~= entries + more.take(
                i + 1,
            ));
        }
        i += 1;
    }
    assert(more.take(len as int) =~= more);
}

/// What the fusion says of every identifier that a ranking names.
pub fn fuse(title: &Vec<String>, lexical: &Vec<String>, vector: &Vec<String>) -> (r: Vec<Fused>)
    ensures
        fused_models(r@) == fused(
            all_entries(id_views(title@), id_views(lexical@), id_views(vector@)),
        ),
{
    let mut t: Tally = Tally {
        ids: Vec::new(),
        scores: Vec::new(),
        title: Vec::new(),
        bm25: Vec::new(),
        trigram_vector: Vec::new(),
    };
    let ghost e0 = Seq::<Entry>::empty();
    let ghost e1 = channel_entries(Channel::Title, id_views(title@));
    let ghost e2 = channel_entries(Channel::Bm25, id_views(lexical@));
    let ghost e3 = channel_entries(Channel::TrigramVector, id_views(vector@));
    assert(string_views(t.ids@) =~= Seq::empty());
    add_channel(&mut t, Channel::Title, title, Ghost(e0));
    assert(e0 + e1 =~= e1);
    add_channel(&mut t, Channel::Bm25, lexical, Ghost(e1));
    add_channel(&mut t, Channel::TrigramVector, vector, Ghost(e1 + e2));
    let ghost entries = all_entries(id_views(title@), id_views(lexical@), id_views(vector@));
    assert(entries =~= e1 + e2 + e3);
    let len: usize = t.ids.len();
    let mut out: Vec<Fused> = Vec::new();
    let mut i: usize = 0;
    while i < len
        invariant
            i <= len == t.ids@.len(),
            tally_ok(t, entries),
            fused_models(out@) =~= fused(entries).take(i as int),
        decreases len - i,
    {
        let ghost before = fused_models(out@);
        assert(place_ok(t, entries, i as int));
        assert(string_views(t.ids@)[i as int] == t.ids@[i as int]@);
        let f: Fused = Fused {
            id: t.ids[i].clone(),
            score_bits: to_single_bits(t.scores[i]),
            title: t.title[i],
            bm25: t.bm25[i],
            trigram_vector: t.trigram_vector[i],
        };
        out.push(f);
        assert(f@ == fused(entries)[i as int]);
        assert(fused_models(out@) =~= before.push(f@));
        i += 1;
    }
    assert(fused(entries).take(len as int) =~= fused(entries));
    out
}

} // verus!
