//! Candidates in the order of their keys: a greater key first, of equal keys
//! the smaller identifier, of equal identifiers the smaller index.

use vstd::prelude::*;

use crate::text::{
    lemma_text_lt_irreflexive, lemma_text_lt_total, lemma_text_lt_transitive, order_text, text_lt,
    TextOrder,
};

verus! {

/// Something to be ranked: a key, an identifier, and where it came from.
pub struct Candidate {
    pub key: i64,
    pub id: String,
    pub index: usize,
}

#[verifier::ext_equal]
pub struct CandidateModel {
    pub key: i64,
    pub id: Seq<char>,
    pub index: usize,
}

impl View for Candidate {
    type V = CandidateModel;

    open spec fn view(&self) -> CandidateModel {
        CandidateModel { key: self.key, id: self.id@, index: self.index }
    }
}

pub open spec fn candidate_models(v: Seq<Candidate>) -> Seq<CandidateModel> {
    v.map_values(|c: Candidate| c@)
}

/// Whether one candidate comes before another.
pub open spec fn outranks(a: CandidateModel, b: CandidateModel) -> bool {
    ||| a.key > b.key
    ||| a.key == b.key && text_lt(a.id, b.id)
    ||| a.key == b.key && a.id == b.id && a.index < b.index
}

/// Any two different candidates are ordered one way, and the order is
/// transitive.
pub proof fn law_candidates_are_ordered(a: CandidateModel, b: CandidateModel, c: CandidateModel)
    ensures
        !outranks(a, a),
        a != b ==> outranks(a, b) || outranks(b, a),
        !(outranks(a, b) && outranks(b, a)),
        outranks(a, b) && outranks(b, c) ==> outranks(a, c),
        outranks(a, b) && !outranks(c, b) ==> outranks(a, c),
        !outranks(b, a) && !outranks(c, b) ==> !outranks(c, a),
{
    lemma_text_lt_irreflexive(a.id);
    lemma_text_lt_irreflexive(b.id);
    lemma_text_lt_irreflexive(c.id);
    lemma_text_lt_total(a.id, b.id);
    lemma_text_lt_total(b.id, c.id);
    lemma_text_lt_total(a.id, c.id);
    lemma_order_step(a.id, b.id, c.id);
    lemma_order_step(a.id, c.id, b.id);
    lemma_order_step(b.id, a.id, c.id);
    lemma_order_step(b.id, c.id, a.id);
    lemma_order_step(c.id, a.id, b.id);
    lemma_order_step(c.id, b.id, a.id);
    lemma_order_step(a.id, b.id, a.id);
    lemma_order_step(b.id, a.id, b.id);
    if a != b {
        assert(a.key != b.key || a.id != b.id || a.index != b.index);
    }
}

proof fn lemma_order_step(a: Seq<char>, b: Seq<char>, c: Seq<char>)
    ensures
        text_lt(a, b) && text_lt(b, c) ==> text_lt(a, c),
{
    if text_lt(a, b) && text_lt(b, c) {
        lemma_text_lt_transitive(a, b, c);
    }
}

/// Where a candidate belongs: before the first that it outranks.
pub open spec fn rank_of(order: Seq<CandidateModel>, c: CandidateModel) -> int
    decreases order.len(),
{
    if order.len() == 0 || outranks(c, order[0]) {
        0
    } else {
        1 + rank_of(order.drop_first(), c)
    }
}

/// The candidates, each put where it belongs among those before it.
pub open spec fn ranked(cs: Seq<CandidateModel>) -> Seq<CandidateModel>
    decreases cs.len(),
{
    if cs.len() == 0 {
        Seq::empty()
    } else {
        let rest = ranked(cs.drop_last());
        rest.insert(rank_of(rest, cs.last()), cs.last())
    }
}

/// Whether no candidate outranks one before it.
pub open spec fn in_order(cs: Seq<CandidateModel>) -> bool {
    forall|i: int, j: int| 0 <= i < j < cs.len() ==> !outranks(#[trigger] cs[j], #[trigger] cs[i])
}

proof fn lemma_rank_of(order: Seq<CandidateModel>, c: CandidateModel)
    ensures
        0 <= rank_of(order, c) <= order.len(),
        forall|i: int| 0 <= i < rank_of(order, c) ==> !outranks(c, #[trigger] order[i]),
        rank_of(order, c) < order.len() ==> outranks(c, order[rank_of(order, c)]),
    decreases order.len(),
{
    if order.len() > 0 && !outranks(c, order[0]) {
        let rest = order.drop_first();
        lemma_rank_of(rest, c);
        assert forall|i: int| 0 <= i < rank_of(order, c) implies !outranks(
            c,
            #[trigger] order[i],
        ) by {
            if i > 0 {
                assert(order[i] == rest[i - 1]);
            }
        }
    }
}

proof fn lemma_rank_unique(order: Seq<CandidateModel>, c: CandidateModel, at: int)
    requires
        0 <= at <= order.len(),
        forall|i: int| 0 <= i < at ==> !outranks(c, #[trigger] order[i]),
        at < order.len() ==> outranks(c, order[at]),
    ensures
        rank_of(order, c) == at,
{
    lemma_rank_of(order, c);
    let p = rank_of(order, c);
    if p < at {
        assert(!outranks(c, order[p]));
    }
    if at < p {
        assert(!outranks(c, order[at]));
    }
}

proof fn lemma_insert_in_order(order: Seq<CandidateModel>, c: CandidateModel)
    requires
        in_order(order),
    ensures
        in_order(order.insert(rank_of(order, c), c)),
{
    lemma_rank_of(order, c);
    let p = rank_of(order, c);
    let after = order.insert(p, c);
    assert forall|i: int, j: int| 0 <= i < j < after.len() implies !outranks(
        #[trigger] after[j],
        #[trigger] after[i],
    ) by {
        if j == p {
            assert(after[i] == order[i]);
        } else if i == p {
            assert(after[j] == order[j - 1]);
            law_candidates_are_ordered(c, order[p], order[j - 1]);
            law_candidates_are_ordered(c, order[j - 1], c);
            if j - 1 > p {
                assert(!outranks(order[j - 1], order[p]));
            }
        } else {
            let x = if i < p {
                i
            } else {
                i - 1
            };
            let y = if j < p {
                j
            } else {
                j - 1
            };
            assert(after[i] == order[x]);
            assert(after[j] == order[y]);
        }
    }
}

/// Ranking puts in order and keeps what is ranked: the same candidates as
/// often as before.
pub proof fn law_ranked_is_in_order(cs: Seq<CandidateModel>)
    ensures
        in_order(ranked(cs)),
        ranked(cs).to_multiset() == cs.to_multiset(),
        ranked(cs).len() == cs.len(),
    decreases cs.len(),
{
    broadcast use vstd::seq_lib::group_to_multiset_ensures;

    if cs.len() > 0 {
        let front = cs.drop_last();
        let rest = ranked(front);
        law_ranked_is_in_order(front);
        lemma_insert_in_order(rest, cs.last());
        lemma_rank_of(rest, cs.last());
        assert(cs =~= front.push(cs.last()));
        assert(rest.insert(rank_of(rest, cs.last()), cs.last()).to_multiset()
            =~= rest.to_multiset().insert(cs.last()));
    }
}

/// Every candidate in the ranking is one of those ranked.
pub proof fn lemma_ranked_members(cs: Seq<CandidateModel>, i: int)
    requires
        0 <= i < ranked(cs).len(),
    ensures
        cs.contains(ranked(cs)[i]),
{
    broadcast use vstd::seq_lib::group_to_multiset_ensures;

    law_ranked_is_in_order(cs);
    assert(ranked(cs).contains(ranked(cs)[i]));
    assert(ranked(cs).to_multiset().count(ranked(cs)[i]) > 0);
}

/// A ranking of candidates that carry their own places leads back to them.
pub proof fn lemma_ranked_places(cs: Seq<CandidateModel>)
    requires
        forall|j: int| 0 <= j < cs.len() ==> (#[trigger] cs[j]).index == j,
    ensures
        ranked(cs).len() == cs.len(),
        forall|i: int|
            0 <= i < cs.len() ==> (#[trigger] ranked(cs)[i]).index < cs.len() && ranked(cs)[i]
                == cs[ranked(cs)[i].index as int],
{
    law_ranked_is_in_order(cs);
    assert forall|i: int| 0 <= i < cs.len() implies (#[trigger] ranked(cs)[i]).index < cs.len()
        && ranked(cs)[i] == cs[ranked(cs)[i].index as int] by {
        lemma_ranked_members(cs, i);
        let j = choose|j: int| 0 <= j < cs.len() && cs[j] == ranked(cs)[i];
        assert(cs[j].index == j);
    }
}

/// Every candidate has a place in the ranking.
pub proof fn lemma_ranked_holds(cs: Seq<CandidateModel>, j: int) -> (i: int)
    requires
        0 <= j < cs.len(),
    ensures
        0 <= i < ranked(cs).len(),
        ranked(cs)[i] == cs[j],
{
    broadcast use vstd::seq_lib::group_to_multiset_ensures;

    law_ranked_is_in_order(cs);
    assert(cs.contains(cs[j]));
    assert(cs.to_multiset().count(cs[j]) > 0);
    assert(ranked(cs).contains(cs[j]));
    choose|i: int| 0 <= i < ranked(cs).len() && ranked(cs)[i] == cs[j]
}

/// Candidates that differ have one place each in the ranking.
pub proof fn lemma_ranked_differ(cs: Seq<CandidateModel>)
    requires
        cs.no_duplicates(),
    ensures
        ranked(cs).no_duplicates(),
{
    law_ranked_is_in_order(cs);
    cs.lemma_multiset_has_no_duplicates();
    ranked(cs).lemma_multiset_has_no_duplicates_conv();
}

/// Of two candidates the one with the greater key comes first, of equal keys the
/// one with the smaller identifier, of equal identifiers the one with the smaller
/// index.
pub proof fn law_greater_key_comes_first(cs: Seq<CandidateModel>, i: int, j: int)
    requires
        0 <= i < j < ranked(cs).len(),
    ensures
        ranked(cs)[i].key >= ranked(cs)[j].key,
        ranked(cs)[i].key == ranked(cs)[j].key ==> ranked(cs)[i].id == ranked(cs)[j].id || text_lt(
            ranked(cs)[i].id,
            ranked(cs)[j].id,
        ),
        ranked(cs)[i].key == ranked(cs)[j].key && ranked(cs)[i].id == ranked(cs)[j].id ==> ranked(
            cs,
        )[i].index <= ranked(cs)[j].index,
{
    law_ranked_is_in_order(cs);
    let a = ranked(cs)[i];
    let b = ranked(cs)[j];
    assert(!outranks(b, a));
    lemma_text_lt_total(a.id, b.id);
}

/// Whether a candidate is among the first `n` of the ranking.
pub open spec fn is_among_first(cs: Seq<CandidateModel>, n: int, j: int) -> bool {
    exists|i: int| 0 <= i < n && (#[trigger] ranked(cs)[i]).index == j
}

/// Whether the first `n` of the ranking outrank a candidate.
pub open spec fn is_behind_first(cs: Seq<CandidateModel>, n: int, j: int) -> bool {
    forall|i: int| 0 <= i < n ==> outranks(#[trigger] ranked(cs)[i], cs[j])
}

/// Of candidates that carry their own places the first `n` of the ranking lead to
/// different ones, none with a lesser key than one behind it, and leave out none
/// for one that it outranks.
pub proof fn lemma_first_ranked(cs: Seq<CandidateModel>, n: int)
    requires
        forall|j: int| 0 <= j < cs.len() ==> (#[trigger] cs[j]).index == j,
        0 <= n <= cs.len(),
    ensures
        ranked(cs).len() == cs.len(),
        forall|i: int|
            0 <= i < cs.len() ==> (#[trigger] ranked(cs)[i]).index < cs.len() && ranked(cs)[i]
                == cs[ranked(cs)[i].index as int],
        forall|i: int, j: int|
            0 <= i < j < cs.len() ==> (#[trigger] ranked(cs)[i]).index != (
            #[trigger] ranked(cs)[j]).index && ranked(cs)[i].key >= ranked(cs)[j].key,
        forall|j: int|
            0 <= j < cs.len() ==> (#[trigger] cs[j]).index == j && (is_among_first(cs, n, j) || n
                < cs.len() && is_behind_first(cs, n, j)),
{
    lemma_ranked_places(cs);
    law_ranked_is_in_order(cs);
    assert(cs.no_duplicates());
    lemma_ranked_differ(cs);
    let order = ranked(cs);
    assert forall|i: int, j: int| 0 <= i < j < cs.len() implies (#[trigger] order[i]).index != (
    #[trigger] order[j]).index && order[i].key >= order[j].key by {
        law_greater_key_comes_first(cs, i, j);
        assert(order[i] != order[j]);
    }
    assert forall|j: int| 0 <= j < cs.len() implies (#[trigger] cs[j]).index == j && (
    is_among_first(cs, n, j) || n < cs.len() && is_behind_first(cs, n, j)) by {
        let at = lemma_ranked_holds(cs, j);
        if at < n {
            assert(order[at].index == j);
        } else {
            assert forall|i: int| 0 <= i < n implies outranks(#[trigger] order[i], cs[j]) by {
                assert(!outranks(order[at], order[i]));
                assert(order[i] != order[at]);
                law_candidates_are_ordered(order[i], order[at], order[i]);
            }
        }
    }
}

/// What two of three sides of the order say of the third, when one side is a
/// member of an ordered sequence.
proof fn lemma_probe(order: Seq<CandidateModel>, c: CandidateModel, mid: int)
    requires
        in_order(order),
        0 <= mid < order.len(),
    ensures
        outranks(c, order[mid]) ==> forall|j: int|
            mid <= j < order.len() ==> outranks(c, #[trigger] order[j]),
        !outranks(c, order[mid]) ==> forall|j: int|
            0 <= j <= mid ==> !outranks(c, #[trigger] order[j]),
{
    assert forall|j: int| mid <= j < order.len() && outranks(c, order[mid]) implies outranks(
        c,
        #[trigger] order[j],
    ) by {
        if mid < j {
            law_candidates_are_ordered(c, order[mid], order[j]);
        }
    }
    assert forall|j: int| 0 <= j <= mid && !outranks(c, order[mid]) implies !outranks(
        c,
        #[trigger] order[j],
    ) by {
        if j < mid {
            law_candidates_are_ordered(order[j], order[mid], c);
        }
    }
}

/// Whether one candidate comes before another.
pub fn comes_before(a: &Candidate, b: &Candidate) -> (r: bool)
    ensures
        r == outranks(a@, b@),
{
    if a.key != b.key {
        return a.key > b.key;
    }
    proof {
        lemma_text_lt_irreflexive(a.id@);
        law_candidates_are_ordered(a@, b@, a@);
    }
    match order_text(a.id.as_str(), b.id.as_str()) {
        TextOrder::Before => true,
        TextOrder::Same => a.index < b.index,
        TextOrder::After => {
            proof {
                lemma_order_step(a.id@, b.id@, a.id@);
            }
            false
        },
    }
}

fn find_rank(order: &Vec<Candidate>, c: &Candidate) -> (r: usize)
    requires
        in_order(candidate_models(order@)),
    ensures
        r == rank_of(candidate_models(order@), c@),
        r <= order@.len(),
{
    let ghost models = candidate_models(order@);
    let mut lo: usize = 0;
    let mut hi: usize = order.len();
    while lo < hi
        invariant
            models == candidate_models(order@),
            in_order(models),
            lo <= hi <= order@.len(),
            forall|i: int| 0 <= i < lo ==> !outranks(c@, #[trigger] models[i]),
            forall|i: int| hi <= i < models.len() ==> outranks(c@, #[trigger] models[i]),
        decreases hi - lo,
    {
        let mid: usize = lo + (hi - lo) / 2;
        proof {
            lemma_probe(models, c@, mid as int);
        }
        assert(models[mid as int] == order@[mid as int]@);
        if comes_before(c, &order[mid]) {
            hi = mid;
        } else {
            lo = mid + 1;
        }
    }
    proof {
        lemma_rank_unique(models, c@, lo as int);
    }
    lo
}

/// The candidates in order.
pub fn rank_candidates(cs: Vec<Candidate>) -> (r: Vec<Candidate>)
    ensures
        candidate_models(r@) == ranked(candidate_models(cs@)),
        r@.len() == cs@.len(),
{
    let ghost models = candidate_models(cs@);
    let mut order: Vec<Candidate> = Vec::new();
    let mut i: usize = 0;
    assert(models.take(0) =~= Seq::empty());
    assert(candidate_models(order@) =~= Seq::empty());
    while i < cs.len()
        invariant
            i <= cs@.len(),
            models == candidate_models(cs@),
            order@.len() == i,
            candidate_models(order@) == ranked(models.take(i as int)),
        decreases cs@.len() - i,
    {
        proof {
            law_ranked_is_in_order(models.take(i as int));
            assert(models.take(i + 1).drop_last() =~= models.take(i as int));
            assert(models.take(i + 1).last() == cs@[i as int]@);
        }
        let at: usize = find_rank(&order, &cs[i]);
        let ghost before = candidate_models(order@);
        let c: Candidate = Candidate { key: cs[i].key, id: cs[i].id.clone(), index: cs[i].index };
        order.insert(at, c);
        assert(candidate_models(order@) =~= before.insert(at as int, c@));
        i += 1;
    }
    assert(models.take(models.len() as int) =~= models);
    order
}

} // verus!
