//! How many bytes of a body a set of ranges covers.

use vstd::prelude::*;

use super::pieces::{range_view, BodyByteRange};

verus! {

/// Whether some range holds byte `b`.
pub open spec fn covers(ranges: Seq<Option<(nat, nat)>>, b: int) -> bool {
    exists|i: int|
        #![trigger ranges[i]]
        0 <= i < ranges.len() && (ranges[i] matches Some((lo, hi)) && lo <= b < hi)
}

/// How many of the bytes below `n` are covered.
pub open spec fn covered_below(ranges: Seq<Option<(nat, nat)>>, n: int) -> nat
    decreases n,
{
    if n <= 0 {
        0
    } else {
        covered_below(ranges, n - 1) + if covers(ranges, n - 1) {
            1nat
        } else {
            0nat
        }
    }
}

/// Ranges that are in order and end at byte `n` at the latest.
pub open spec fn ranges_within(ranges: Seq<Option<(nat, nat)>>, n: int) -> bool {
    forall|i: int|
        0 <= i < ranges.len() ==> (#[trigger] ranges[i] matches Some((lo, hi)) ==> lo <= hi <= n)
}

/// Coverage counts each covered byte once.
pub proof fn law_coverage_is_at_most_the_body(ranges: Seq<Option<(nat, nat)>>, n: int)
    requires
        0 <= n,
    ensures
        covered_below(ranges, n) <= n,
    decreases n,
{
    if n > 0 {
        law_coverage_is_at_most_the_body(ranges, n - 1);
    }
}

pub proof fn lemma_covered_same(
    a: Seq<Option<(nat, nat)>>,
    b: Seq<Option<(nat, nat)>>,
    n: int,
)
    requires
        forall|k: int| 0 <= k < n ==> covers(a, k) == covers(b, k),
    ensures
        covered_below(a, n) == covered_below(b, n),
    decreases n,
{
    if n > 0 {
        lemma_covered_same(a, b, n - 1);
    }
}

pub proof fn lemma_covered_gap(ranges: Seq<Option<(nat, nat)>>, lo: int, hi: int)
    requires
        0 <= lo <= hi,
        forall|k: int| lo <= k < hi ==> !covers(ranges, k),
    ensures
        covered_below(ranges, hi) == covered_below(ranges, lo),
    decreases hi - lo,
{
    if lo < hi {
        lemma_covered_gap(ranges, lo, hi - 1);
    }
}

pub proof fn lemma_covered_run(ranges: Seq<Option<(nat, nat)>>, lo: int, hi: int)
    requires
        0 <= lo <= hi,
        forall|k: int| lo <= k < hi ==> covers(ranges, k),
    ensures
        covered_below(ranges, hi) == covered_below(ranges, lo) + (hi - lo),
    decreases hi - lo,
{
    if lo < hi {
        lemma_covered_run(ranges, lo, hi - 1);
    }
}

spec fn plain(ranges: Seq<BodyByteRange>) -> Seq<Option<(nat, nat)>> {
    ranges.map_values(|r: BodyByteRange| range_view(Some(r)))
}

spec fn starts_sorted(ranges: Seq<BodyByteRange>) -> bool {
    forall|i: int, j: int|
        0 <= i <= j < ranges.len() ==> (#[trigger] ranges[i]).start_byte <= (
        #[trigger] ranges[j]).start_byte
}

/// Puts a range behind all that start no later.
fn insert_range(ranges: &mut Vec<BodyByteRange>, range: BodyByteRange)
    requires
        starts_sorted(old(ranges)@),
    ensures
        starts_sorted(final(ranges)@),
        forall|b: int|
            #![trigger covers(plain(final(ranges)@), b)]
            covers(plain(final(ranges)@), b) <==> covers(plain(old(ranges)@), b) || range.start_byte
                <= b < range.end_byte,
        forall|i: int|
            0 <= i < final(ranges)@.len() ==> #[trigger] final(ranges)@[i] == range || exists|j: int|
                0 <= j < old(ranges)@.len() && final(ranges)@[i] == #[trigger] old(ranges)@[j],
{
    let mut at: usize = ranges.len();
    let ghost before = ranges@;
    while at > 0 && ranges[at - 1].start_byte > range.start_byte
        invariant
            ranges@ == before,
            starts_sorted(before),
            at <= before.len(),
            forall|k: int|
                at <= k < before.len() ==> (#[trigger] before[k]).start_byte > range.start_byte,
        decreases at,
    {
        at -= 1;
    }
    ranges.insert(at, range);
    proof {
        let after = ranges@;
        assert(after == before.insert(at as int, range));
        assert forall|b: int|
            #![trigger covers(plain(after), b)]
            covers(plain(after), b) <==> covers(plain(before), b) || range.start_byte <= b
                < range.end_byte by {
            if covers(plain(after), b) {
                let i = choose|i: int|
                    #![trigger plain(after)[i]]
                    0 <= i < after.len() && (plain(after)[i] matches Some((lo, hi)) && lo <= b
                        < hi);
                if i < at {
                    assert(plain(before)[i] == plain(after)[i]);
                } else if i > at {
                    assert(plain(before)[i - 1] == plain(after)[i]);
                } else {
                    assert(after[i] == range);
                }
            }
            if covers(plain(before), b) {
                let i = choose|i: int|
                    #![trigger plain(before)[i]]
                    0 <= i < before.len() && (plain(before)[i] matches Some((lo, hi)) && lo <= b
                        < hi);
                if i < at {
                    assert(plain(after)[i] == plain(before)[i]);
                } else {
                    assert(plain(after)[i + 1] == plain(before)[i]);
                }
            }
            if range.start_byte <= b < range.end_byte {
                assert(plain(after)[at as int] == range_view(Some(range)));
            }
        }
        assert forall|i: int| 0 <= i < after.len() implies #[trigger] after[i] == range || exists|
            j: int,
        |
            0 <= j < before.len() && after[i] == #[trigger] before[j] by {
            if i < at {
                assert(after[i] == before[i]);
            } else if i > at {
                assert(after[i] == before[i - 1]);
            }
        }
    }
}

/// The number of bytes that the ranges cover, each counted once.
pub fn covered_bytes(ranges: &Vec<Option<BodyByteRange>>, limit: usize) -> (r: usize)
    requires
        ranges_within(ranges@.map_values(|x: Option<BodyByteRange>| range_view(x)), limit as int),
    ensures
        r == covered_below(
            ranges@.map_values(|x: Option<BodyByteRange>| range_view(x)),
            limit as int,
        ),
        r <= limit,
{
    let ghost all = ranges@.map_values(|x: Option<BodyByteRange>| range_view(x));
    let mut sorted: Vec<BodyByteRange> = Vec::new();
    let mut i: usize = 0;
    while i < ranges.len()
        invariant
            all == ranges@.map_values(|x: Option<BodyByteRange>| range_view(x)),
            ranges_within(all, limit as int),
            i <= ranges@.len(),
            starts_sorted(sorted@),
            forall|k: int|
                0 <= k < sorted@.len() ==> (#[trigger] sorted@[k]).start_byte
                    <= sorted@[k].end_byte <= limit,
            forall|b: int|
                #![trigger covers(plain(sorted@), b)]
                covers(plain(sorted@), b) <==> covers(all.take(i as int), b),
        decreases ranges@.len() - i,
    {
        let ghost old_sorted = sorted@;
        assert(all[i as int] == range_view(ranges@[i as int]));
        if let Some(range) = ranges[i] {
            insert_range(&mut sorted, range);
        }
        proof {
            assert forall|b: int|
                #![trigger covers(plain(sorted@), b)]
                covers(plain(sorted@), b) <==> covers(all.take(i + 1), b) by {
                let x = all.take(i as int);
                let y = all.take(i + 1);
                if covers(x, b) {
                    let k = choose|k: int|
                        #![trigger x[k]]
                        0 <= k < x.len() && (x[k] matches Some((lo, hi)) && lo <= b < hi);
                    assert(y[k] == x[k]);
                }
                if covers(y, b) {
                    let k = choose|k: int|
                        #![trigger y[k]]
                        0 <= k < y.len() && (y[k] matches Some((lo, hi)) && lo <= b < hi);
                    if k < i {
                        assert(x[k] == y[k]);
                    } else {
                        assert(y[k] == all[i as int]);
                    }
                }
                assert(y[i as int] == all[i as int]);
                assert(covers(plain(old_sorted), b) <==> covers(x, b));
            }
        }
        i += 1;
    }
    assert(all.take(all.len() as int) =~= all);
    let ghost flat = plain(sorted@);
    proof {
        assert forall|k: int| 0 <= k < limit implies covers(flat, k) == covers(all, k) by {}
        lemma_covered_same(flat, all, limit as int);
    }
    let mut total: usize = 0;
    let mut lo: usize = 0;
    let mut hi: usize = 0;
    let mut j: usize = 0;
    while j < sorted.len()
        invariant
            flat == plain(sorted@),
            starts_sorted(sorted@),
            forall|k: int|
                0 <= k < sorted@.len() ==> (#[trigger] sorted@[k]).start_byte
                    <= sorted@[k].end_byte <= limit,
            j <= sorted@.len(),
            lo <= hi <= limit,
            total <= lo,
            total == covered_below(flat.take(j as int), lo as int),
            forall|b: int|
                #![trigger covers(flat.take(j as int), b)]
                lo <= b ==> (covers(flat.take(j as int), b) <==> b < hi),
            j < sorted@.len() ==> lo <= sorted@[j as int].start_byte,
            j > 0 ==> lo <= sorted@[j - 1].start_byte,
        decreases sorted@.len() - j,
    {
        let range: BodyByteRange = sorted[j];
        let ghost x = flat.take(j as int);
        let ghost y = flat.take(j + 1);
        proof {
            assert(flat[j as int] == range_view(Some(range)));
            assert forall|b: int|
                #![trigger covers(y, b)]
                covers(y, b) <==> covers(x, b) || range.start_byte <= b < range.end_byte by {
                if covers(x, b) {
                    let k = choose|k: int|
                        #![trigger x[k]]
                        0 <= k < x.len() && (x[k] matches Some((p, q)) && p <= b < q);
                    assert(y[k] == x[k]);
                }
                if covers(y, b) {
                    let k = choose|k: int|
                        #![trigger y[k]]
                        0 <= k < y.len() && (y[k] matches Some((p, q)) && p <= b < q);
                    if k < j {
                        assert(x[k] == y[k]);
                    } else {
                        assert(y[k] == flat[j as int]);
                    }
                }
                assert(y[j as int] == flat[j as int]);
            }
            if j + 1 < sorted@.len() {
                assert(sorted@[j as int].start_byte <= sorted@[j + 1].start_byte);
            }
        }
        if range.start_byte <= hi {
            proof {
                assert forall|k: int| 0 <= k < lo implies covers(x, k) == covers(y, k) by {}
                lemma_covered_same(x, y, lo as int);
            }
            if range.end_byte > hi {
                hi = range.end_byte;
            }
        } else {
            proof {
                lemma_covered_run(x, lo as int, hi as int);
                lemma_covered_gap(x, hi as int, range.start_byte as int);
                assert forall|k: int| 0 <= k < range.start_byte implies covers(x, k) == covers(
                    y,
                    k,
                ) by {}
                lemma_covered_same(x, y, range.start_byte as int);
            }
            total += hi - lo;
            lo = range.start_byte;
            hi = range.end_byte;
        }
        j += 1;
    }
    proof {
        assert(flat.take(flat.len() as int) =~= flat);
        lemma_covered_run(flat, lo as int, hi as int);
        lemma_covered_gap(flat, hi as int, limit as int);
    }
    total + (hi - lo)
}

} // verus!
