//! The Lloyd-Max quantizer: levels that lie where the values are, found by
//! moving each to the mean of its region.
//!
//! Values, levels and boundaries are bits of singles.

use vstd::prelude::*;

use crate::bits::{bits_less, is_nan_bits, less_bits};
use crate::single::{
    add_singles, difference_bits, divide_singles, integer_bits, multiply_singles, product_bits,
    quotient_bits, single_of, size_without_sign, subtract_singles, sum_bits, HALF, INFINITY, TWO,
};

verus! {

/// The bits of the negative infinity.
pub const NEGATIVE_INFINITY: u32 = 0xff80_0000;

/// The millionth, as the nearest single: a level that moves no further is
/// settled.
pub const SETTLED: u32 = 0x3586_37bd;

/// The region of a value: before the first inner boundary that it is less
/// than, and the last one if there is none. Values and boundaries are bits of
/// numbers.
pub open spec fn region_from(value: u32, boundaries: Seq<u32>, num_levels: int, i: int) -> int
    decreases num_levels - i,
{
    if i >= num_levels {
        num_levels - 1
    } else if less_bits(value, boundaries[i]) {
        i - 1
    } else {
        region_from(value, boundaries, num_levels, i + 1)
    }
}

/// The region of a value.
fn lloyd_max_region(value: u32, boundaries: &Vec<u32>, num_levels: usize) -> (r: usize)
    requires
        1 <= num_levels <= boundaries@.len(),
    ensures
        r == region_from(value, boundaries@, num_levels as int, 1),
        r < num_levels,
{
    let mut i: usize = 1;
    while i < num_levels
        invariant
            1 <= i <= num_levels <= boundaries@.len(),
            region_from(value, boundaries@, num_levels as int, 1) == region_from(
                value,
                boundaries@,
                num_levels as int,
                i as int,
            ),
        decreases num_levels - i,
    {
        if bits_less(value, boundaries[i]) {
            return i - 1;
        }
        i += 1;
    }
    num_levels - 1
}

/// The code of a value: its region, in eight bits.
pub fn lloyd_max_quantize_value(value: u32, boundaries: &Vec<u32>, num_levels: usize) -> (r: u8)
    requires
        1 <= num_levels <= boundaries@.len(),
    ensures
        r == region_from(value, boundaries@, num_levels as int, 1) % 256,
{
    (lloyd_max_region(value, boundaries, num_levels) % 256) as u8
}

/// Values in order with one more, which stands behind all that it is not less
/// than.
pub open spec fn with_value(s: Seq<u32>, x: u32) -> Seq<u32>
    decreases s.len(),
{
    if s.len() == 0 || !less_bits(x, s.last()) {
        s.push(x)
    } else {
        with_value(s.drop_last(), x).push(s.last())
    }
}

/// Values in order; those that are equal stay in theirs.
pub open spec fn in_order(v: Seq<u32>) -> Seq<u32>
    decreases v.len(),
{
    if v.len() == 0 {
        Seq::empty()
    } else {
        with_value(in_order(v.drop_last()), v.last())
    }
}

/// The levels to start with: the middles of equal parts.
pub open spec fn first_levels(low: u32, high: u32, num_levels: nat) -> Seq<u32> {
    Seq::new(
        num_levels,
        |i: int|
            sum_bits(
                low,
                quotient_bits(
                    product_bits(
                        difference_bits(high, low),
                        sum_bits(integer_bits(i as nat), HALF),
                    ),
                    integer_bits(num_levels),
                ),
            ),
    )
}

/// The boundaries of levels: the middles between them, and two outer ones.
pub open spec fn boundaries_of(levels: Seq<u32>, first: u32, last: u32) -> Seq<u32> {
    Seq::new(
        levels.len() + 1,
        |i: int|
            if i == 0 {
                first
            } else if i == levels.len() {
                last
            } else {
                quotient_bits(sum_bits(levels[i - 1], levels[i]), TWO)
            },
    )
}

/// The region of a value between levels.
pub open spec fn region_of(value: u32, levels: Seq<u32>) -> int {
    region_from(
        value,
        boundaries_of(levels, NEGATIVE_INFINITY, INFINITY),
        levels.len() as int,
        1,
    )
}

/// The first `n` values of a region, added up in their order.
pub open spec fn region_sum(v: Seq<u32>, levels: Seq<u32>, region: int, n: int) -> u32
    decreases n,
{
    if n <= 0 {
        0
    } else {
        let before = region_sum(v, levels, region, n - 1);
        if region_of(v[n - 1], levels) == region {
            sum_bits(before, v[n - 1])
        } else {
            before
        }
    }
}

/// How many of the first `n` values are in a region.
pub open spec fn region_count(v: Seq<u32>, levels: Seq<u32>, region: int, n: int) -> nat
    decreases n,
{
    if n <= 0 {
        0
    } else {
        region_count(v, levels, region, n - 1) + if region_of(v[n - 1], levels) == region {
            1nat
        } else {
            0
        }
    }
}

/// A level after a step: the mean of its region, if that holds a value.
pub open spec fn moved_level(v: Seq<u32>, levels: Seq<u32>, i: int) -> u32 {
    let count = region_count(v, levels, i, v.len() as int);
    if count > 0 {
        quotient_bits(region_sum(v, levels, i, v.len() as int), integer_bits(count))
    } else {
        levels[i]
    }
}

/// The levels after a step.
pub open spec fn moved(v: Seq<u32>, levels: Seq<u32>) -> Seq<u32> {
    Seq::new(levels.len(), |i: int| moved_level(v, levels, i))
}

/// Whether the level of a region with values moves by more than the least bit.
pub open spec fn moves(v: Seq<u32>, levels: Seq<u32>, i: int) -> bool {
    region_count(v, levels, i, v.len() as int) > 0 && less_bits(
        SETTLED,
        size_without_sign(difference_bits(moved_level(v, levels, i), levels[i])),
    )
}

/// The levels after no more than `steps` steps; they stop with the first that
/// moves none.
pub open spec fn settled(v: Seq<u32>, levels: Seq<u32>, steps: nat) -> Seq<u32>
    decreases steps,
{
    if steps == 0 {
        levels
    } else if exists|i: int| 0 <= i < levels.len() && #[trigger] moves(v, levels, i) {
        settled(v, moved(v, levels), (steps - 1) as nat)
    } else {
        moved(v, levels)
    }
}

/// The levels of values, and their boundaries between the least and the
/// greatest value.
pub open spec fn quantizer(v: Seq<u32>, num_levels: nat, steps: nat) -> (Seq<u32>, Seq<u32>) {
    if v.len() == 0 || num_levels == 0 {
        (Seq::new(num_levels, |i: int| 0u32), Seq::new(num_levels + 1, |i: int| 0u32))
    } else {
        let s = in_order(v);
        let levels = settled(s, first_levels(s[0], s.last(), num_levels), steps);
        (levels, boundaries_of(levels, s[0], s.last()))
    }
}

fn sort_values(values: &Vec<u32>) -> (r: Vec<u32>)
    ensures
        r@ == in_order(values@),
        r@.len() == values@.len(),
{
    let mut out: Vec<u32> = Vec::new();
    let mut i: usize = 0;
    assert(values@.take(0) =~= Seq::empty());
    while i < values.len()
        invariant
            i <= values@.len(),
            out@ == in_order(values@.take(i as int)),
            out@.len() == i,
        decreases values@.len() - i,
    {
        let x: u32 = values[i];
        let ghost before = out@;
        let mut at: usize = out.len();
        assert(before.take(at as int) =~= before);
        assert(with_value(before, x) =~= with_value(before, x) + before.skip(at as int));
        while at > 0 && bits_less(x, out[at - 1])
            invariant
                at <= out@.len(),
                out@ == before,
                with_value(before, x) == with_value(before.take(at as int), x) + before.skip(
                    at as int,
                ),
            decreases at,
        {
            proof {
                let part = before.take(at as int);
                assert(part.last() == before[at - 1]);
                assert(part.drop_last() =~= before.take(at - 1));
                assert(with_value(part, x) + before.skip(at as int) =~= with_value(
                    before.take(at - 1),
                    x,
                ) + before.skip(at - 1));
            }
            at -= 1;
        }
        proof {
            let part = before.take(at as int);
            if at > 0 {
                assert(part.last() == before[at - 1]);
            }
            assert(with_value(part, x) == part.push(x));
            assert(part.push(x) + before.skip(at as int) =~= before.insert(at as int, x));
            assert(values@.take(i + 1).drop_last() =~= values@.take(i as int));
            assert(values@.take(i + 1).last() == x);
        }
        out.insert(at, x);
        i += 1;
    }
    assert(values@.take(values@.len() as int) =~= values@);
    out
}

fn make_boundaries(levels: &Vec<u32>, first: u32, last: u32) -> (r: Vec<u32>)
    requires
        0 < levels@.len() < usize::MAX,
    ensures
        r@ == boundaries_of(levels@, first, last),
{
    let n: usize = levels.len();
    let mut out: Vec<u32> = Vec::new();
    out.push(first);
    let mut i: usize = 1;
    while i < n
        invariant
            1 <= i <= n == levels@.len(),
            out@ =~= boundaries_of(levels@, first, last).take(i as int),
        decreases n - i,
    {
        out.push(divide_singles(add_singles(levels[i - 1], levels[i]), TWO));
        i += 1;
    }
    out.push(last);
    assert(out@ =~= boundaries_of(levels@, first, last));
    out
}

proof fn lemma_count(v: Seq<u32>, levels: Seq<u32>, region: int, n: int)
    requires
        0 <= n,
    ensures
        region_count(v, levels, region, n) <= n,
    decreases n,
{
    if n > 0 {
        lemma_count(v, levels, region, n - 1);
    }
}

fn gather(v: &Vec<u32>, levels: &Vec<u32>) -> (r: (Vec<u32>, Vec<u64>))
    requires
        0 < levels@.len() < usize::MAX,
    ensures
        r.0@.len() == levels@.len(),
        r.1@.len() == levels@.len(),
        forall|k: int|
            0 <= k < levels@.len() ==> #[trigger] r.0@[k] == region_sum(
                v@,
                levels@,
                k,
                v@.len() as int,
            ),
        forall|k: int|
            0 <= k < levels@.len() ==> #[trigger] r.1@[k] == region_count(
                v@,
                levels@,
                k,
                v@.len() as int,
            ),
{
    let n: usize = levels.len();
    let len: usize = v.len();
    let boundaries: Vec<u32> = make_boundaries(levels, NEGATIVE_INFINITY, INFINITY);
    let mut sums: Vec<u32> = Vec::new();
    sums.resize(n, 0);
    let mut counts: Vec<u64> = Vec::new();
    counts.resize(n, 0);
    let mut i: usize = 0;
    while i < len
        invariant
            i <= len == v@.len(),
            n == levels@.len() == sums@.len() == counts@.len(),
            0 < n < usize::MAX,
            boundaries@ == boundaries_of(levels@, NEGATIVE_INFINITY, INFINITY),
            forall|k: int|
                0 <= k < n ==> #[trigger] sums@[k] == region_sum(v@, levels@, k, i as int),
            forall|k: int|
                0 <= k < n ==> #[trigger] counts@[k] == region_count(v@, levels@, k, i as int),
        decreases len - i,
    {
        let x: u32 = v[i];
        let at: usize = lloyd_max_region(x, &boundaries, n);
        assert(at == region_of(x, levels@));
        let ghost old_sums = sums@;
        let ghost old_counts = counts@;
        proof {
            lemma_count(v@, levels@, at as int, i as int);
        }
        let sum: u32 = add_singles(sums[at], x);
        sums[at] = sum;
        let count: u64 = counts[at] + 1;
        counts[at] = count;
        proof {
            assert forall|k: int| 0 <= k < n implies #[trigger] sums@[k] == region_sum(
                v@,
                levels@,
                k,
                i + 1,
            ) by {
                if k != at {
                    assert(sums@[k] == old_sums[k]);
                }
            }
            assert forall|k: int| 0 <= k < n implies #[trigger] counts@[k] == region_count(
                v@,
                levels@,
                k,
                i + 1,
            ) by {
                if k != at {
                    assert(counts@[k] == old_counts[k]);
                }
            }
        }
        i += 1;
    }
    (sums, counts)
}

fn move_levels(v: &Vec<u32>, levels: &Vec<u32>) -> (r: (Vec<u32>, bool))
    requires
        0 < levels@.len() < usize::MAX,
    ensures
        r.0@ == moved(v@, levels@),
        r.1 == exists|i: int| 0 <= i < levels@.len() && #[trigger] moves(v@, levels@, i),
{
    let n: usize = levels.len();
    let (sums, counts) = gather(v, levels);
    let mut out: Vec<u32> = Vec::new();
    let mut some: bool = false;
    let mut i: usize = 0;
    while i < n
        invariant
            i <= n == levels@.len() == sums@.len() == counts@.len(),
            forall|k: int|
                0 <= k < n ==> #[trigger] sums@[k] == region_sum(
                    v@,
                    levels@,
                    k,
                    v@.len() as int,
                ),
            forall|k: int|
                0 <= k < n ==> #[trigger] counts@[k] == region_count(
                    v@,
                    levels@,
                    k,
                    v@.len() as int,
                ),
            out@ =~= moved(v@, levels@).take(i as int),
            some == exists|k: int| 0 <= k < i && #[trigger] moves(v@, levels@, k),
        decreases n - i,
    {
        assert(sums@[i as int] == region_sum(v@, levels@, i as int, v@.len() as int));
        assert(counts@[i as int] == region_count(v@, levels@, i as int, v@.len() as int));
        if counts[i] > 0 {
            let level: u32 = divide_singles(sums[i], single_of(counts[i]));
            assert(level == moved_level(v@, levels@, i as int));
            if bits_less(SETTLED, subtract_singles(level, levels[i]) % 0x8000_0000) {
                assert(moves(v@, levels@, i as int));
                some = true;
            }
            out.push(level);
        } else {
            out.push(levels[i]);
        }
        i += 1;
    }
    assert(moved(v@, levels@).take(n as int) =~= moved(v@, levels@));
    (out, some)
}

/// The levels of values and their boundaries, after no more than so many steps.
pub fn lloyd_max_quantizer(values: &Vec<u32>, num_levels: usize, max_iters: usize) -> (r: (
    Vec<u32>,
    Vec<u32>,
))
    requires
        num_levels < usize::MAX,
        values@.len() <= u32::MAX,
        forall|i: int| 0 <= i < values@.len() ==> !is_nan_bits(#[trigger] values@[i]),
    ensures
        (r.0@, r.1@) == quantizer(values@, num_levels as nat, max_iters as nat),
{
    if values.len() == 0 || num_levels == 0 {
        let mut levels: Vec<u32> = Vec::new();
        levels.resize(num_levels, 0);
        let mut boundaries: Vec<u32> = Vec::new();
        boundaries.resize(num_levels + 1, 0);
        assert(levels@ =~= Seq::new(num_levels as nat, |i: int| 0u32));
        assert(boundaries@ =~= Seq::new((num_levels + 1) as nat, |i: int| 0u32));
        return (levels, boundaries);
    }
    let sorted: Vec<u32> = sort_values(values);
    let low: u32 = sorted[0];
    let high: u32 = sorted[sorted.len() - 1];
    let range: u32 = subtract_singles(high, low);
    let ghost start = first_levels(low, high, num_levels as nat);
    let mut levels: Vec<u32> = Vec::new();
    let mut i: usize = 0;
    while i < num_levels
        invariant
            i <= num_levels,
            range == difference_bits(high, low),
            start == first_levels(low, high, num_levels as nat),
            levels@ =~= start.take(i as int),
        decreases num_levels - i,
    {
        let middle: u32 = add_singles(single_of(i as u64), HALF);
        let part: u32 = divide_singles(multiply_singles(range, middle), single_of(num_levels as u64));
        levels.push(add_singles(low, part));
        i += 1;
    }
    assert(levels@ =~= start);
    let ghost goal = settled(sorted@, start, max_iters as nat);
    let mut left: usize = max_iters;
    while left > 0
        invariant_except_break
            settled(sorted@, levels@, left as nat) == goal,
        invariant
            levels@.len() == num_levels,
            0 < num_levels < usize::MAX,
        ensures
            levels@ == goal,
        decreases left,
    {
        let (next, some) = move_levels(&sorted, &levels);
        levels = next;
        left -= 1;
        if !some {
            break;
        }
    }
    let boundaries: Vec<u32> = make_boundaries(&levels, low, high);
    (levels, boundaries)
}

/// The region of a value lies between the boundaries that it is not less than
/// and the one that it is less than.
pub proof fn law_region_is_bounded(value: u32, boundaries: Seq<u32>, num_levels: int)
    requires
        1 <= num_levels <= boundaries.len(),
    ensures
        ({
            let r = region_from(value, boundaries, num_levels, 1);
            &&& 0 <= r < num_levels
            &&& r < num_levels - 1 ==> less_bits(value, boundaries[r + 1])
            &&& forall|k: int| 1 <= k <= r ==> !less_bits(value, #[trigger] boundaries[k])
        }),
{
    lemma_region(value, boundaries, num_levels, 1);
}

proof fn lemma_region(value: u32, boundaries: Seq<u32>, num_levels: int, i: int)
    requires
        1 <= i <= num_levels <= boundaries.len(),
    ensures
        ({
            let r = region_from(value, boundaries, num_levels, i);
            &&& i - 1 <= r < num_levels
            &&& r < num_levels - 1 ==> less_bits(value, boundaries[r + 1])
            &&& forall|k: int| i <= k <= r ==> !less_bits(value, #[trigger] boundaries[k])
        }),
    decreases num_levels - i,
{
    if i < num_levels && !less_bits(value, boundaries[i]) {
        lemma_region(value, boundaries, num_levels, i + 1);
    }
}

/// A value is in the region of a level: it is less than the middle between that
/// level and the next, and not less than the middle between that level and the one
/// before.
pub proof fn law_region_lies_between_the_middles(value: u32, levels: Seq<u32>)
    requires
        levels.len() > 0,
    ensures
        ({
            let r = region_of(value, levels);
            &&& 0 <= r < levels.len()
            &&& r + 1 < levels.len() ==> less_bits(
                value,
                quotient_bits(sum_bits(levels[r], levels[r + 1]), 0x4000_0000),
            )
            &&& r > 0 ==> !less_bits(
                value,
                quotient_bits(sum_bits(levels[r - 1], levels[r]), 0x4000_0000),
            )
        }),
{
    let bs = boundaries_of(levels, NEGATIVE_INFINITY, INFINITY);
    lemma_region(value, bs, levels.len() as int, 1);
    let r = region_of(value, levels);
    lemma_middle(levels, NEGATIVE_INFINITY, INFINITY, r);
    lemma_middle(levels, NEGATIVE_INFINITY, INFINITY, r + 1);
    if r > 0 {
        assert(!less_bits(value, bs[r]));
    }
}

proof fn lemma_middle(levels: Seq<u32>, first: u32, last: u32, i: int)
    ensures
        0 < i < levels.len() ==> boundaries_of(levels, first, last)[i] == quotient_bits(
            sum_bits(levels[i - 1], levels[i]),
            0x4000_0000,
        ),
{
}

/// The values of a region are counted and added up; a level moves to their mean, and
/// stays where it has none.
pub proof fn law_level_moves_to_the_mean(v: Seq<u32>, levels: Seq<u32>, i: int, n: int)
    requires
        0 <= n < v.len(),
        0 <= i < levels.len(),
    ensures
        region_count(v, levels, i, 0) == 0 && region_sum(v, levels, i, 0) == 0,
        region_of(v[n], levels) == i ==> region_count(v, levels, i, n + 1) == region_count(
            v,
            levels,
            i,
            n,
        ) + 1 && region_sum(v, levels, i, n + 1) == sum_bits(region_sum(v, levels, i, n), v[n]),
        region_of(v[n], levels) != i ==> region_count(v, levels, i, n + 1) == region_count(
            v,
            levels,
            i,
            n,
        ) && region_sum(v, levels, i, n + 1) == region_sum(v, levels, i, n),
        region_count(v, levels, i, v.len() as int) > 0 ==> moved(v, levels)[i] == quotient_bits(
            region_sum(v, levels, i, v.len() as int),
            integer_bits(region_count(v, levels, i, v.len() as int)),
        ),
        region_count(v, levels, i, v.len() as int) == 0 ==> moved(v, levels)[i] == levels[i],
{
}

/// Whether all are numbers and none is less than one before it.
pub open spec fn ascends(s: Seq<u32>) -> bool {
    &&& forall|i: int| 0 <= i < s.len() ==> !is_nan_bits(#[trigger] s[i])
    &&& forall|i: int, j: int|
        0 <= i < j < s.len() ==> !less_bits(#[trigger] s[j], #[trigger] s[i])
}

proof fn lemma_with_value(s: Seq<u32>, x: u32)
    requires
        ascends(s),
        !is_nan_bits(x),
    ensures
        ascends(with_value(s, x)),
        with_value(s, x).to_multiset() == s.to_multiset().insert(x),
        forall|i: int|
            0 <= i < with_value(s, x).len() ==> (#[trigger] with_value(s, x)[i]) == x
                || s.contains(with_value(s, x)[i]),
    decreases s.len(),
{
    broadcast use vstd::seq_lib::group_to_multiset_ensures;

    let r = with_value(s, x);
    if s.len() == 0 || !less_bits(x, s.last()) {
        assert forall|i: int, j: int| 0 <= i < j < r.len() implies !less_bits(
            #[trigger] r[j],
            #[trigger] r[i],
        ) by {
            if j == s.len() && i < s.len() - 1 {
                assert(!less_bits(s[s.len() - 1], s[i]));
            }
        }
        assert forall|i: int| 0 <= i < r.len() implies (#[trigger] r[i]) == x || s.contains(
            r[i],
        ) by {
            if i < s.len() {
                assert(s[i] == r[i]);
            }
        }
    } else {
        let front = s.drop_last();
        lemma_with_value(front, x);
        let rest = with_value(front, x);
        assert(front.push(s.last()) =~= s);
        assert forall|i: int, j: int| 0 <= i < j < r.len() implies !less_bits(
            #[trigger] r[j],
            #[trigger] r[i],
        ) by {
            if j == rest.len() {
                assert(rest[i] == r[i]);
                if r[i] != x {
                    let k = choose|k: int| 0 <= k < front.len() && front[k] == rest[i];
                    assert(s[k] == r[i]);
                }
            } else {
                assert(!less_bits(rest[j], rest[i]));
            }
        }
        assert forall|i: int| 0 <= i < r.len() implies (#[trigger] r[i]) == x || s.contains(
            r[i],
        ) by {
            if i < rest.len() {
                assert(rest[i] == r[i]);
                if r[i] != x {
                    let k = choose|k: int| 0 <= k < front.len() && front[k] == rest[i];
                    assert(s[k] == r[i]);
                }
            } else {
                assert(s[s.len() - 1] == r[i]);
            }
        }
        assert forall|i: int| 0 <= i < r.len() implies !is_nan_bits(#[trigger] r[i]) by {
            if i < rest.len() {
                assert(rest[i] == r[i]);
            } else {
                assert(r[i] == s[s.len() - 1]);
            }
        }
        assert(r.to_multiset() =~= s.to_multiset().insert(x));
    }
}

/// The same numbers are in order once they are put in order.
pub proof fn law_values_are_put_in_order(v: Seq<u32>)
    requires
        forall|i: int| 0 <= i < v.len() ==> !is_nan_bits(#[trigger] v[i]),
    ensures
        ascends(in_order(v)),
        in_order(v).to_multiset() == v.to_multiset(),
    decreases v.len(),
{
    broadcast use vstd::seq_lib::group_to_multiset_ensures;

    if v.len() > 0 {
        let front = v.drop_last();
        assert forall|i: int| 0 <= i < front.len() implies !is_nan_bits(#[trigger] front[i]) by {
            assert(front[i] == v[i]);
        }
        law_values_are_put_in_order(front);
        assert(v.last() == v[v.len() - 1]);
        lemma_with_value(in_order(front), v.last());
        assert(front.push(v.last()) =~= v);
    }
}

/// The quantiser of values has so many levels and one more boundary: the outer ones
/// are the least and the greatest value, the inner ones the middles between levels.
pub proof fn law_boundaries_lie_between_levels(
    v: Seq<u32>,
    num_levels: nat,
    steps: nat,
    i: int,
)
    requires
        v.len() > 0,
        num_levels > 0,
        forall|k: int| 0 <= k < v.len() ==> !is_nan_bits(#[trigger] v[k]),
    ensures
        ({
            let (levels, boundaries) = quantizer(v, num_levels, steps);
            &&& levels.len() == num_levels
            &&& boundaries.len() == num_levels + 1
            &&& v.contains(boundaries[0])
            &&& v.contains(boundaries.last())
            &&& forall|k: int|
                0 <= k < v.len() ==> !less_bits(#[trigger] v[k], boundaries[0]) && !less_bits(
                    boundaries.last(),
                    v[k],
                )
            &&& 0 < i < num_levels ==> boundaries[i] == quotient_bits(
                sum_bits(levels[i - 1], levels[i]),
                0x4000_0000,
            )
        }),
{
    broadcast use vstd::seq_lib::group_to_multiset_ensures;

    let s = in_order(v);
    law_values_are_put_in_order(v);
    lemma_settled_len(s, first_levels(s[0], s.last(), num_levels), steps);
    let (levels, boundaries) = quantizer(v, num_levels, steps);
    lemma_middle(levels, s[0], s.last(), i);
    s.to_multiset_ensures();
    v.to_multiset_ensures();
    assert(s.len() == v.len());
    assert(s.contains(s[0]) && s.contains(s[s.len() - 1]));
    assert(s.to_multiset().count(s[0]) > 0 && s.to_multiset().count(s.last()) > 0);
    assert(v.contains(s[0]) && v.contains(s.last()));
    assert forall|k: int| 0 <= k < v.len() implies !less_bits(#[trigger] v[k], boundaries[0])
        && !less_bits(boundaries.last(), v[k]) by {
        assert(v.contains(v[k]));
        assert(v.to_multiset().count(v[k]) > 0);
        assert(s.contains(v[k]));
        let j = choose|j: int| 0 <= j < s.len() && s[j] == v[k];
        if 0 < j {
            assert(!less_bits(s[j], s[0]));
        }
        if j < s.len() - 1 {
            assert(!less_bits(s[s.len() - 1], s[j]));
        }
    }
}

proof fn lemma_settled_len(v: Seq<u32>, levels: Seq<u32>, steps: nat)
    ensures
        settled(v, levels, steps).len() == levels.len(),
    decreases steps,
{
    if steps > 0 {
        lemma_settled_len(v, moved(v, levels), (steps - 1) as nat);
    }
}

/// A level counts as moved if it has values and their mean is more than a millionth
/// away.
pub proof fn law_level_moves_by_more_than_a_millionth(v: Seq<u32>, levels: Seq<u32>, i: int)
    requires
        0 <= i < levels.len(),
    ensures
        ({
            let n = region_count(v, levels, i, v.len() as int);
            let mean = quotient_bits(
                region_sum(v, levels, i, v.len() as int),
                integer_bits(n),
            );
            moves(v, levels, i) <==> n > 0 && less_bits(
                0x3586_37bd,
                size_without_sign(difference_bits(mean, levels[i])),
            )
        }),
{
}

} // verus!
