//! What rotations do to the components of a vector.

use vstd::prelude::*;

use super::butterfly::{
    after_stage, all_distances, angle_of, distances, law_every_component_is_paired_once,
    lemma_pair_bounds, pair_count, pair_first, rotated, rotated_back, state_after, turned,
    turned_pair, StageTurns,
};
use super::metal::next_power;
use super::turbo::{padded, resized, stage, stages, transformed};
use crate::single::{
    difference_bits, integer_bits, opposite, product_bits, quotient_bits, root_bits, sum_bits,
};

verus! {

/// A stage of the Walsh-Hadamard transform puts the sum of two components that are
/// `h` apart in the place of the first, and their difference in that of the second.
pub proof fn law_stage_adds_and_subtracts(x: Seq<u32>, h: int, i: int)
    requires
        0 < h,
        0 <= i,
        i + h < x.len(),
        i % (2 * h) < h,
    ensures
        stage(x, h).len() == x.len(),
        stage(x, h)[i] == sum_bits(x[i], x[i + h]),
        stage(x, h)[i + h] == difference_bits(x[i], x[i + h]),
{
    vstd::arithmetic::div_mod::lemma_fundamental_div_mod(i, 2 * h);
    let q = i / (2 * h);
    let r = i % (2 * h);
    assert(i + h == (2 * h) * q + (r + h));
    vstd::arithmetic::div_mod::lemma_fundamental_div_mod_converse(i + h, 2 * h, q, r + h);
}

/// The transform goes through the stages of one, two, four and so on up to the number
/// of components, and then divides by the root of that number.
pub proof fn law_transform_goes_through_all_stages(x: Seq<u32>, h: nat, i: int)
    requires
        0 < h,
        0 <= i < x.len(),
    ensures
        h < x.len() ==> stages(x, h) == stages(stage(x, h as int), 2 * h),
        h >= x.len() ==> stages(x, h) == x,
        stages(x, 1).len() == x.len() ==> transformed(x)[i] == quotient_bits(
            stages(x, 1)[i],
            root_bits(integer_bits(x.len())),
        ),
{
}

/// A pair is turned: forward by the matrix of its sine and cosine, and back by the
/// transposed one.
pub proof fn law_pair_is_turned(sine: u32, cosine: u32, a: u32, b: u32)
    ensures
        turned_pair(sine, cosine, a, b, true).0 == difference_bits(
            product_bits(cosine, a),
            product_bits(sine, b),
        ),
        turned_pair(sine, cosine, a, b, true).1 == sum_bits(
            product_bits(sine, a),
            product_bits(cosine, b),
        ),
        turned_pair(sine, cosine, a, b, false).0 == sum_bits(
            product_bits(cosine, a),
            product_bits(sine, b),
        ),
        turned_pair(sine, cosine, a, b, false).1 == sum_bits(
            product_bits(opposite(sine), a),
            product_bits(cosine, b),
        ),
{
}

/// Two pairs have no component in common.
proof fn lemma_pairs_apart(dim: int, stride: int, j: int, k: int)
    requires
        0 < stride,
        dim % (2 * stride) == 0,
        0 <= j,
        0 <= k,
        j != k,
        0 <= pair_first(k, stride),
        pair_first(k, stride) + stride < dim,
    ensures
        pair_first(j, stride) != pair_first(k, stride),
        pair_first(j, stride) + stride != pair_first(k, stride),
        pair_first(j, stride) != pair_first(k, stride) + stride,
{
    law_every_component_is_paired_once(dim, stride, pair_first(k, stride));
    law_every_component_is_paired_once(dim, stride, pair_first(k, stride) + stride);
}

/// What the step of one pair does to a sequence.
proof fn lemma_step(
    x: Seq<u32>,
    st: StageTurns,
    forward: bool,
    n: int,
    c: int,
)
    requires
        n > 0,
        c == pair_first(n - 1, st.stride as int),
    ensures
        ({
            let before = turned(x, st, forward, n - 1);
            let p = turned_pair(
                st.sines@[n - 1],
                st.cosines@[n - 1],
                before[c],
                before[c + st.stride],
                forward,
            );
            turned(x, st, forward, n) == before.update(c, p.0).update(c + st.stride, p.1)
        }),
{
}

proof fn lemma_turned(x: Seq<u32>, st: StageTurns, forward: bool, n: int, k: int, a: int)
    requires
        0 < st.stride,
        x.len() as int % (2 * st.stride as int) == 0,
        0 <= n <= pair_count(x.len() as int, st.stride as int),
        0 <= k < pair_count(x.len() as int, st.stride as int),
        a == pair_first(k, st.stride as int),
        0 <= a,
        a + st.stride < x.len(),
    ensures
        turned(x, st, forward, n).len() == x.len(),
        k < n ==> is_turned(
            turned(x, st, forward, n),
            a,
            st.stride as int,
            turned_pair(st.sines@[k], st.cosines@[k], x[a], x[a + st.stride], forward),
        ),
        k >= n ==> is_turned(
            turned(x, st, forward, n),
            a,
            st.stride as int,
            (x[a], x[a + st.stride]),
        ),
    decreases n,
{
    if n > 0 {
        lemma_turned(x, st, forward, n - 1, k, a);
        let stride = st.stride as int;
        let c = pair_first(n - 1, stride);
        lemma_step(x, st, forward, n, c);
        lemma_pair_bounds(x.len() as int, stride, n - 1);
        if k != n - 1 {
            lemma_pairs_apart(x.len() as int, stride, n - 1, k);
        }
        let before = turned(x, st, forward, n - 1);
        let p = turned_pair(
            st.sines@[n - 1],
            st.cosines@[n - 1],
            before[c],
            before[c + st.stride],
            forward,
        );
        lemma_updated(before, c, stride, p, a);
    }
}

/// Whether a pair of components is this one.
spec fn is_turned(x: Seq<u32>, a: int, stride: int, p: (u32, u32)) -> bool {
    x[a] == p.0 && x[a + stride] == p.1
}

proof fn lemma_updated(x: Seq<u32>, c: int, stride: int, p: (u32, u32), a: int)
    requires
        0 < stride,
        0 <= a,
        a + stride < x.len(),
        0 <= c,
        c + stride < x.len(),
        a == c || c != a && c + stride != a && c != a + stride,
    ensures
        ({
            let y = x.update(c, p.0).update(c + stride, p.1);
            &&& y.len() == x.len()
            &&& a == c ==> is_turned(y, a, stride, p)
            &&& a != c ==> is_turned(y, a, stride, (x[a], x[a + stride]))
        }),
{
}

/// A stage turns each pair of components once, by its own sine and cosine, whatever
/// the others are.
pub proof fn law_stage_turns_each_pair(x: Seq<u32>, st: StageTurns, forward: bool, k: int)
    requires
        0 < st.stride,
        x.len() as int % (2 * st.stride as int) == 0,
        0 <= k < pair_count(x.len() as int, st.stride as int),
    ensures
        ({
            let a = pair_first(k, st.stride as int);
            let b = a + st.stride;
            let p = turned_pair(st.sines@[k], st.cosines@[k], x[a], x[b], forward);
            after_stage(x, st, forward)[a] == p.0 && after_stage(x, st, forward)[b] == p.1
        }),
{
    let a = pair_first(k, st.stride as int);
    lemma_pair_bounds(x.len() as int, st.stride as int, k);
    lemma_turned(x, st, forward, pair_count(x.len() as int, st.stride as int), k, a);
}

/// A rotation goes through its stages in their order, and back through them in the
/// opposite one.
pub proof fn law_rotation_goes_through_its_stages(x: Seq<u32>, stages: Seq<StageTurns>, n: int)
    requires
        0 <= n < stages.len(),
    ensures
        rotated(x, stages, 0) == x,
        rotated_back(x, stages, 0) == x,
        rotated(x, stages, n + 1) == after_stage(rotated(x, stages, n), stages[n], true),
        rotated_back(x, stages, n + 1) == rotated_back(
            after_stage(x, stages[n], false),
            stages,
            n,
        ),
{
}

/// A padded vector has its components first and zeros behind them.
pub proof fn law_vector_is_padded_with_zeros(v: Seq<u32>, n: nat, i: int)
    requires
        0 <= i < n,
    ensures
        resized(v, n).len() == n,
        i < v.len() ==> resized(v, n)[i] == v[i],
        i >= v.len() ==> resized(v, n)[i] == 0,
        padded(v) == resized(v, next_power(v.len())),
{
}

/// The generator that angles are drawn from starts with the seed and shifts and mixes
/// by 13, 7 and 17 places in turn.
pub proof fn law_generator_shifts_and_mixes(seed: u64, n: nat)
    ensures
        state_after(seed, 0) == seed,
        ({
            let x = state_after(seed, n);
            let a = x ^ (x << 13u64);
            let b = a ^ (a >> 7u64);
            state_after(seed, n + 1) == b ^ (b << 17u64)
        }),
{
}

/// An angle that is drawn is a share of half a turn: what the state is of the greatest
/// one, less a half, times pi and halved.
pub proof fn law_drawn_angle_is_a_share(state: u64)
    ensures
        angle_of(state) == product_bits(
            product_bits(
                difference_bits(
                    quotient_bits(
                        integer_bits(state as nat),
                        integer_bits(0xffff_ffff_ffff_ffff),
                    ),
                    0x3f00_0000,
                ),
                0x4049_0fdb,
            ),
            0x3f00_0000,
        ),
{
}

/// The loss adds up the squares of what components differ by, vector after vector.
pub proof fn law_losses_add_up(a: Seq<Vec<u32>>, b: Seq<Vec<u32>>, n: int, start: u32, k: int)
    requires
        0 <= n < a.len(),
        a.len() == b.len(),
        a[n]@.len() == b[n]@.len(),
        0 <= k < a[n]@.len(),
    ensures
        all_distances(a, b, 0) == 0,
        all_distances(a, b, n + 1) == distances(
            all_distances(a, b, n),
            a[n]@,
            b[n]@,
            a[n]@.len() as int,
        ),
        distances(start, a[n]@, b[n]@, 0) == start,
        ({
            let d = difference_bits(a[n]@[k], b[n]@[k]);
            distances(start, a[n]@, b[n]@, k + 1) == sum_bits(
                distances(start, a[n]@, b[n]@, k),
                product_bits(d, d),
            )
        }),
{
}

} // verus!
