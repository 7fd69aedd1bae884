//! Rotations in stages: which components each stage rotates together, and what
//! becomes of them.
//!
//! Components, angles, sines and cosines are bits of singles. The sines and
//! cosines of angles come from outside.

use vstd::arithmetic::power2::pow2;
use vstd::prelude::*;

use super::products::shorter;
use crate::single::{
    add_singles, difference_bits, divide_singles, integer_bits, multiply_singles, negate, opposite,
    product_bits, quotient_bits, single_of, subtract_singles, sum_bits, HALF,
};

verus! {

/// The first component of pair `k` of a stage: pairs fill blocks of twice the
/// stride from their start on.
pub open spec fn pair_first(k: int, stride: int) -> int {
    (k / stride) * (2 * stride) + k % stride
}

/// The number of pairs of a stage: the whole blocks, and of the last block the
/// pairs whose second component is there.
pub open spec fn pair_count(dim: int, stride: int) -> int {
    (dim / (2 * stride)) * stride + if dim % (2 * stride) > stride {
        dim % (2 * stride) - stride
    } else {
        0
    }
}

/// The pairs of a stage, in order.
pub open spec fn pairs_of(dim: int, stride: int) -> Seq<(int, int)> {
    Seq::new(
        pair_count(dim, stride) as nat,
        |k: int| (pair_first(k, stride), pair_first(k, stride) + stride),
    )
}

pub open spec fn pair_views(v: Seq<(usize, usize)>) -> Seq<(int, int)> {
    v.map_values(|p: (usize, usize)| (p.0 as int, p.1 as int))
}

pub proof fn lemma_pair_bounds(dim: int, stride: int, k: int)
    requires
        0 < stride,
        0 <= dim,
        0 <= k < pair_count(dim, stride),
    ensures
        0 <= pair_first(k, stride),
        pair_first(k, stride) + stride < dim,
        k / stride <= dim / (2 * stride),
{
    let w = 2 * stride;
    let q = k / stride;
    let r = k % stride;
    let blocks = dim / w;
    let rest = dim % w;
    vstd::arithmetic::div_mod::lemma_fundamental_div_mod(k, stride);
    vstd::arithmetic::div_mod::lemma_fundamental_div_mod(dim, w);
    assert(0 <= q && q * w >= 0 && (q < blocks || q == blocks) && q * w + r + stride < dim)
        by (nonlinear_arith)
        requires
            k == stride * q + r,
            0 <= r < stride,
            dim == w * blocks + rest,
            0 <= rest < w,
            w == 2 * stride,
            0 <= k,
            k < blocks * stride + (if rest > stride {
                rest - stride
            } else {
                0
            }),
            stride > 0,
    ;
}

/// The pairs of components that a stage rotates.
pub fn stage_pairs(dim: usize, stride: usize) -> (r: Vec<(usize, usize)>)
    requires
        0 < stride,
        2 * stride <= usize::MAX,
    ensures
        pair_views(r@) == pairs_of(dim as int, stride as int),
        r@.len() == pair_count(dim as int, stride as int),
        forall|k: int|
            0 <= k < r@.len() ==> (#[trigger] r@[k]).0 == pair_first(k, stride as int) && r@[k].1
                == pair_first(k, stride as int) + stride && r@[k].1 < dim,
{
    let width: usize = 2 * stride;
    let blocks: usize = dim / width;
    let rest: usize = dim % width;
    proof {
        vstd::arithmetic::div_mod::lemma_fundamental_div_mod(dim as int, width as int);
        assert(blocks * stride <= dim && blocks * stride + rest <= dim) by (nonlinear_arith)
            requires
                dim == width * blocks + rest,
                width == 2 * stride,
                blocks >= 0,
                stride >= 0,
                rest >= 0,
        ;
    }
    let count: usize = blocks * stride + if rest > stride {
        rest - stride
    } else {
        0
    };
    let mut out: Vec<(usize, usize)> = Vec::new();
    let mut k: usize = 0;
    while k < count
        invariant
            0 < stride,
            width == 2 * stride,
            count == pair_count(dim as int, stride as int),
            k <= count,
            pair_views(out@) =~= pairs_of(dim as int, stride as int).take(k as int),
            out@.len() == k,
            forall|j: int|
                0 <= j < k ==> (#[trigger] out@[j]).0 == pair_first(j, stride as int) && out@[j].1
                    == pair_first(j, stride as int) + stride && out@[j].1 < dim,
        decreases count - k,
    {
        proof {
            lemma_pair_bounds(dim as int, stride as int, k as int);
            vstd::arithmetic::div_mod::lemma_fundamental_div_mod(k as int, stride as int);
            let q = k as int / stride as int;
            let r = k as int % stride as int;
            assert(0 <= q * width) by (nonlinear_arith)
                requires
                    q >= 0,
            ;
        }
        let a: usize = (k / stride) * width + k % stride;
        let ghost before = pair_views(out@);
        out.push((a, a + stride));
        assert(pair_views(out@) =~= before.push((a as int, a + stride)));
        k += 1;
    }
    assert(pairs_of(dim as int, stride as int).take(count as int) =~= pairs_of(
        dim as int,
        stride as int,
    ));
    out
}

/// The pair that a component belongs to.
pub open spec fn pair_of(i: int, stride: int) -> int {
    (i / (2 * stride)) * stride + (i % (2 * stride)) % stride
}

/// In a stage whose blocks fill all components, every component is in exactly
/// one pair: no rotation of a stage reads what another one wrote.
pub proof fn law_every_component_is_paired_once(dim: int, stride: int, i: int)
    requires
        0 < stride,
        0 <= i < dim,
        dim % (2 * stride) == 0,
    ensures
        0 <= pair_of(i, stride) < pair_count(dim, stride),
        pair_first(pair_of(i, stride), stride) == i || pair_first(pair_of(i, stride), stride)
            + stride == i,
        forall|k: int|
            0 <= k && (#[trigger] pair_first(k, stride) == i || pair_first(k, stride) + stride
                == i) ==> k == pair_of(i, stride),
{
    let w = 2 * stride;
    let b = i / w;
    let o = i % w;
    let blocks = dim / w;
    vstd::arithmetic::div_mod::lemma_fundamental_div_mod(i, w);
    vstd::arithmetic::div_mod::lemma_fundamental_div_mod(dim, w);
    let m = if o < stride {
        o
    } else {
        o - stride
    };
    assert(o % stride == m) by {
        if o < stride {
            vstd::arithmetic::div_mod::lemma_small_mod(o as nat, stride as nat);
        } else {
            vstd::arithmetic::div_mod::lemma_fundamental_div_mod_converse(o, stride, 1, o - stride);
        }
    }
    let k = b * stride + m;
    assert(k == pair_of(i, stride));
    assert(k == stride * b + m) by (nonlinear_arith)
        requires
            k == b * stride + m,
    ;
    vstd::arithmetic::div_mod::lemma_fundamental_div_mod_converse(k, stride, b, m);
    assert(b * w == w * b) by (nonlinear_arith);
    assert(0 <= b && b < blocks && 0 <= k && k < blocks * stride) by (nonlinear_arith)
        requires
            i == w * b + o,
            0 <= o < w,
            0 <= i < dim,
            dim == w * blocks,
            w == 2 * stride,
            k == b * stride + m,
            0 <= m < stride,
    ;
    assert forall|j: int|
        0 <= j && (#[trigger] pair_first(j, stride) == i || pair_first(j, stride) + stride
            == i) implies j == k by {
        let q = j / stride;
        let r = j % stride;
        vstd::arithmetic::div_mod::lemma_fundamental_div_mod(j, stride);
        let u = if pair_first(j, stride) == i {
            r
        } else {
            r + stride
        };
        assert(i == w * q + u) by (nonlinear_arith)
            requires
                i == q * w + u,
        ;
        vstd::arithmetic::div_mod::lemma_fundamental_div_mod_converse(i, w, q, u);
        assert(stride * q == q * stride) by (nonlinear_arith);
    }
}

/// Whether a number is a power of two.
pub open spec fn is_power(n: nat) -> bool {
    exists|k: nat| n == #[trigger] pow2(k)
}

/// The strides of a rotation: the powers of two below its dimension.
pub fn stage_strides(dim: usize) -> (r: Vec<usize>)
    requires
        is_power(dim as nat),
    ensures
        pow2(r@.len()) == dim,
        forall|s: int| 0 <= s < r@.len() ==> #[trigger] r@[s] == pow2(s as nat),
{
    let ghost n = choose|k: nat| dim as nat == #[trigger] pow2(k);
    let mut out: Vec<usize> = Vec::new();
    let mut stride: usize = 1;
    proof {
        vstd::arithmetic::power2::lemma2_to64();
        vstd::arithmetic::power2::lemma_pow2_pos(n);
    }
    while stride < dim
        invariant
            dim as nat == pow2(n),
            out@.len() <= n,
            stride == pow2(out@.len()),
            stride <= dim,
            forall|s: int| 0 <= s < out@.len() ==> #[trigger] out@[s] == pow2(s as nat),
        decreases dim - stride,
    {
        proof {
            crate::float::lemma_pow2_step(out@.len());
            if out@.len() < n {
                crate::float::lemma_pow2_mono(out@.len() + 1, n);
            } else {
                assert(false);
            }
        }
        out.push(stride);
        stride = stride * 2;
    }
    out
}

/// The next state of the generator that angles are drawn from.
pub open spec fn xorshift(x: u64) -> u64 {
    let a = x ^ (x << 13u64);
    let b = a ^ (a >> 7u64);
    b ^ (b << 17u64)
}

pub fn next_state(x: u64) -> (r: u64)
    ensures
        r == xorshift(x),
{
    let a: u64 = x ^ (x << 13u64);
    let b: u64 = a ^ (a >> 7u64);
    b ^ (b << 17u64)
}

/// The generator never falls into zero, from which it would not come out: only
/// zero leads to zero.
pub proof fn law_generator_stays_alive(x: u64)
    ensures
        xorshift(x) == 0 <==> x == 0,
{
    assert((({
        let a = x ^ (x << 13u64);
        let b = a ^ (a >> 7u64);
        b ^ (b << 17u64)
    }) == 0u64) == (x == 0u64)) by (bit_vector);
}

/// A stage of a rotation: one angle for each pair of components that are a
/// stride apart.
#[derive(Debug, PartialEq, Eq)]
pub struct ButterflyStage {
    pub angles: Vec<u32>,
    pub stride: usize,
}

/// A rotation by stages.
#[derive(Debug, PartialEq, Eq)]
pub struct ButterflyRotation {
    pub dim: usize,
    pub stages: Vec<ButterflyStage>,
    /// How often the angles were learned.
    pub version: u64,
}

/// The generator after so many steps.
pub open spec fn state_after(seed: u64, n: nat) -> u64
    decreases n,
{
    if n == 0 {
        seed
    } else {
        xorshift(state_after(seed, (n - 1) as nat))
    }
}

/// The bits of pi, as the nearest single.
pub const PI: u32 = 0x4049_0fdb;

/// The angle that a state of the generator stands for: up to an eighth of a turn
/// to either side.
pub open spec fn angle_of(state: u64) -> u32 {
    let share = quotient_bits(integer_bits(state as nat), integer_bits(u64::MAX as nat));
    product_bits(product_bits(difference_bits(share, HALF), PI), HALF)
}

fn draw_angle(state: u64) -> (r: u32)
    ensures
        r == angle_of(state),
{
    let share: u32 = divide_singles(single_of(state), single_of(u64::MAX));
    let middle: u32 = subtract_singles(share, HALF);
    multiply_singles(multiply_singles(middle, PI), HALF)
}

/// Whether a rotation has a stage for each power of two below its dimension,
/// each with half as many angles as there are components.
pub open spec fn is_rotation(r: ButterflyRotation, dim: usize) -> bool {
    &&& r.dim == dim
    &&& pow2(r.stages@.len()) == dim
    &&& forall|s: int|
        0 <= s < r.stages@.len() ==> (#[trigger] r.stages@[s]).stride == pow2(s as nat)
            && r.stages@[s].angles@.len() == dim / 2
}

impl ButterflyRotation {
    /// The rotation by no angle.
    pub fn identity(dim: usize) -> (r: Self)
        requires
            is_power(dim as nat),
        ensures
            is_rotation(r, dim),
            r.version == 0,
            forall|s: int, k: int|
                0 <= s < r.stages@.len() && 0 <= k < dim / 2 ==> #[trigger] r.stages@[s].angles@[k]
                    == 0,
    {
        let strides: Vec<usize> = stage_strides(dim);
        let mut stages: Vec<ButterflyStage> = Vec::new();
        let mut s: usize = 0;
        while s < strides.len()
            invariant
                s <= strides@.len(),
                stages@.len() == s,
                forall|k: int| 0 <= k < strides@.len() ==> #[trigger] strides@[k] == pow2(k as nat),
                forall|k: int|
                    0 <= k < s ==> (#[trigger] stages@[k]).stride == pow2(k as nat)
                        && stages@[k].angles@.len() == dim / 2,
                forall|k: int, j: int|
                    0 <= k < s && 0 <= j < dim / 2 ==> #[trigger] stages@[k].angles@[j] == 0,
            decreases strides@.len() - s,
        {
            let mut angles: Vec<u32> = Vec::new();
            angles.resize(dim / 2, 0);
            stages.push(ButterflyStage { angles, stride: strides[s] });
            s += 1;
        }
        ButterflyRotation { dim, stages, version: 0 }
    }

    /// A rotation by angles that are drawn one after the other.
    pub fn random(dim: usize, seed: u64) -> (r: Self)
        requires
            is_power(dim as nat),
        ensures
            is_rotation(r, dim),
            r.version == 0,
            forall|s: int, k: int|
                0 <= s < r.stages@.len() && 0 <= k < dim / 2 ==> #[trigger] r.stages@[s].angles@[k]
                    == angle_of(state_after(seed, (s * (dim / 2) + k + 1) as nat)),
    {
        let strides: Vec<usize> = stage_strides(dim);
        let half: usize = dim / 2;
        let mut state: u64 = seed;
        let mut stages: Vec<ButterflyStage> = Vec::new();
        let mut s: usize = 0;
        assert(0 * half == 0);
        while s < strides.len()
            invariant
                s <= strides@.len(),
                half == dim / 2,
                stages@.len() == s,
                state == state_after(seed, (s * half) as nat),
                forall|k: int| 0 <= k < strides@.len() ==> #[trigger] strides@[k] == pow2(k as nat),
                forall|k: int|
                    0 <= k < s ==> (#[trigger] stages@[k]).stride == pow2(k as nat)
                        && stages@[k].angles@.len() == half,
                forall|k: int, j: int|
                    0 <= k < s && 0 <= j < half ==> #[trigger] stages@[k].angles@[j] == angle_of(
                        state_after(seed, (k * half + j + 1) as nat),
                    ),
            decreases strides@.len() - s,
        {
            let mut angles: Vec<u32> = Vec::new();
            let mut i: usize = 0;
            assert(s * half >= 0) by (nonlinear_arith);
            while i < half
                invariant
                    i <= half,
                    angles@.len() == i,
                    s * half >= 0,
                    state == state_after(seed, (s * half + i) as nat),
                    forall|j: int|
                        0 <= j < i ==> #[trigger] angles@[j] == angle_of(
                            state_after(seed, (s * half + j + 1) as nat),
                        ),
                decreases half - i,
            {
                state = next_state(state);
                angles.push(draw_angle(state));
                i += 1;
            }
            assert((s + 1) * half == s * half + half) by (nonlinear_arith);
            stages.push(ButterflyStage { angles, stride: strides[s] });
            s += 1;
        }
        ButterflyRotation { dim, stages, version: 0 }
    }

    /// The number of angles: half the dimension for each stage.
    pub fn num_parameters(&self) -> (r: usize)
        requires
            self.stages@.len() * (self.dim / 2) <= usize::MAX,
        ensures
            r == self.stages@.len() * (self.dim as nat / 2),
    {
        self.stages.len() * (self.dim / 2)
    }
}

/// A stage by the sines and cosines of its angles.
#[derive(Debug, PartialEq, Eq)]
pub struct StageTurns {
    pub sines: Vec<u32>,
    pub cosines: Vec<u32>,
    pub stride: usize,
}

/// A pair of components after a turn.
pub open spec fn turned_pair(sine: u32, cosine: u32, a: u32, b: u32, forward: bool) -> (u32, u32) {
    if forward {
        (
            difference_bits(product_bits(cosine, a), product_bits(sine, b)),
            sum_bits(product_bits(sine, a), product_bits(cosine, b)),
        )
    } else {
        (
            sum_bits(product_bits(cosine, a), product_bits(sine, b)),
            sum_bits(product_bits(opposite(sine), a), product_bits(cosine, b)),
        )
    }
}

/// Components after the first `n` pairs of a stage were turned.
pub open spec fn turned(x: Seq<u32>, stage: StageTurns, forward: bool, n: int) -> Seq<u32>
    decreases n,
{
    if n <= 0 {
        x
    } else {
        let before = turned(x, stage, forward, n - 1);
        let a = pair_first(n - 1, stage.stride as int);
        let b = a + stage.stride;
        let p = turned_pair(
            stage.sines@[n - 1],
            stage.cosines@[n - 1],
            before[a],
            before[b],
            forward,
        );
        before.update(a, p.0).update(b, p.1)
    }
}

/// Components after a stage.
pub open spec fn after_stage(x: Seq<u32>, stage: StageTurns, forward: bool) -> Seq<u32> {
    turned(x, stage, forward, pair_count(x.len() as int, stage.stride as int))
}

/// Whether a stage has a sine and a cosine for each pair of so many components.
pub open spec fn stage_fits(stage: StageTurns, dim: nat) -> bool {
    &&& 0 < stage.stride
    &&& 2 * stage.stride <= usize::MAX
    &&& pair_count(dim as int, stage.stride as int) <= stage.sines@.len()
    &&& pair_count(dim as int, stage.stride as int) <= stage.cosines@.len()
}

fn turn_pair(sine: u32, cosine: u32, a: u32, b: u32, forward: bool) -> (r: (u32, u32))
    ensures
        r == turned_pair(sine, cosine, a, b, forward),
{
    if forward {
        (
            subtract_singles(multiply_singles(cosine, a), multiply_singles(sine, b)),
            add_singles(multiply_singles(sine, a), multiply_singles(cosine, b)),
        )
    } else {
        (
            add_singles(multiply_singles(cosine, a), multiply_singles(sine, b)),
            add_singles(multiply_singles(negate(sine), a), multiply_singles(cosine, b)),
        )
    }
}

impl StageTurns {
    fn apply(&self, x: &mut Vec<u32>, forward: bool)
        requires
            stage_fits(*self, old(x)@.len()),
        ensures
            final(x)@ == after_stage(old(x)@, *self, forward),
            final(x)@.len() == old(x)@.len(),
    {
        let ghost start = x@;
        let len: usize = x.len();
        let pairs: Vec<(usize, usize)> = stage_pairs(len, self.stride);
        let mut k: usize = 0;
        while k < pairs.len()
            invariant
                k <= pairs@.len() <= self.sines@.len(),
                pairs@.len() <= self.cosines@.len(),
                forall|j: int|
                    0 <= j < pairs@.len() ==> (#[trigger] pairs@[j]).0 == pair_first(
                        j,
                        self.stride as int,
                    ) && pairs@[j].1 == pair_first(j, self.stride as int) + self.stride
                        && pairs@[j].1 < len,
                len == x@.len() == start.len(),
                x@ == turned(start, *self, forward, k as int),
            decreases pairs@.len() - k,
        {
            let (a, b) = pairs[k];
            assert(pairs@[k as int] == (a, b));
            let (p, q) = turn_pair(self.sines[k], self.cosines[k], x[a], x[b], forward);
            let ghost before = x@;
            x[a] = p;
            x[b] = q;
            assert(x@ =~= before.update(a as int, p).update(b as int, q));
            k += 1;
        }
    }

    /// Turns the pairs of a stage, in place.
    pub fn apply_forward(&self, x: &mut Vec<u32>)
        requires
            stage_fits(*self, old(x)@.len()),
        ensures
            final(x)@ == after_stage(old(x)@, *self, true),
            final(x)@.len() == old(x)@.len(),
    {
        self.apply(x, true);
    }

    /// Turns the pairs of a stage back, in place.
    pub fn apply_inverse(&self, x: &mut Vec<u32>)
        requires
            stage_fits(*self, old(x)@.len()),
        ensures
            final(x)@ == after_stage(old(x)@, *self, false),
            final(x)@.len() == old(x)@.len(),
    {
        self.apply(x, false);
    }
}

/// A rotation by the sines and cosines of its angles.
#[derive(Debug, PartialEq, Eq)]
pub struct RotationTurns {
    pub stages: Vec<StageTurns>,
    pub version: u64,
}

/// Whether every stage fits so many components.
pub open spec fn turns_fit(t: RotationTurns, dim: nat) -> bool {
    forall|s: int| 0 <= s < t.stages@.len() ==> stage_fits(#[trigger] t.stages@[s], dim)
}

/// Components after the first `n` stages.
pub open spec fn rotated(x: Seq<u32>, stages: Seq<StageTurns>, n: int) -> Seq<u32>
    decreases n,
{
    if n <= 0 {
        x
    } else {
        after_stage(rotated(x, stages, n - 1), stages[n - 1], true)
    }
}

/// Components after the first `n` stages were turned back, the last of them
/// first.
pub open spec fn rotated_back(x: Seq<u32>, stages: Seq<StageTurns>, n: int) -> Seq<u32>
    decreases n,
{
    if n <= 0 {
        x
    } else {
        rotated_back(after_stage(x, stages[n - 1], false), stages, n - 1)
    }
}

impl RotationTurns {
    /// Rotates components, in place.
    pub fn rotate_forward(&self, x: &mut Vec<u32>)
        requires
            turns_fit(*self, old(x)@.len()),
        ensures
            final(x)@ == rotated(old(x)@, self.stages@, self.stages@.len() as int),
            final(x)@.len() == old(x)@.len(),
    {
        let ghost start = x@;
        let mut s: usize = 0;
        while s < self.stages.len()
            invariant
                s <= self.stages@.len(),
                turns_fit(*self, start.len()),
                x@.len() == start.len(),
                x@ == rotated(start, self.stages@, s as int),
            decreases self.stages@.len() - s,
        {
            assert(stage_fits(self.stages@[s as int], start.len()));
            self.stages[s].apply_forward(x);
            s += 1;
        }
    }

    /// Rotates components back, in place.
    pub fn rotate_inverse(&self, x: &mut Vec<u32>)
        requires
            turns_fit(*self, old(x)@.len()),
        ensures
            final(x)@ == rotated_back(old(x)@, self.stages@, self.stages@.len() as int),
            final(x)@.len() == old(x)@.len(),
    {
        let ghost start = x@;
        let mut s: usize = self.stages.len();
        while s > 0
            invariant
                s <= self.stages@.len(),
                turns_fit(*self, start.len()),
                x@.len() == start.len(),
                rotated_back(x@, self.stages@, s as int) == rotated_back(
                    start,
                    self.stages@,
                    self.stages@.len() as int,
                ),
            decreases s,
        {
            s -= 1;
            assert(stage_fits(self.stages@[s as int], start.len()));
            self.stages[s].apply_inverse(x);
        }
    }
}

/// The squared distances of the first `n` components of two vectors, added up in
/// their order to a start.
pub open spec fn distances(start: u32, a: Seq<u32>, b: Seq<u32>, n: int) -> u32
    decreases n,
{
    if n <= 0 {
        start
    } else {
        let d = difference_bits(a[n - 1], b[n - 1]);
        sum_bits(distances(start, a, b, n - 1), product_bits(d, d))
    }
}

/// The squared distances of the first `n` vectors from their approximations,
/// added up in their order.
pub open spec fn all_distances(a: Seq<Vec<u32>>, b: Seq<Vec<u32>>, n: int) -> u32
    decreases n,
{
    if n <= 0 {
        0
    } else {
        distances(
            all_distances(a, b, n - 1),
            a[n - 1]@,
            b[n - 1]@,
            shorter(a[n - 1]@.len(), b[n - 1]@.len()),
        )
    }
}

/// What approximations lose of rotated vectors: their mean squared distance.
pub fn reconstruction_loss(rotated: &Vec<Vec<u32>>, approximated: &Vec<Vec<u32>>) -> (r: u32)
    requires
        rotated@.len() == approximated@.len(),
    ensures
        r == quotient_bits(
            all_distances(rotated@, approximated@, rotated@.len() as int),
            integer_bits(rotated@.len()),
        ),
{
    let mut total: u32 = 0;
    let mut i: usize = 0;
    while i < rotated.len()
        invariant
            i <= rotated@.len() == approximated@.len(),
            total == all_distances(rotated@, approximated@, i as int),
        decreases rotated@.len() - i,
    {
        let a: &Vec<u32> = &rotated[i];
        let b: &Vec<u32> = &approximated[i];
        let n: usize = if a.len() < b.len() {
            a.len()
        } else {
            b.len()
        };
        let ghost start = total;
        let mut k: usize = 0;
        while k < n
            invariant
                k <= n,
                n <= a@.len(),
                n <= b@.len(),
                total == distances(start, a@, b@, k as int),
            decreases n - k,
        {
            let d: u32 = subtract_singles(a[k], b[k]);
            total = add_singles(total, multiply_singles(d, d));
            k += 1;
        }
        i += 1;
    }
    divide_singles(total, single_of(rotated.len() as u64))
}

} // verus!
