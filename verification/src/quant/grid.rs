//! Even grids: the codes of numbers between the least and the greatest of them.
//!
//! Numbers are bits of singles.

use vstd::arithmetic::power2::pow2;
use vstd::prelude::*;

use super::packing::codes_fit;
use crate::bits::{bits_less, is_nan_bits, less_bits};
use crate::float::{lemma_pow2_mono, lemma_pow2_values, Number, Rounded};
use crate::single::{
    add_singles, difference_bits, divide_singles, integer_bits, is_finite, is_infinite,
    is_negative, law_nothing_is_left, multiply_singles, number_of, product_bits, quotient_bits,
    read_single, single_of, subtract_singles, sum_bits, INFINITY, ONE,
};

verus! {

/// The greatest single.
pub const GREATEST: u32 = 0x7f7f_ffff;

/// The least single.
pub const LEAST: u32 = 0xff7f_ffff;

/// The ten-billionth, as the nearest single: numbers that are no further apart
/// are close.
pub const CLOSE: u32 = 0x2edb_e6ff;

/// The most steps that two bytes can count.
pub const WIDE_LEVELS: u16 = 0xffff;

/// The least of the first `n` numbers.
pub open spec fn least(v: Seq<u32>, n: int) -> u32
    decreases n,
{
    if n <= 0 {
        GREATEST
    } else {
        let m = least(v, n - 1);
        if less_bits(v[n - 1], m) {
            v[n - 1]
        } else {
            m
        }
    }
}

/// The greatest of the first `n` numbers.
pub open spec fn greatest(v: Seq<u32>, n: int) -> u32
    decreases n,
{
    if n <= 0 {
        LEAST
    } else {
        let m = greatest(v, n - 1);
        if less_bits(m, v[n - 1]) {
            v[n - 1]
        } else {
            m
        }
    }
}

/// How far the greatest number is from the least.
pub open spec fn spread(v: Seq<u32>) -> u32 {
    difference_bits(greatest(v, v.len() as int), least(v, v.len() as int))
}

/// The length of a step where so many steps lead from the least number to the
/// greatest: one where the numbers are close.
pub open spec fn step_length(v: Seq<u32>, levels: nat) -> u32 {
    if less_bits(CLOSE, spread(v)) {
        quotient_bits(spread(v), integer_bits(levels))
    } else {
        ONE
    }
}

/// The step of the grid with so many steps.
pub open spec fn grid_scale(v: Seq<u32>, levels: u8) -> u32 {
    step_length(v, levels as nat)
}

/// The integer nearest to a number that is not negative, the greater one of two
/// that are as near.
pub open spec fn nearest_whole(a: Number) -> int {
    if a.e >= 0 {
        a.m * pow2(a.e as nat)
    } else {
        (2 * a.m + pow2((-a.e) as nat)) / (2 * pow2((-a.e) as nat)) as int
    }
}

/// A number of steps as a whole one: the nearest integer, no less than zero and
/// no more than all steps; zero for what is no number.
pub open spec fn whole_steps(steps: u32, levels: nat) -> nat {
    if is_nan_bits(steps) || is_negative(steps) {
        0
    } else if is_infinite(steps) || nearest_whole(number_of(steps)) >= levels {
        levels
    } else {
        nearest_whole(number_of(steps)) as nat
    }
}

/// The number of whole steps from the start of a grid to a number.
pub open spec fn steps_to(x: u32, scale: u32, zero: u32, levels: nat) -> nat {
    whole_steps(quotient_bits(difference_bits(x, zero), scale), levels)
}

/// The code of a number on a grid.
pub open spec fn grid_code(x: u32, scale: u32, zero: u32, levels: u8) -> u8 {
    steps_to(x, scale, zero, levels as nat) as u8
}

/// The codes of numbers on their grid.
pub open spec fn grid_codes(v: Seq<u32>, levels: u8) -> Seq<u8> {
    v.map_values(
        |x: u32| grid_code(x, grid_scale(v, levels), least(v, v.len() as int), levels),
    )
}

/// The codes of numbers on the grid with as many steps as two bytes can count.
pub open spec fn wide_codes(v: Seq<u32>) -> Seq<u16> {
    v.map_values(
        |x: u32|
            steps_to(
                x,
                step_length(v, WIDE_LEVELS as nat),
                least(v, v.len() as int),
                WIDE_LEVELS as nat,
            ) as u16,
    )
}

/// Codes of two bytes as bytes, the lower one first.
pub open spec fn wide_bytes(codes: Seq<u16>) -> Seq<u8> {
    Seq::new(
        2 * codes.len(),
        |b: int|
            if b % 2 == 0 {
                (codes[b / 2] % 256) as u8
            } else {
                (codes[b / 2] / 256) as u8
            },
    )
}

/// The number that a code stands for.
pub open spec fn grid_value(code: u8, scale: u32, zero: u32) -> u32 {
    sum_bits(product_bits(integer_bits(code as nat), scale), zero)
}

/// The numbers that codes stand for.
pub open spec fn grid_values(codes: Seq<u8>, scale: u32, zero: u32) -> Seq<u32> {
    codes.map_values(|c: u8| grid_value(c, scale, zero))
}

/// Numbers on a grid. The step and the start are bits of numbers.
#[derive(Debug, PartialEq, Eq)]
pub struct Grid {
    pub codes: Vec<u8>,
    pub scale: u32,
    pub zero: u32,
}

fn count_steps(steps: u32, levels: u16) -> (r: u16)
    ensures
        r == whole_steps(steps, levels as nat),
        r <= levels,
{
    if steps >= 0x8000_0000 || steps > INFINITY {
        return 0;
    }
    if steps == INFINITY {
        return levels;
    }
    let q: Rounded = read_single(steps);
    proof {
        lemma_pow2_values();
    }
    if q.m == 0 {
        assert(0 * pow2(0) == 0);
        return 0;
    }
    if q.e >= 0 {
        proof {
            lemma_pow2_mono(0, q.e as nat);
            assert(q.m * pow2(q.e as nat) >= q.m) by (nonlinear_arith)
                requires
                    q.m >= 0,
                    pow2(q.e as nat) >= 1,
            ;
        }
        return levels;
    }
    if q.e < -30 {
        proof {
            lemma_pow2_mono(31, (-q.e) as nat);
            vstd::arithmetic::power2::lemma2_to64();
            let d = pow2((-q.e) as nat) as int;
            assert((2 * q.m + d) / (2 * d) == 0) by (nonlinear_arith)
                requires
                    0 <= 2 * q.m < d,
            ;
        }
        return 0;
    }
    let k: u32 = (-q.e) as u32;
    let d: u64 = 1u64 << k;
    proof {
        vstd::arithmetic::power2::lemma2_to64();
        lemma_pow2_mono(k as nat, 30);
        vstd::arithmetic::power2::lemma_pow2_pos(k as nat);
        vstd::bits::lemma_u64_shl_is_mul(1, k as u64);
    }
    let w: u64 = (2 * (q.m as u64) + d) / (2 * d);
    if w < levels as u64 {
        w as u16
    } else {
        levels
    }
}

/// The least of numbers, and the length of a step.
fn measure(values: &Vec<u32>, levels: u16) -> (r: (u32, u32))
    ensures
        r.0 == least(values@, values@.len() as int),
        r.1 == step_length(values@, levels as nat),
{
    let len: usize = values.len();
    let mut zero: u32 = GREATEST;
    let mut high: u32 = LEAST;
    let mut i: usize = 0;
    while i < len
        invariant
            i <= len == values@.len(),
            zero == least(values@, i as int),
            high == greatest(values@, i as int),
        decreases len - i,
    {
        let x: u32 = values[i];
        if bits_less(x, zero) {
            zero = x;
        }
        if bits_less(high, x) {
            high = x;
        }
        i += 1;
    }
    let range: u32 = subtract_singles(high, zero);
    let scale: u32 = if bits_less(CLOSE, range) {
        divide_singles(range, single_of(levels as u64))
    } else {
        ONE
    };
    (zero, scale)
}

/// Numbers on the even grid with so many steps that starts at the least and
/// ends at the greatest of them.
pub fn grid(values: &Vec<u32>, levels: u8) -> (r: Grid)
    ensures
        r.codes@ == grid_codes(values@, levels),
        r.scale == grid_scale(values@, levels),
        r.zero == least(values@, values@.len() as int),
{
    let len: usize = values.len();
    let (zero, scale) = measure(values, levels as u16);
    let mut codes: Vec<u8> = Vec::new();
    let mut j: usize = 0;
    while j < len
        invariant
            j <= len == values@.len(),
            zero == least(values@, len as int),
            scale == grid_scale(values@, levels),
            codes@ =~= grid_codes(values@, levels).take(j as int),
        decreases len - j,
    {
        let steps: u32 = divide_singles(subtract_singles(values[j], zero), scale);
        codes.push(count_steps(steps, levels as u16) as u8);
        j += 1;
    }
    assert(grid_codes(values@, levels).take(len as int) =~= grid_codes(values@, levels));
    Grid { codes, scale, zero }
}

/// Numbers on the even grid with as many steps as two bytes can count; the codes
/// as bytes.
pub fn wide_grid(values: &Vec<u32>) -> (r: Grid)
    ensures
        r.codes@ == wide_bytes(wide_codes(values@)),
        r.scale == step_length(values@, WIDE_LEVELS as nat),
        r.zero == least(values@, values@.len() as int),
{
    let len: usize = values.len();
    let (zero, scale) = measure(values, WIDE_LEVELS);
    let ghost goal = wide_bytes(wide_codes(values@));
    let mut codes: Vec<u8> = Vec::new();
    let mut j: usize = 0;
    while j < len
        invariant
            j <= len == values@.len(),
            zero == least(values@, len as int),
            scale == step_length(values@, WIDE_LEVELS as nat),
            goal == wide_bytes(wide_codes(values@)),
            codes@ =~= goal.take(2 * j),
        decreases len - j,
    {
        let steps: u32 = divide_singles(subtract_singles(values[j], zero), scale);
        let c: u16 = count_steps(steps, WIDE_LEVELS);
        assert(c == wide_codes(values@)[j as int]);
        assert(goal[2 * j] == c % 256);
        assert(goal[2 * j + 1] == c / 256);
        codes.push((c % 256) as u8);
        codes.push((c / 256) as u8);
        j += 1;
    }
    assert(goal.take(2 * len) =~= goal);
    Grid { codes, scale, zero }
}

/// The number that a code stands for.
pub fn value_of(code: u8, scale: u32, zero: u32) -> (r: u32)
    ensures
        r == grid_value(code, scale, zero),
{
    add_singles(multiply_singles(single_of(code as u64), scale), zero)
}

/// The numbers that codes stand for.
pub fn values_of(codes: &Vec<u8>, scale: u32, zero: u32) -> (r: Vec<u32>)
    ensures
        r@ == grid_values(codes@, scale, zero),
{
    let len: usize = codes.len();
    let mut out: Vec<u32> = Vec::new();
    let mut i: usize = 0;
    while i < len
        invariant
            i <= len == codes@.len(),
            out@ =~= grid_values(codes@, scale, zero).take(i as int),
        decreases len - i,
    {
        out.push(value_of(codes[i], scale, zero));
        i += 1;
    }
    assert(grid_values(codes@, scale, zero).take(len as int) =~= grid_values(codes@, scale, zero));
    out
}

proof fn lemma_no_code_is_beyond(steps: u32, levels: nat)
    ensures
        whole_steps(steps, levels) <= levels,
{
    let a = number_of(steps);
    if !is_negative(steps) {
        lemma_pow2_values();
        if a.e >= 0 {
            vstd::arithmetic::power2::lemma_pow2_pos(a.e as nat);
            assert(a.m * pow2(a.e as nat) >= 0) by (nonlinear_arith)
                requires
                    a.m >= 0,
                    pow2(a.e as nat) >= 0,
            ;
        } else {
            let d = pow2((-a.e) as nat) as int;
            vstd::arithmetic::power2::lemma_pow2_pos((-a.e) as nat);
            assert((2 * a.m + d) / (2 * d) >= 0) by (nonlinear_arith)
                requires
                    a.m >= 0,
                    d > 0,
            ;
        }
    }
}

/// No code is beyond the last step, so that codes of as many steps as a width
/// holds fit into it.
pub proof fn law_codes_fit_their_width(v: Seq<u32>, levels: u8, bits: nat)
    requires
        levels < pow2(bits),
    ensures
        forall|i: int| 0 <= i < v.len() ==> #[trigger] grid_codes(v, levels)[i] <= levels,
        codes_fit(grid_codes(v, levels), bits),
{
    assert forall|i: int| 0 <= i < v.len() implies #[trigger] grid_codes(v, levels)[i]
        <= levels by {
        let q = quotient_bits(
            difference_bits(v[i], least(v, v.len() as int)),
            grid_scale(v, levels),
        );
        lemma_no_code_is_beyond(q, levels as nat);
        assert(grid_codes(v, levels)[i] == whole_steps(q, levels as nat));
    }
}

/// The code of a number of steps is the integer nearest to it, as far as there are
/// so many steps: it is no further away than a half.
pub proof fn law_code_is_the_nearest_step(steps: u32, levels: nat)
    requires
        is_finite(steps),
        !is_negative(steps),
    ensures
        whole_steps(steps, levels) <= levels,
        ({
            let a = number_of(steps);
            let c = whole_steps(steps, levels) as int;
            let one = pow2((-a.e) as nat) as int;
            &&& a.e < 0 ==> 2 * (c * one) <= 2 * a.m + one
            &&& a.e < 0 && c < levels ==> 2 * a.m - one <= 2 * (c * one)
            &&& a.e >= 0 && c < levels ==> c == a.m * pow2(a.e as nat)
        }),
{
    lemma_no_code_is_beyond(steps, levels);
    let a = number_of(steps);
    let c = whole_steps(steps, levels) as int;
    lemma_pow2_values();
    if a.e < 0 {
        let one = pow2((-a.e) as nat) as int;
        vstd::arithmetic::power2::lemma_pow2_pos((-a.e) as nat);
        let q = (2 * a.m + one) / (2 * one);
        vstd::arithmetic::div_mod::lemma_fundamental_div_mod(2 * a.m + one, 2 * one);
        let r = (2 * a.m + one) % (2 * one);
        assert(2 * (q * one) + r == 2 * a.m + one) by (nonlinear_arith)
            requires
                2 * a.m + one == (2 * one) * q + r,
        ;
        assert(c <= q);
        assert(2 * (c * one) <= 2 * (q * one)) by (nonlinear_arith)
            requires
                c <= q,
                one > 0,
        ;
        assert(c < levels ==> c == q);
    }
}

/// The start of a grid has the code zero.
pub proof fn law_grid_starts_at_zero(scale: u32, zero: u32, levels: u8)
    requires
        is_finite(zero),
        !is_negative(scale),
    ensures
        grid_code(zero, scale, zero, levels) == 0,
{
    law_nothing_is_left(zero);
    assert(0 * pow2(0) == 0);
}

} // verus!
