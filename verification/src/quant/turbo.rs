//! Rotated vectors in codes of two, four or eight bits.

use vstd::arithmetic::power2::pow2;
use vstd::prelude::*;

use super::grid::{
    grid, grid_codes, grid_scale, grid_values, law_codes_fit_their_width, least, values_of, Grid,
};
use super::metal::{law_next_power, next_power, next_power_of_two};
use super::packing::{
    bytes_for, code, codes_fit, is_width, law_packed_codes_are_read_back, lemma_widths, pack_codes,
    packed, packed_len, per_byte, unpack_codes, unpacked,
};
use super::products::{multiply_up, products, shorter};
use crate::single::{
    add_singles, difference_bits, divide_singles, integer_bits, quotient_bits, root_bits,
    root_single, single_of, subtract_singles, sum_bits,
};

verus! {

/// The width of a code.
#[derive(Clone, Copy, Debug, PartialEq, Eq, Structural)]
pub enum TurboQuantBits {
    Bit2,
    Bit4,
    Bit8,
}

/// The bits of a code.
pub open spec fn turbo_width(b: TurboQuantBits) -> nat {
    match b {
        TurboQuantBits::Bit2 => 2,
        TurboQuantBits::Bit4 => 4,
        TurboQuantBits::Bit8 => 8,
    }
}

impl TurboQuantBits {
    /// The number of levels.
    pub fn num_levels(self) -> (r: u32)
        ensures
            r == pow2(turbo_width(self)),
    {
        proof {
            lemma_widths();
        }
        match self {
            TurboQuantBits::Bit2 => 4,
            TurboQuantBits::Bit4 => 16,
            TurboQuantBits::Bit8 => 256,
        }
    }

    /// The number of codes in a byte.
    pub fn per_byte(self) -> (r: usize)
        ensures
            r == per_byte(turbo_width(self)),
    {
        proof {
            lemma_widths();
        }
        match self {
            TurboQuantBits::Bit2 => 4,
            TurboQuantBits::Bit4 => 2,
            TurboQuantBits::Bit8 => 1,
        }
    }

    /// The greatest code, whose bits are all set.
    pub fn mask(self) -> (r: u8)
        ensures
            r == pow2(turbo_width(self)) - 1,
    {
        proof {
            lemma_widths();
        }
        match self {
            TurboQuantBits::Bit2 => 0x03,
            TurboQuantBits::Bit4 => 0x0f,
            TurboQuantBits::Bit8 => 0xff,
        }
    }

    /// The bits of a code.
    pub fn bits(self) -> (r: usize)
        ensures
            r == turbo_width(self),
    {
        match self {
            TurboQuantBits::Bit2 => 2,
            TurboQuantBits::Bit4 => 4,
            TurboQuantBits::Bit8 => 8,
        }
    }
}

/// The levels of a width are as many as its codes have values, and the codes
/// of a byte fill it.
pub proof fn law_widths_fill_a_byte(b: TurboQuantBits)
    ensures
        per_byte(turbo_width(b)) * turbo_width(b) == 8,
        is_width(turbo_width(b)),
{
    lemma_widths();
}

/// A quantised vector. Scale and zero point are bits of numbers.
#[derive(Debug, PartialEq, Eq)]
pub struct TurboQuantVector {
    pub data: Vec<u8>,
    pub scale: u32,
    pub zero_point: u32,
    pub bits: TurboQuantBits,
    /// The number of components, before they were padded to a power of two.
    pub dim: usize,
}

/// A quantised vector from its codes: those of all padded components, or of
/// the first of them with zeros behind.
fn turbo_pack(
    codes: &Vec<u8>,
    scale: u32,
    zero_point: u32,
    bits: TurboQuantBits,
    dim: usize,
) -> (r: TurboQuantVector)
    requires
        next_power(dim as nat) + 8 <= usize::MAX,
        codes_fit(codes@, turbo_width(bits)),
    ensures
        r.data@ == packed(codes@, turbo_width(bits), next_power(dim as nat)),
        r.scale == scale,
        r.zero_point == zero_point,
        r.bits == bits,
        r.dim == dim,
{
    let padded: usize = next_power_of_two(dim);
    TurboQuantVector {
        data: pack_codes(codes.as_slice(), bits.bits() as u32, padded),
        scale,
        zero_point,
        bits,
        dim,
    }
}

/// The codes of all padded components of a quantised vector.
fn turbo_codes(v: &TurboQuantVector) -> (r: Vec<u8>)
    requires
        next_power(v.dim as nat) <= usize::MAX,
        packed_len(next_power(v.dim as nat), turbo_width(v.bits)) <= v.data@.len(),
    ensures
        r@ == unpacked(v.data@, turbo_width(v.bits), next_power(v.dim as nat)),
        codes_fit(r@, turbo_width(v.bits)),
{
    let padded: usize = next_power_of_two(v.dim);
    unpack_codes(v.data.as_slice(), v.bits.bits() as u32, padded)
}

/// One stage of the Walsh-Hadamard transform: numbers that are `h` apart give
/// way to their sum and their difference.
pub open spec fn stage(x: Seq<u32>, h: int) -> Seq<u32> {
    Seq::new(
        x.len(),
        |j: int|
            if j % (2 * h) < h {
                sum_bits(x[j], x[j + h])
            } else {
                difference_bits(x[j - h], x[j])
            },
    )
}

/// The stages from `h` on.
pub open spec fn stages(x: Seq<u32>, h: nat) -> Seq<u32>
    decreases
        if h < x.len() {
            x.len() - h
        } else {
            0
        },
{
    if h == 0 || h >= x.len() {
        x
    } else {
        stages(stage(x, h as int), 2 * h)
    }
}

/// The Walsh-Hadamard transform, divided by the root of the number of
/// components.
pub open spec fn transformed(x: Seq<u32>) -> Seq<u32> {
    stages(x, 1).map_values(|v: u32| quotient_bits(v, root_bits(integer_bits(x.len()))))
}

proof fn lemma_stages_len(x: Seq<u32>, h: nat)
    ensures
        stages(x, h).len() == x.len(),
    decreases
        if h < x.len() {
            x.len() - h
        } else {
            0
        },
{
    if 0 < h < x.len() {
        lemma_stages_len(stage(x, h as int), 2 * h);
    }
}

/// Whether a length is a power of two.
pub open spec fn is_power(n: nat) -> bool {
    exists|k: nat| n == #[trigger] pow2(k)
}

/// A block of twice `h` numbers starts where the one before it ends.
proof fn lemma_block(j: int, i: int, h: int)
    requires
        h > 0,
        i % (2 * h) == 0,
        i <= j < i + 2 * h,
    ensures
        j % (2 * h) == j - i,
{
    vstd::arithmetic::div_mod::lemma_fundamental_div_mod(i, 2 * h);
    vstd::arithmetic::div_mod::lemma_fundamental_div_mod_converse(j, 2 * h, i / (2 * h), j - i);
}

fn transform_stage(x: &mut Vec<u32>, h: usize)
    requires
        h > 0,
        old(x)@.len() % (2 * h as nat) == 0,
    ensures
        final(x)@ == stage(old(x)@, h as int),
{
    let ghost before = x@;
    let ghost goal = stage(before, h as int);
    let n: usize = x.len();
    let mut i: usize = 0;
    while i < n
        invariant
            h > 0,
            i <= n == x@.len() == before.len(),
            n as int % (2 * h) == 0,
            i as int % (2 * h) == 0,
            goal == stage(before, h as int),
            forall|k: int| 0 <= k < i ==> #[trigger] x@[k] == goal[k],
            forall|k: int| i <= k < n ==> #[trigger] x@[k] == before[k],
        decreases n - i,
    {
        proof {
            vstd::arithmetic::div_mod::lemma_fundamental_div_mod(n as int, 2 * h as int);
            vstd::arithmetic::div_mod::lemma_fundamental_div_mod(i as int, 2 * h as int);
            let a = n as int / (2 * h as int);
            let b = i as int / (2 * h as int);
            assert(i + 2 * h <= n) by (nonlinear_arith)
                requires
                    n == (2 * h) * a,
                    i == (2 * h) * b,
                    i < n,
                    h > 0,
            ;
            assert((2 * h) * (b + 1) == (2 * h) * b + 2 * h) by (nonlinear_arith);
            vstd::arithmetic::div_mod::lemma_fundamental_div_mod_converse(
                i + 2 * h,
                2 * h as int,
                b + 1,
                0,
            );
        }
        let mut j: usize = i;
        while j < i + h
            invariant
                h > 0,
                i <= j <= i + h,
                i + 2 * h <= n == x@.len() == before.len(),
                i as int % (2 * h) == 0,
                goal == stage(before, h as int),
                forall|k: int| 0 <= k < j ==> #[trigger] x@[k] == goal[k],
                forall|k: int| j <= k < i + h ==> #[trigger] x@[k] == before[k],
                forall|k: int| i + h <= k < j + h ==> #[trigger] x@[k] == goal[k],
                forall|k: int| j + h <= k < n ==> #[trigger] x@[k] == before[k],
            decreases i + h - j,
        {
            proof {
                lemma_block(j as int, i as int, h as int);
                lemma_block(j + h, i as int, h as int);
            }
            let a: u32 = x[j];
            let b: u32 = x[j + h];
            assert(a == before[j as int]);
            assert(b == before[j + h]);
            x[j] = add_singles(a, b);
            x[j + h] = subtract_singles(a, b);
            j += 1;
        }
        i = i + 2 * h;
    }
    assert(x@ =~= goal);
}

/// The Walsh-Hadamard transform of a vector, in place. Its length is a power of
/// two.
pub fn walsh_hadamard_transform(x: &mut Vec<u32>)
    requires
        is_power(old(x)@.len()),
    ensures
        final(x)@ == transformed(old(x)@),
        final(x)@.len() == old(x)@.len(),
{
    let ghost start = x@;
    let n: usize = x.len();
    let ghost top = choose|k: nat| n == #[trigger] pow2(k);
    let mut h: usize = 1;
    let ghost mut k: nat = 0;
    proof {
        lemma_widths();
        vstd::arithmetic::power2::lemma_pow2_pos(top);
    }
    while h < n
        invariant
            0 < h <= n == x@.len() == start.len(),
            n == pow2(top),
            h == pow2(k),
            k <= top,
            stages(x@, h as nat) == stages(start, 1),
        decreases n - h,
    {
        proof {
            if k >= top {
                crate::float::lemma_pow2_mono(top, k);
            }
            crate::float::lemma_pow2_step(k);
            let rest = (top - k - 1) as nat;
            vstd::arithmetic::power2::lemma_pow2_adds(k + 1, rest);
            assert(n == (2 * h) * pow2(rest));
            vstd::arithmetic::div_mod::lemma_fundamental_div_mod_converse(
                n as int,
                2 * h as int,
                pow2(rest) as int,
                0,
            );
            crate::float::lemma_pow2_mono(k + 1, top);
        }
        transform_stage(x, h);
        h = 2 * h;
        proof {
            k = k + 1;
        }
    }
    let norm: u32 = root_single(single_of(n as u64));
    let ghost middle = x@;
    let ghost goal = transformed(start);
    proof {
        lemma_stages_len(start, 1);
    }
    let mut i: usize = 0;
    while i < n
        invariant
            i <= n == x@.len() == middle.len() == start.len(),
            middle == stages(start, 1),
            goal == transformed(start),
            norm == root_bits(integer_bits(start.len())),
            forall|j: int| 0 <= j < i ==> #[trigger] x@[j] == goal[j],
            forall|j: int| i <= j < n ==> #[trigger] x@[j] == middle[j],
        decreases n - i,
    {
        assert(x@[i as int] == middle[i as int]);
        let v: u32 = divide_singles(x[i], norm);
        x[i] = v;
        i += 1;
    }
    assert(x@ =~= goal);
}

/// The inverse of the Walsh-Hadamard transform, which is the transform itself.
pub fn walsh_hadamard_inverse(x: &mut Vec<u32>)
    requires
        is_power(old(x)@.len()),
    ensures
        final(x)@ == transformed(old(x)@),
        final(x)@.len() == old(x)@.len(),
{
    walsh_hadamard_transform(x);
}

/// A vector cut to a length, or with zeros behind it up to that.
pub open spec fn resized(v: Seq<u32>, n: nat) -> Seq<u32> {
    Seq::new(
        n,
        |i: int|
            if i < v.len() {
                v[i]
            } else {
                0
            },
    )
}

/// A vector with zeros behind it up to the next power of two.
pub open spec fn padded(v: Seq<u32>) -> Seq<u32> {
    resized(v, next_power(v.len()))
}

/// The greatest code of a width.
pub open spec fn last_code(bits: TurboQuantBits) -> u8 {
    (pow2(turbo_width(bits)) - 1) as u8
}

/// A vector, rotated by the Walsh-Hadamard transform, on its grid.
pub fn turbo_quantize(vector: Vec<u32>, bits: TurboQuantBits) -> (r: TurboQuantVector)
    requires
        next_power(vector@.len()) + 8 <= usize::MAX,
    ensures
        ({
            let rotated = transformed(padded(vector@));
            &&& r.data@ == packed(
                grid_codes(rotated, last_code(bits)),
                turbo_width(bits),
                next_power(vector@.len()),
            )
            &&& r.scale == grid_scale(rotated, last_code(bits))
            &&& r.zero_point == least(rotated, rotated.len() as int)
            &&& r.bits == bits
            &&& r.dim == vector@.len()
        }),
{
    let dim: usize = vector.len();
    let len: usize = next_power_of_two(dim);
    let mut x: Vec<u32> = vector;
    x.resize(len, 0);
    proof {
        law_next_power(dim as nat, 0);
        assert(x@ =~= padded(vector@));
        lemma_last_code(bits);
    }
    walsh_hadamard_transform(&mut x);
    let g: Grid = grid(&x, bits.mask());
    proof {
        law_codes_fit_their_width(x@, last_code(bits), turbo_width(bits));
    }
    turbo_pack(&g.codes, g.scale, g.zero, bits, dim)
}

proof fn lemma_last_code(bits: TurboQuantBits)
    ensures
        last_code(bits) == pow2(turbo_width(bits)) - 1,
        last_code(bits) < pow2(turbo_width(bits)),
{
    lemma_widths();
}

/// Whether a quantised vector is a rotated one on its grid. Behind it the codes
/// are zero.
pub open spec fn is_quantized(v: TurboQuantVector, rotated: Seq<u32>, bits: TurboQuantBits) -> bool {
    &&& v.data@ == packed(
        grid_codes(rotated, last_code(bits)),
        turbo_width(bits),
        next_power(rotated.len()),
    )
    &&& v.scale == grid_scale(rotated, last_code(bits))
    &&& v.zero_point == least(rotated, rotated.len() as int)
    &&& v.bits == bits
    &&& v.dim == rotated.len()
}

/// A vector that was rotated before, on its grid.
pub fn turbo_quantize_pre_rotated(rotated: Vec<u32>, bits: TurboQuantBits) -> (r: TurboQuantVector)
    requires
        next_power(rotated@.len()) + 8 <= usize::MAX,
    ensures
        is_quantized(r, rotated@, bits),
        has_codes(r),
{
    let g: Grid = grid(&rotated, bits.mask());
    proof {
        lemma_last_code(bits);
        law_codes_fit_their_width(rotated@, last_code(bits), turbo_width(bits));
    }
    turbo_pack(&g.codes, g.scale, g.zero, bits, rotated.len())
}

/// Whether a quantised vector has the codes of all padded components.
pub open spec fn has_codes(v: TurboQuantVector) -> bool {
    &&& next_power(v.dim as nat) <= usize::MAX
    &&& packed_len(next_power(v.dim as nat), turbo_width(v.bits)) <= v.data@.len()
}

/// The numbers that a quantised vector stands for, before it is rotated back.
pub open spec fn levels_of(v: TurboQuantVector) -> Seq<u32> {
    grid_values(
        unpacked(v.data@, turbo_width(v.bits), next_power(v.dim as nat)),
        v.scale,
        v.zero_point,
    )
}

/// The numbers that a quantised vector stands for, before it is rotated back.
pub fn turbo_dequantize_rotated(tqv: &TurboQuantVector) -> (r: Vec<u32>)
    requires
        has_codes(*tqv),
    ensures
        r@ == levels_of(*tqv),
        r@.len() == next_power(tqv.dim as nat),
{
    let codes: Vec<u8> = turbo_codes(tqv);
    values_of(&codes, tqv.scale, tqv.zero_point)
}

/// The numbers that a vector that was rotated before stands for.
pub fn turbo_dequantize_pre_rotated(tqv: &TurboQuantVector) -> (r: Vec<u32>)
    requires
        has_codes(*tqv),
    ensures
        r@ == levels_of(*tqv),
        r@.len() == next_power(tqv.dim as nat),
{
    turbo_dequantize_rotated(tqv)
}

/// The numbers that a quantised vector stands for.
pub fn turbo_dequantize(tqv: &TurboQuantVector) -> (r: Vec<u32>)
    requires
        has_codes(*tqv),
    ensures
        r@ == transformed(levels_of(*tqv)).take(tqv.dim as int),
        r@.len() == tqv.dim,
{
    let mut x: Vec<u32> = turbo_dequantize_rotated(tqv);
    proof {
        law_next_power(tqv.dim as nat, 0);
    }
    walsh_hadamard_inverse(&mut x);
    x.truncate(tqv.dim);
    x
}

/// The product of a rotated query and a quantised vector, over all padded
/// components.
pub fn turbo_dot_product_rotated(query_rotated: &Vec<u32>, tqv: &TurboQuantVector) -> (r: u32)
    requires
        has_codes(*tqv),
    ensures
        r == products(
            0,
            query_rotated@,
            levels_of(*tqv),
            shorter(query_rotated@.len(), next_power(tqv.dim as nat)),
        ),
{
    let x: Vec<u32> = turbo_dequantize_rotated(tqv);
    let n: usize = if query_rotated.len() < x.len() {
        query_rotated.len()
    } else {
        x.len()
    };
    multiply_up(0, query_rotated, &x, n)
}

/// The product of a query and a quantised vector that were rotated before, over
/// the components without padding.
pub fn turbo_dot_product_pre_rotated(query_rotated: &Vec<u32>, tqv: &TurboQuantVector) -> (r: u32)
    requires
        has_codes(*tqv),
    ensures
        r == products(
            0,
            query_rotated@,
            levels_of(*tqv),
            shorter(query_rotated@.len(), tqv.dim as nat),
        ),
{
    let x: Vec<u32> = turbo_dequantize_rotated(tqv);
    let n: usize = if query_rotated.len() < tqv.dim {
        query_rotated.len()
    } else {
        tqv.dim
    };
    proof {
        law_next_power(tqv.dim as nat, 0);
    }
    multiply_up(0, query_rotated, &x, n)
}

/// The codes of a quantised vector are those it was made of, and zeros behind
/// them.
pub proof fn law_turbo_keeps_codes(codes: Seq<u8>, bits: TurboQuantBits, dim: nat, i: int)
    requires
        codes_fit(codes, turbo_width(bits)),
        0 <= i < next_power(dim),
    ensures
        unpacked(
            packed(codes, turbo_width(bits), next_power(dim)),
            turbo_width(bits),
            next_power(dim),
        )[i] == code(codes, i),
{
    law_widths_fill_a_byte(bits);
    law_packed_codes_are_read_back(codes, turbo_width(bits), next_power(dim), i);
}

/// How many times smaller a quantised vector is.
pub fn compression_ratio(dim: usize, bits: TurboQuantBits) -> (r: u32)
    requires
        dim * 4 <= usize::MAX,
        next_power(dim as nat) + 8 <= usize::MAX,
    ensures
        r == quotient_bits(
            integer_bits((dim * 4) as nat),
            integer_bits(packed_len(next_power(dim as nat), turbo_width(bits)) + 8),
        ),
{
    let (before, after) = compression_bytes(dim, bits);
    divide_singles(single_of(before as u64), single_of(after as u64))
}

/// The bytes of a vector of single-precision numbers, and of a quantised one
/// with its scale and zero point.
fn compression_bytes(dim: usize, bits: TurboQuantBits) -> (r: (usize, usize))
    requires
        dim * 4 <= usize::MAX,
        next_power(dim as nat) + 8 <= usize::MAX,
    ensures
        r.0 == dim * 4,
        r.1 == packed_len(next_power(dim as nat), turbo_width(bits)) + 8,
{
    let padded: usize = next_power_of_two(dim);
    (dim * 4, bytes_for(padded, bits.bits() as u32) + 8)
}

} // verus!
