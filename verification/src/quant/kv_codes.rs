//! Keys and values in codes: keys on a grid for each channel, values on one for
//! each token.
//!
//! Numbers are bits of singles.

use vstd::arithmetic::power2::pow2;
use vstd::prelude::*;

use super::grid::{
    grid, grid_code, grid_codes, law_codes_fit_their_width, least, step_length, wide_bytes, wide_codes,
    wide_grid, Grid,
};
use super::packing::{codes_fit, lemma_widths, pack_codes, packed};
use super::precision::{precision_bits, stored_len, KVPrecision};

verus! {

/// The last step of a grid at a precision.
pub open spec fn last_level(p: KVPrecision) -> nat {
    (pow2(precision_bits(p)) - 1) as nat
}

/// The codes of numbers on their grid: a byte for each, and two at full
/// precision.
pub open spec fn codes_at(v: Seq<u32>, p: KVPrecision) -> Seq<u8> {
    if p == KVPrecision::FP16 {
        wide_bytes(wide_codes(v))
    } else {
        grid_codes(v, last_level(p) as u8)
    }
}

/// Codes as they are kept: packed, but at full precision.
pub open spec fn kept_codes(codes: Seq<u8>, p: KVPrecision, n: nat) -> Seq<u8> {
    if p == KVPrecision::FP16 {
        codes
    } else {
        packed(codes, precision_bits(p), n)
    }
}

/// Numbers on the grid of a precision.
fn grid_at(values: &Vec<u32>, p: KVPrecision) -> (r: Grid)
    ensures
        r.codes@ == codes_at(values@, p),
        r.codes@.len() == unit(p) * values@.len(),
        p != KVPrecision::FP16 ==> codes_fit(r.codes@, precision_bits(p)),
        r.scale == step_length(values@, last_level(p)),
        r.zero == least(values@, values@.len() as int),
{
    proof {
        lemma_widths();
        vstd::arithmetic::power2::lemma2_to64();
    }
    let levels: u8 = match p {
        KVPrecision::FP16 => {
            return wide_grid(values);
        },
        KVPrecision::INT8 => 255,
        KVPrecision::INT4 => 15,
        KVPrecision::INT2 => 3,
    };
    proof {
        law_codes_fit_their_width(values@, levels, precision_bits(p));
    }
    grid(values, levels)
}

fn keep(codes: Vec<u8>, p: KVPrecision, n: usize) -> (r: Vec<u8>)
    requires
        p != KVPrecision::FP16 ==> codes_fit(codes@, precision_bits(p)),
        n + 8 <= usize::MAX,
    ensures
        r@ == kept_codes(codes@, p, n as nat),
{
    match p {
        KVPrecision::FP16 => codes,
        _ => pack_codes(codes.as_slice(), p.bits() as u32, n),
    }
}

/// The bytes of a code.
pub open spec fn unit(p: KVPrecision) -> nat {
    if p == KVPrecision::FP16 {
        2
    } else {
        1
    }
}

/// The number of groups.
pub open spec fn group_count(len: nat, size: nat) -> nat {
    ((len + size - 1) / size as int) as nat
}

/// A group of numbers; the last one may be shorter.
pub open spec fn group_at(data: Seq<u32>, size: nat, g: int) -> Seq<u32> {
    let end = g * size + size;
    data.subrange(
        g * size,
        if end < data.len() {
            end
        } else {
            data.len() as int
        },
    )
}

/// The codes of the first `n` groups, each on its grid.
pub open spec fn channel_codes(data: Seq<u32>, size: nat, p: KVPrecision, n: int) -> Seq<u8>
    decreases n,
{
    if n <= 0 {
        Seq::empty()
    } else {
        channel_codes(data, size, p, n - 1) + codes_at(group_at(data, size, n - 1), p)
    }
}

/// The codes of all groups.
pub open spec fn all_codes(data: Seq<u32>, size: nat, p: KVPrecision) -> Seq<u8> {
    channel_codes(data, size, p, group_count(data.len(), size) as int)
}

/// The steps of the grids of all groups.
pub open spec fn channel_scales(data: Seq<u32>, size: nat, p: KVPrecision) -> Seq<u32> {
    Seq::new(
        group_count(data.len(), size),
        |g: int| step_length(group_at(data, size, g), last_level(p)),
    )
}

/// The starts of the grids of all groups.
pub open spec fn channel_zeros(data: Seq<u32>, size: nat) -> Seq<u32> {
    Seq::new(
        group_count(data.len(), size),
        |g: int| least(group_at(data, size, g), group_at(data, size, g).len() as int),
    )
}

proof fn lemma_group_starts(len: nat, size: nat, g: int)
    requires
        size > 0,
        0 <= g,
    ensures
        g < group_count(len, size) ==> g * size < len,
        g >= group_count(len, size) ==> g * size >= len,
{
    let n = (len + size - 1) / size as int;
    vstd::arithmetic::div_mod::lemma_fundamental_div_mod(len + size - 1, size as int);
    let r = (len + size - 1) % size as int;
    assert(n >= 0) by (nonlinear_arith)
        requires
            len + size - 1 == size * n + r,
            0 <= r < size,
            len + size - 1 >= 0,
            size > 0,
    ;
    if g < n {
        assert(g * size < len) by (nonlinear_arith)
            requires
                len + size - 1 == size * n + r,
                0 <= r,
                g <= n - 1,
                size > 0,
        ;
    } else {
        assert(g * size >= len) by (nonlinear_arith)
            requires
                len + size - 1 == size * n + r,
                r < size,
                g >= n,
                size > 0,
        ;
    }
}

proof fn lemma_codes_len(data: Seq<u32>, size: nat, p: KVPrecision, n: int)
    requires
        size > 0,
        0 <= n <= group_count(data.len(), size),
    ensures
        channel_codes(data, size, p, n).len() == unit(p) * if n * size < data.len() {
            n * size
        } else {
            data.len() as int
        },
    decreases n,
{
    if n > 0 {
        lemma_codes_len(data, size, p, n - 1);
        lemma_group_starts(data.len(), size, n - 1);
        assert(n * size == (n - 1) * size + size) by (nonlinear_arith);
        assert((n - 1) * size >= 0) by (nonlinear_arith)
            requires
                n >= 1,
                size > 0,
        ;
    } else {
        assert(0 * size == 0);
    }
}

/// Groups of channels of keys: codes as they are kept, steps and starts.
pub fn quantize_per_channel(data: &Vec<u32>, group_size: usize, precision: KVPrecision) -> (r: (
    Vec<u8>,
    Vec<u32>,
    Vec<u32>,
))
    requires
        group_size > 0,
        data@.len() + group_size + 8 <= usize::MAX,
    ensures
        r.0@ == kept_codes(
            all_codes(data@, group_size as nat, precision),
            precision,
            data@.len(),
        ),
        r.0@.len() == stored_len(data@.len(), precision),
        r.1@ == channel_scales(data@, group_size as nat, precision),
        r.2@ == channel_zeros(data@, group_size as nat),
{
    let len: usize = data.len();
    let ghost size = group_size as nat;
    let ghost count = group_count(len as nat, size);
    let mut codes: Vec<u8> = Vec::new();
    let mut scales: Vec<u32> = Vec::new();
    let mut zeros: Vec<u32> = Vec::new();
    let mut start: usize = 0;
    let ghost mut g: int = 0;
    proof {
        assert(0 * size == 0);
        lemma_group_starts(len as nat, size, 0);
    }
    while start < len
        invariant
            len == data@.len(),
            group_size > 0,
            size == group_size,
            len + group_size + 8 <= usize::MAX,
            count == group_count(len as nat, size),
            0 <= g <= count,
            start == g * size,
            start < len <==> g < count,
            codes@ == channel_codes(data@, size, precision, g),
            precision != KVPrecision::FP16 ==> codes_fit(codes@, precision_bits(precision)),
            scales@ =~= channel_scales(data@, size, precision).take(g),
            zeros@ =~= channel_zeros(data@, size).take(g),
        decreases len + group_size - start,
    {
        let end: usize = if start + group_size < len {
            start + group_size
        } else {
            len
        };
        let mut group: Vec<u32> = Vec::new();
        let mut i: usize = start;
        while i < end
            invariant
                start <= i <= end <= len == data@.len(),
                group@ =~= data@.subrange(start as int, i as int),
            decreases end - i,
        {
            group.push(data[i]);
            i += 1;
        }
        assert(group@ =~= group_at(data@, size, g));
        let mut on: Grid = grid_at(&group, precision);
        let ghost before = codes@;
        let ghost more = on.codes@;
        proof {
            lemma_group_starts(len as nat, size, g + 1);
            assert((g + 1) * size == g * size + size) by (nonlinear_arith);
        }
        codes.append(&mut on.codes);
        assert(codes@ =~= before + more);
        scales.push(on.scale);
        zeros.push(on.zero);
        start = start + group_size;
        proof {
            g = g + 1;
        }
    }
    proof {
        lemma_codes_len(data@, size, precision, g);
        lemma_group_starts(len as nat, size, g);
        lemma_widths();
    }
    (keep(codes, precision, len), scales, zeros)
}

/// A value on one grid: codes as they are kept, step and start.
pub fn quantize_per_token(data: &Vec<u32>, precision: KVPrecision) -> (r: (Vec<u8>, u32, u32))
    requires
        data@.len() + 8 <= usize::MAX,
    ensures
        r.0@ == kept_codes(codes_at(data@, precision), precision, data@.len()),
        r.0@.len() == stored_len(data@.len(), precision),
        r.1 == step_length(data@, last_level(precision)),
        r.2 == least(data@, data@.len() as int),
{
    let g: Grid = grid_at(data, precision);
    (keep(g.codes, precision, data.len()), g.scale, g.zero)
}

/// Every number of keys has a code.
pub proof fn law_every_number_has_a_code(data: Seq<u32>, size: nat, p: KVPrecision)
    requires
        size > 0,
    ensures
        all_codes(data, size, p).len() == unit(p) * data.len(),
        kept_codes(all_codes(data, size, p), p, data.len()).len() == stored_len(data.len(), p),
{
    let n = group_count(data.len(), size) as int;
    lemma_codes_len(data, size, p, n);
    lemma_group_starts(data.len(), size, n);
}

/// Keys are coded group by group: the code of a number is its place on the grid of
/// its own group, and does not depend on the other groups.
pub proof fn law_number_is_coded_on_the_grid_of_its_group(
    data: Seq<u32>,
    size: nat,
    p: KVPrecision,
    g: int,
    j: int,
)
    requires
        size > 0,
        p != KVPrecision::FP16,
        0 <= g < group_count(data.len(), size),
        0 <= j < size,
        g * size + j < data.len(),
    ensures
        group_at(data, size, g)[j] == data[g * size + j],
        all_codes(data, size, p)[g * size + j] == grid_code(
            data[g * size + j],
            step_length(group_at(data, size, g), last_level(p)),
            least(group_at(data, size, g), group_at(data, size, g).len() as int),
            last_level(p) as u8,
        ),
{
    let n = group_count(data.len(), size) as int;
    lemma_group_starts(data.len(), size, g);
    lemma_coded(data, size, p, n, g, j);
    lemma_widths();
    assert(g * size >= 0) by (nonlinear_arith)
        requires
            g >= 0,
            size > 0,
    ;
}

proof fn lemma_coded(data: Seq<u32>, size: nat, p: KVPrecision, n: int, g: int, j: int)
    requires
        size > 0,
        p != KVPrecision::FP16,
        0 <= g < n <= group_count(data.len(), size),
        0 <= j < size,
        g * size + j < data.len(),
    ensures
        channel_codes(data, size, p, n)[g * size + j] == codes_at(group_at(data, size, g), p)[j],
    decreases n,
{
    lemma_codes_len(data, size, p, n - 1);
    lemma_group_starts(data.len(), size, n - 1);
    let before = channel_codes(data, size, p, n - 1);
    if g == n - 1 {
        assert(before.len() == g * size);
        assert(channel_codes(data, size, p, n)[g * size + j] == codes_at(
            group_at(data, size, g),
            p,
        )[j]);
    } else {
        lemma_coded(data, size, p, n - 1, g, j);
        assert(g * size + j < (n - 1) * size) by (nonlinear_arith)
            requires
                g <= n - 2,
                j < size,
                size > 0,
        ;
        assert(g * size >= 0) by (nonlinear_arith)
            requires
                g >= 0,
                size > 0,
        ;
    }
}

} // verus!
