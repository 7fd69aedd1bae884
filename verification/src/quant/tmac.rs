//! Codes as planes of bits, which are looked up four at a time.

use vstd::arithmetic::power2::pow2;
use vstd::prelude::*;

use super::grid::{grid, grid_codes, grid_scale, least, Grid};
use super::packing::{
    bytes_for, code_in, codes_fit, law_packed_codes_are_read_back, lemma_widths, pack_codes,
    packed, packed_len, read_code,
};
use crate::single::{
    add_singles, integer_bits, multiply_singles, product_bits, single_of, sum_bits, NEGATIVE_ZERO,
};

verus! {

/// The bits of a group that is looked up at once.
pub const LUT_GROUP_SIZE: usize = 4;

/// The patterns of a group.
pub const LUT_ENTRIES: usize = 16;

/// One bit of each code.
pub open spec fn plane_codes(codes: Seq<u8>, bit: nat) -> Seq<u8> {
    codes.map_values(|c: u8| ((c as nat / pow2(bit)) % 2) as u8)
}

/// One bit of each code, packed.
pub open spec fn plane(codes: Seq<u8>, bit: nat) -> Seq<u8> {
    packed(plane_codes(codes, bit), 1, codes.len())
}

/// A vector as planes of bits. Scale and zero point are bits of numbers.
pub struct TMacVector {
    /// One plane for each bit of a code, the lowest first.
    pub bit_planes: Vec<Vec<u8>>,
    pub num_bits: usize,
    pub dim: usize,
    pub scale: u32,
    pub zero_point: u32,
}

fn make_plane(codes: &Vec<u8>, bit: u8) -> (r: Vec<u8>)
    requires
        bit < 8,
        codes@.len() + 8 <= usize::MAX,
    ensures
        r@ == plane(codes@, bit as nat),
{
    let len: usize = codes.len();
    let mut out: Vec<u8> = Vec::new();
    let mut i: usize = 0;
    proof {
        lemma_widths();
    }
    while i < len
        invariant
            bit < 8,
            i <= len == codes@.len(),
            out@ =~= plane_codes(codes@, bit as nat).take(i as int),
            codes_fit(out@, 1),
            pow2(1) == 2,
        decreases len - i,
    {
        proof {
            vstd::bits::lemma_u8_shr_is_div(codes@[i as int], bit);
            vstd::arithmetic::power2::lemma_pow2_pos(bit as nat);
        }
        let shifted: u8 = codes[i] >> bit;
        out.push(shifted % 2);
        i += 1;
    }
    assert(plane_codes(codes@, bit as nat).take(len as int) =~= plane_codes(codes@, bit as nat));
    pack_codes(out.as_slice(), 1, len)
}

/// The steps of a grid for codes of so many bits.
pub open spec fn plane_levels(num_bits: usize) -> u8 {
    (pow2(num_bits as nat) - 1) as u8
}

/// A vector as planes of bits: the codes of its components on their grid.
pub fn tmac_quantize(vector: &Vec<u32>, num_bits: usize) -> (r: TMacVector)
    requires
        num_bits <= 8,
        vector@.len() + 8 <= usize::MAX,
    ensures
        r.bit_planes@.len() == num_bits,
        forall|b: int|
            0 <= b < num_bits ==> (#[trigger] r.bit_planes@[b])@ == plane(
                grid_codes(vector@, plane_levels(num_bits)),
                b as nat,
            ),
        r.num_bits == num_bits,
        r.dim == vector@.len(),
        r.scale == grid_scale(vector@, plane_levels(num_bits)),
        r.zero_point == least(vector@, vector@.len() as int),
{
    let mut levels: u32 = 0;
    let mut b: usize = 0;
    proof {
        lemma_widths();
    }
    while b < num_bits
        invariant
            b <= num_bits <= 8,
            levels == pow2(b as nat) - 1,
            levels <= 255,
        decreases num_bits - b,
    {
        proof {
            crate::float::lemma_pow2_step(b as nat);
            crate::float::lemma_pow2_mono((b + 1) as nat, 8);
            lemma_widths();
        }
        levels = 2 * levels + 1;
        b += 1;
    }
    let g: Grid = grid(vector, levels as u8);
    tmac_planes(&g.codes, num_bits, g.scale, g.zero)
}

/// The planes of codes of up to eight bits.
fn tmac_planes(codes: &Vec<u8>, num_bits: usize, scale: u32, zero_point: u32) -> (r: TMacVector)
    requires
        num_bits <= 8,
        codes@.len() + 8 <= usize::MAX,
    ensures
        r.bit_planes@.len() == num_bits,
        forall|b: int|
            0 <= b < num_bits ==> (#[trigger] r.bit_planes@[b])@ == plane(codes@, b as nat),
        r.num_bits == num_bits,
        r.dim == codes@.len(),
        r.scale == scale,
        r.zero_point == zero_point,
{
    let mut planes: Vec<Vec<u8>> = Vec::new();
    let mut b: usize = 0;
    while b < num_bits
        invariant
            b <= num_bits <= 8,
            codes@.len() + 8 <= usize::MAX,
            planes@.len() == b,
            forall|k: int| 0 <= k < b ==> (#[trigger] planes@[k])@ == plane(codes@, k as nat),
        decreases num_bits - b,
    {
        planes.push(make_plane(codes, b as u8));
        b += 1;
    }
    TMacVector { bit_planes: planes, num_bits, dim: codes.len(), scale, zero_point }
}

/// The number that the bits of a code in planes make.
pub open spec fn from_planes(codes: Seq<u8>, n: nat, i: int) -> nat
    decreases n,
{
    if n == 0 {
        0
    } else {
        from_planes(codes, (n - 1) as nat, i) + pow2((n - 1) as nat) * code_in(
            plane(codes, (n - 1) as nat),
            1,
            i,
        )
    }
}

/// The planes of codes hold every bit of them: weighted by their powers of two
/// they add up to the code.
pub proof fn law_planes_add_up(codes: Seq<u8>, n: nat, i: int)
    requires
        codes_fit(codes, n),
        0 <= i < codes.len(),
    ensures
        from_planes(codes, n, i) == codes[i],
{
    lemma_low_bits(codes, n, i);
    vstd::arithmetic::div_mod::lemma_small_mod(codes[i] as nat, pow2(n));
}

proof fn lemma_low_bits(codes: Seq<u8>, n: nat, i: int)
    requires
        0 <= i < codes.len(),
    ensures
        from_planes(codes, n, i) == codes[i] as nat % pow2(n),
    decreases n,
{
    let c = codes[i] as nat;
    if n == 0 {
        lemma_widths();
        assert(c % 1 == 0);
    } else {
        let b = (n - 1) as nat;
        lemma_low_bits(codes, b, i);
        lemma_widths();
        assert(codes_fit(plane_codes(codes, b), 1));
        law_packed_codes_are_read_back(plane_codes(codes, b), 1, codes.len(), i);
        vstd::arithmetic::power2::lemma_pow2_pos(b);
        vstd::arithmetic::power2::lemma_pow2_unfold(n);
        let p = pow2(b) as int;
        vstd::arithmetic::div_mod::lemma_mod_breakdown(c as int, p, 2);
        assert(p * 2 == pow2(n));
    }
}

/// The bit of an element in a plane; beyond the plane there is none.
pub open spec fn plane_bit(plane: Seq<u8>, i: int) -> nat {
    if i / 8 < plane.len() {
        code_in(plane, 1, i)
    } else {
        0
    }
}

/// The number that the bits of `n` elements from `start` on make, as far as
/// they are below `dim`.
pub open spec fn pattern_from(plane: Seq<u8>, dim: int, start: int, n: nat) -> nat
    decreases n,
{
    if n == 0 || start >= dim {
        0
    } else {
        plane_bit(plane, start) + 2 * pattern_from(plane, dim, start + 1, (n - 1) as nat)
    }
}

/// The pattern of a group of four elements: the place where its sum is looked
/// up.
pub open spec fn group_pattern(plane: Seq<u8>, dim: int, group: int) -> nat {
    pattern_from(plane, dim, 4 * group, 4)
}

proof fn lemma_pattern_bound(plane: Seq<u8>, dim: int, start: int, n: nat)
    ensures
        pattern_from(plane, dim, start, n) < pow2(n),
    decreases n,
{
    lemma_widths();
    vstd::arithmetic::power2::lemma_pow2_pos(n);
    if n > 0 && start < dim {
        lemma_pattern_bound(plane, dim, start + 1, (n - 1) as nat);
        vstd::arithmetic::power2::lemma_pow2_unfold(n);
    }
}

/// The pattern of a group of four elements.
pub fn read_pattern(plane: &Vec<u8>, dim: usize, group: usize) -> (r: usize)
    requires
        4 * group + 4 <= usize::MAX,
    ensures
        r == group_pattern(plane@, dim as int, group as int),
        r < LUT_ENTRIES,
{
    proof {
        lemma_pattern_bound(plane@, dim as int, 4 * group, 4);
        lemma_widths();
    }
    let start: usize = 4 * group;
    let mut value: usize = 0;
    let mut j: usize = 4;
    while j > 0
        invariant
            start == 4 * group,
            start + 4 <= usize::MAX,
            j <= 4,
            value == pattern_from(plane@, dim as int, start + j, (4 - j) as nat),
            value < 16,
        decreases j,
    {
        j -= 1;
        proof {
            lemma_widths();
            lemma_pattern_bound(plane@, dim as int, start + j, (4 - j) as nat);
            crate::float::lemma_pow2_mono((4 - j) as nat, 4);
            assert(start + j + 1 == start + (j + 1));
        }
        let at: usize = start + j;
        if at >= dim {
            value = 0;
        } else {
            let bit: usize = if at / 8 < plane.len() {
                read_code(plane.as_slice(), 1, at) as usize
            } else {
                0
            };
            value = bit + 2 * value;
        }
    }
    value
}

/// What a table holds for a pattern: the numbers whose bits are set, added up in
/// their order. Only the first `n` numbers from `start` on can be.
pub open spec fn pattern_sum(query: Seq<u32>, start: int, n: nat, pattern: nat) -> u32
    decreases n,
{
    if n == 0 {
        0
    } else {
        let before = pattern_sum(query, start, (n - 1) as nat, pattern);
        if (pattern / pow2((n - 1) as nat)) % 2 == 1 {
            sum_bits(before, query[start + n - 1])
        } else {
            before
        }
    }
}

/// The numbers of a group: four, or what is left of them before `dim`.
pub open spec fn group_len(dim: int, group: int) -> nat {
    if 4 * group + 4 <= dim {
        4
    } else if 4 * group < dim {
        (dim - 4 * group) as nat
    } else {
        0
    }
}

/// The table of a group of up to four numbers.
pub fn build_group_lut(query: &Vec<u32>, start: usize, n: usize) -> (r: Vec<u32>)
    requires
        n <= LUT_GROUP_SIZE,
        start + n <= query@.len(),
    ensures
        r@ == Seq::new(
            LUT_ENTRIES as nat,
            |p: int| pattern_sum(query@, start as int, n as nat, p as nat),
        ),
{
    let len: usize = query.len();
    let mut out: Vec<u32> = Vec::new();
    let mut p: usize = 0;
    while p < LUT_ENTRIES
        invariant
            p <= LUT_ENTRIES,
            n <= LUT_GROUP_SIZE,
            start + n <= len == query@.len(),
            out@ =~= Seq::new(
                p as nat,
                |k: int| pattern_sum(query@, start as int, n as nat, k as nat),
            ),
        decreases LUT_ENTRIES - p,
    {
        let mut total: u32 = 0;
        let mut rest: usize = p;
        let mut bit: usize = 0;
        proof {
            lemma_widths();
            assert(p as nat / 1 == p);
        }
        while bit < n
            invariant
                bit <= n <= LUT_GROUP_SIZE,
                start + n <= len == query@.len(),
                rest == p as nat / pow2(bit as nat),
                total == pattern_sum(query@, start as int, bit as nat, p as nat),
            decreases n - bit,
        {
            if rest % 2 == 1 {
                total = add_singles(total, query[start + bit]);
            }
            proof {
                crate::float::lemma_pow2_step(bit as nat);
                vstd::arithmetic::div_mod::lemma_div_denominator(
                    p as int,
                    pow2(bit as nat) as int,
                    2,
                );
            }
            rest = rest / 2;
            bit += 1;
        }
        out.push(total);
        p += 1;
    }
    out
}

/// What the tables of the first `n` groups hold for the patterns of a plane,
/// added up in their order. Patterns stop at `dim`.
pub open spec fn plane_sum(query: Seq<u32>, plane: Seq<u8>, dim: int, n: int) -> u32
    decreases n,
{
    if n <= 0 {
        0
    } else {
        sum_bits(
            plane_sum(query, plane, dim, n - 1),
            pattern_sum(
                query,
                4 * (n - 1),
                group_len(query.len() as int, n - 1),
                group_pattern(plane, dim, n - 1),
            ),
        )
    }
}

/// The number of groups.
pub open spec fn group_count(len: nat) -> nat {
    (len + 3) / 4
}

/// What the first `n` planes give, each times its power of two, added up in
/// their order.
pub open spec fn planes_sum(query: Seq<u32>, planes: Seq<Vec<u8>>, dim: int, n: int) -> u32
    decreases n,
{
    if n <= 0 {
        0
    } else {
        sum_bits(
            planes_sum(query, planes, dim, n - 1),
            product_bits(
                plane_sum(query, planes[n - 1]@, dim, group_count(query.len()) as int),
                integer_bits(pow2((n - 1) as nat)),
            ),
        )
    }
}

/// The first `n` numbers, added up in their order. No number adds up to the
/// negative zero.
pub open spec fn total(v: Seq<u32>, n: int) -> u32
    decreases n,
{
    if n <= 0 {
        NEGATIVE_ZERO
    } else {
        sum_bits(total(v, n - 1), v[n - 1])
    }
}

/// The product of a query and a vector in planes, whose patterns stop at `dim`.
pub open spec fn table_product(query: Seq<u32>, t: TMacVector, dim: int) -> u32 {
    sum_bits(
        product_bits(planes_sum(query, t.bit_planes@, dim, t.bit_planes@.len() as int), t.scale),
        product_bits(t.zero_point, total(query, query.len() as int)),
    )
}

/// The numbers of a query that a vector has components for.
pub open spec fn query_part(query: Seq<u32>, dim: usize) -> Seq<u32> {
    if query.len() <= dim {
        query
    } else {
        query.take(dim as int)
    }
}

fn add_up(v: &Vec<u32>) -> (r: u32)
    ensures
        r == total(v@, v@.len() as int),
{
    let mut t: u32 = NEGATIVE_ZERO;
    let mut i: usize = 0;
    while i < v.len()
        invariant
            i <= v@.len(),
            t == total(v@, i as int),
        decreases v@.len() - i,
    {
        t = add_singles(t, v[i]);
        i += 1;
    }
    t
}

/// Whether tables are those of a query.
spec fn are_tables(tables: Seq<Vec<u32>>, query: Seq<u32>, n: int) -> bool {
    forall|g: int|
        0 <= g < n ==> (#[trigger] tables[g])@ == Seq::new(
            LUT_ENTRIES as nat,
            |p: int| pattern_sum(query, 4 * g, group_len(query.len() as int, g), p as nat),
        )
}

fn build_tables(query: &Vec<u32>) -> (r: Vec<Vec<u32>>)
    requires
        query@.len() + 8 <= usize::MAX,
    ensures
        r@.len() == group_count(query@.len()),
        are_tables(r@, query@, r@.len() as int),
{
    let len: usize = query.len();
    let groups: usize = (len + 3) / 4;
    let mut out: Vec<Vec<u32>> = Vec::new();
    let mut g: usize = 0;
    while g < groups
        invariant
            g <= groups == (len + 3) / 4,
            len == query@.len(),
            len + 8 <= usize::MAX,
            out@.len() == g,
            are_tables(out@, query@, g as int),
        decreases groups - g,
    {
        let start: usize = 4 * g;
        let n: usize = if start + 4 <= len {
            4
        } else {
            len - start
        };
        out.push(build_group_lut(query, start, n));
        g += 1;
    }
    out
}

fn look_up(tables: &Vec<Vec<u32>>, query_sum: u32, t: &TMacVector, dim: usize, Ghost(query): Ghost<
    Seq<u32>,
>) -> (r: u32)
    requires
        tables@.len() == group_count(query.len()),
        are_tables(tables@, query, tables@.len() as int),
        query.len() + 8 <= usize::MAX,
        query_sum == total(query, query.len() as int),
        t.bit_planes@.len() <= 32,
    ensures
        r == table_product(query, *t, dim as int),
{
    let mut sum: u32 = 0;
    let mut weight: u64 = 1;
    let mut b: usize = 0;
    proof {
        lemma_widths();
    }
    while b < t.bit_planes.len()
        invariant
            b <= t.bit_planes@.len() <= 32,
            tables@.len() == group_count(query.len()),
            are_tables(tables@, query, tables@.len() as int),
            query.len() + 8 <= usize::MAX,
            weight == pow2(b as nat),
            weight <= 0x1_0000_0000,
            sum == planes_sum(query, t.bit_planes@, dim as int, b as int),
        decreases t.bit_planes@.len() - b,
    {
        let plane: &Vec<u8> = &t.bit_planes[b];
        let mut part: u32 = 0;
        let mut g: usize = 0;
        while g < tables.len()
            invariant
                g <= tables@.len() == group_count(query.len()),
                are_tables(tables@, query, tables@.len() as int),
                query.len() + 8 <= usize::MAX,
                part == plane_sum(query, plane@, dim as int, g as int),
            decreases tables@.len() - g,
        {
            let pattern: usize = read_pattern(plane, dim, g);
            assert(tables@[g as int]@[pattern as int] == pattern_sum(
                query,
                4 * g as int,
                group_len(query.len() as int, g as int),
                pattern as nat,
            ));
            part = add_singles(part, tables[g][pattern]);
            g += 1;
        }
        sum = add_singles(sum, multiply_singles(part, single_of(weight)));
        proof {
            crate::float::lemma_pow2_step(b as nat);
            crate::float::lemma_pow2_mono((b + 1) as nat, 32);
            vstd::arithmetic::power2::lemma2_to64();
        }
        weight = 2 * weight;
        b += 1;
    }
    add_singles(multiply_singles(sum, t.scale), multiply_singles(t.zero_point, query_sum))
}

/// The product of a query and a vector in planes, by tables of the query.
pub fn tmac_dot_product(query: &Vec<u32>, tmac_vec: &TMacVector) -> (r: u32)
    requires
        query@.len() + 8 <= usize::MAX,
        tmac_vec.bit_planes@.len() <= 32,
    ensures
        ({
            let part = query_part(query@, tmac_vec.dim);
            r == table_product(part, *tmac_vec, part.len() as int)
        }),
{
    let len: usize = if query.len() < tmac_vec.dim {
        query.len()
    } else {
        tmac_vec.dim
    };
    let mut part: Vec<u32> = Vec::new();
    let mut i: usize = 0;
    while i < len
        invariant
            i <= len <= query@.len(),
            part@ =~= query@.take(i as int),
        decreases len - i,
    {
        part.push(query[i]);
        i += 1;
    }
    assert(part@ =~= query_part(query@, tmac_vec.dim));
    let tables: Vec<Vec<u32>> = build_tables(&part);
    let query_sum: u32 = add_up(&part);
    look_up(&tables, query_sum, tmac_vec, len, Ghost(part@))
}

/// The products of a query and of vectors in planes. The tables of the query are
/// made once.
pub fn tmac_batch_dot_product(query: &Vec<u32>, vectors: &Vec<TMacVector>) -> (r: Vec<u32>)
    requires
        query@.len() + 8 <= usize::MAX,
        forall|i: int|
            0 <= i < vectors@.len() ==> (#[trigger] vectors@[i]).bit_planes@.len() <= 32,
    ensures
        r@ == vectors@.map_values(|t: TMacVector| table_product(query@, t, t.dim as int)),
{
    let tables: Vec<Vec<u32>> = build_tables(query);
    let query_sum: u32 = add_up(query);
    let ghost goal = vectors@.map_values(|t: TMacVector| table_product(query@, t, t.dim as int));
    let mut out: Vec<u32> = Vec::new();
    let mut i: usize = 0;
    while i < vectors.len()
        invariant
            i <= vectors@.len(),
            query@.len() + 8 <= usize::MAX,
            forall|k: int|
                0 <= k < vectors@.len() ==> (#[trigger] vectors@[k]).bit_planes@.len() <= 32,
            tables@.len() == group_count(query@.len()),
            are_tables(tables@, query@, tables@.len() as int),
            query_sum == total(query@, query@.len() as int),
            goal == vectors@.map_values(
                |t: TMacVector| table_product(query@, t, t.dim as int),
            ),
            out@ =~= goal.take(i as int),
        decreases vectors@.len() - i,
    {
        assert(vectors@[i as int].bit_planes@.len() <= 32);
        let t: &TMacVector = &vectors[i];
        let x: u32 = look_up(&tables, query_sum, t, t.dim, Ghost(query@));
        out.push(x);
        assert(goal[i as int] == x);
        i += 1;
    }
    assert(goal.take(vectors@.len() as int) =~= goal);
    out
}

/// A batch gives each vector what it gets alone, where query and vector have as
/// many components.
pub proof fn law_batch_matches_single(query: Seq<u32>, t: TMacVector)
    requires
        t.dim == query.len(),
    ensures
        table_product(query, t, t.dim as int) == ({
            let part = query_part(query, t.dim);
            table_product(part, t, part.len() as int)
        }),
{
}

/// The bytes of the planes of a vector.
pub fn tmac_memory_bytes(dim: usize, num_bits: usize) -> (r: usize)
    requires
        packed_len(dim as nat, 1) * num_bits <= usize::MAX,
    ensures
        r == packed_len(dim as nat, 1) * num_bits,
{
    bytes_for(dim, 1) * num_bits
}

} // verus!
