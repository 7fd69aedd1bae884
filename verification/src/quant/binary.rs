//! One bit for each component of a vector, and the distance of two such
//! signatures.

use vstd::arithmetic::power2::pow2;
use vstd::prelude::*;

use super::packing::{
    code_in, codes_fit, lemma_widths, law_packed_codes_are_read_back, pack_codes, packed,
};
use crate::recall::channels::is_positive_bits;

verus! {

/// One for a component that is greater than zero, zero for every other.
pub open spec fn sign_codes(components: Seq<u32>) -> Seq<u8> {
    components.map_values(
        |bits: u32|
            if is_positive_bits(bits) {
                1u8
            } else {
                0u8
            },
    )
}

/// The signature of a vector, whose components are given as the bits of
/// single-precision numbers: one bit for each component, set where it is
/// greater than zero.
pub fn quantize_to_binary(components: &[u32]) -> (r: Vec<u8>)
    requires
        components@.len() + 8 <= usize::MAX,
    ensures
        r@ == packed(sign_codes(components@), 1, components@.len()),
{
    let mut codes: Vec<u8> = Vec::new();
    let mut i: usize = 0;
    proof {
        lemma_widths();
    }
    while i < components.len()
        invariant
            i <= components@.len(),
            codes@ =~= sign_codes(components@).take(i as int),
            codes_fit(codes@, 1),
            vstd::arithmetic::power2::pow2(1) == 2,
        decreases components@.len() - i,
    {
        let bits: u32 = components[i];
        if 0 < bits && bits <= 0x7f80_0000 {
            codes.push(1);
        } else {
            codes.push(0);
        }
        i += 1;
    }
    assert(sign_codes(components@).take(components@.len() as int) =~= sign_codes(components@));
    pack_codes(&codes, 1, components.len())
}

/// Each bit of a signature tells the sign of its component.
pub proof fn law_signature_keeps_signs(components: Seq<u32>, i: int)
    requires
        0 <= i < components.len(),
    ensures
        code_in(packed(sign_codes(components), 1, components.len()), 1, i) == 1
            <==> is_positive_bits(components[i]),
{
    lemma_widths();
    law_packed_codes_are_read_back(sign_codes(components), 1, components.len(), i);
}

/// The number of bits that are set.
pub open spec fn ones(x: u8) -> nat
    decreases x,
{
    if x == 0 {
        0
    } else {
        ones(x / 2) + (x % 2) as nat
    }
}

fn count_ones(x: u8) -> (r: u32)
    ensures
        r == ones(x),
        r <= 8,
{
    let mut rest: u8 = x;
    let mut count: u32 = 0;
    proof {
        reveal_with_fuel(ones, 9);
    }
    while rest > 0
        invariant
            count + ones(rest) == ones(x),
            ones(x) <= 8,
        decreases rest,
    {
        count += (rest % 2) as u32;
        rest = rest / 2;
    }
    count
}

/// The number of bits in which two bytes differ.
pub open spec fn differing(x: u8, y: u8) -> nat
    decreases x + y,
{
    if x == 0 && y == 0 {
        0
    } else {
        differing(x / 2, y / 2) + if x % 2 != y % 2 {
            1nat
        } else {
            0
        }
    }
}

/// The number of bits in which the bytes of two signatures differ, as far as
/// the shorter one reaches.
pub open spec fn distance(a: Seq<u8>, b: Seq<u8>) -> nat
    decreases a.len(),
{
    if a.len() == 0 || b.len() == 0 {
        0
    } else {
        differing(a[0], b[0]) + distance(a.drop_first(), b.drop_first())
    }
}

proof fn lemma_differing(x: u8, y: u8)
    ensures
        differing(x, y) == ones(x ^ y),
    decreases x + y,
{
    let z = x ^ y;
    assert(z / 2 == (x / 2) ^ (y / 2) && (z % 2 == 1 <==> x % 2 != y % 2)) by (bit_vector)
        requires
            z == x ^ y,
    ;
    assert(0u8 ^ 0u8 == 0u8) by (bit_vector);
    if x != 0 || y != 0 {
        lemma_differing(x / 2, y / 2);
        if z == 0 {
            assert(z / 2 == 0);
        }
    }
}

proof fn lemma_differing_bound(x: u8, y: u8, n: nat)
    requires
        x < vstd::arithmetic::power2::pow2(n),
        y < vstd::arithmetic::power2::pow2(n),
    ensures
        differing(x, y) <= n,
    decreases n,
{
    if n == 0 {
        lemma_widths();
    } else {
        vstd::arithmetic::power2::lemma_pow2_unfold(n);
        lemma_differing_bound(x / 2, y / 2, (n - 1) as nat);
    }
}

proof fn lemma_distance_step(a: Seq<u8>, b: Seq<u8>, n: int)
    requires
        0 <= n < a.len(),
        n < b.len(),
    ensures
        distance(a.take(n + 1), b.take(n + 1)) == distance(a.take(n), b.take(n)) + differing(
            a[n],
            b[n],
        ),
    decreases n,
{
    let x = a.take(n + 1);
    let y = b.take(n + 1);
    if n == 0 {
        assert(x.drop_first().len() == 0);
        assert(distance(x.drop_first(), y.drop_first()) == 0);
        assert(distance(a.take(0), b.take(0)) == 0);
    } else {
        let c = a.drop_first();
        let d = b.drop_first();
        lemma_distance_step(c, d, n - 1);
        assert(x.drop_first() =~= c.take(n));
        assert(y.drop_first() =~= d.take(n));
        assert(a.take(n).drop_first() =~= c.take(n - 1));
        assert(b.take(n).drop_first() =~= d.take(n - 1));
    }
}

proof fn lemma_distance_common(a: Seq<u8>, b: Seq<u8>, n: int)
    requires
        0 <= n <= a.len(),
        n <= b.len(),
        n == a.len() || n == b.len(),
    ensures
        distance(a.take(n), b.take(n)) == distance(a, b),
    decreases n,
{
    if n > 0 {
        lemma_distance_common(a.drop_first(), b.drop_first(), n - 1);
        assert(a.take(n).drop_first() =~= a.drop_first().take(n - 1));
        assert(b.take(n).drop_first() =~= b.drop_first().take(n - 1));
    }
}

/// The number of bits in which two signatures differ.
pub fn hamming_distance(a: &[u8], b: &[u8]) -> (r: u32)
    requires
        8 * a@.len() <= u32::MAX || 8 * b@.len() <= u32::MAX,
    ensures
        r == distance(a@, b@),
{
    let n: usize = if a.len() < b.len() {
        a.len()
    } else {
        b.len()
    };
    let mut total: u32 = 0;
    let mut i: usize = 0;
    assert(a@.take(0) =~= Seq::empty());
    while i < n
        invariant
            i <= n,
            n <= a@.len(),
            n <= b@.len(),
            8 * n <= u32::MAX,
            total == distance(a@.take(i as int), b@.take(i as int)),
            total <= 8 * i,
        decreases n - i,
    {
        proof {
            lemma_distance_step(a@, b@, i as int);
            lemma_differing(a@[i as int], b@[i as int]);
            lemma_widths();
            lemma_differing_bound(a@[i as int], b@[i as int], 8);
        }
        total += count_ones(a[i] ^ b[i]);
        i += 1;
    }
    proof {
        lemma_distance_common(a@, b@, n as int);
    }
    total
}

/// Nothing differs from itself, the order of two signatures does not matter,
/// and no more bits differ than there are.
pub proof fn law_distance(a: Seq<u8>, b: Seq<u8>)
    ensures
        distance(a, a) == 0,
        distance(a, b) == distance(b, a),
        distance(a, b) <= 8 * a.len(),
        a.len() == b.len() && distance(a, b) == 0 ==> a == b,
    decreases a.len(),
{
    if a.len() > 0 {
        lemma_same(a[0]);
        law_distance(a.drop_first(), a.drop_first());
    }
    if a.len() > 0 && b.len() > 0 {
        law_distance(a.drop_first(), b.drop_first());
        lemma_symmetric(a[0], b[0]);
        lemma_widths();
        lemma_differing_bound(a[0], b[0], 8);
        if a.len() == b.len() && distance(a, b) == 0 {
            lemma_no_difference(a[0], b[0]);
            assert(a =~= seq![a[0]] + a.drop_first());
            assert(b =~= seq![b[0]] + b.drop_first());
        }
    } else if a.len() == b.len() {
        assert(a =~= b);
    }
}

/// How many of the first `n` places something holds of.
pub open spec fn tally(n: nat, holds: spec_fn(int) -> bool) -> nat
    decreases n,
{
    if n == 0 {
        0
    } else {
        tally((n - 1) as nat, holds) + if holds(n - 1) {
            1nat
        } else {
            0
        }
    }
}

/// Whether bit `i` of two signatures differs.
pub open spec fn differ_at(a: Seq<u8>, b: Seq<u8>) -> spec_fn(int) -> bool {
    |i: int| code_in(a, 1, i) != code_in(b, 1, i)
}

/// The bits of a byte from one on differ as often as the byte without those before
/// it.
proof fn lemma_bits_from(a: Seq<u8>, b: Seq<u8>, n: int, j: nat)
    requires
        0 <= n < a.len(),
        n < b.len(),
        j <= 8,
    ensures
        tally((8 * n + 8) as nat, differ_at(a, b)) == tally(
            (8 * n + j) as nat,
            differ_at(a, b),
        ) + differing((a[n] as nat / pow2(j)) as u8, (b[n] as nat / pow2(j)) as u8),
    decreases 8 - j,
{
    let f = differ_at(a, b);
    let x = a[n] as nat;
    let y = b[n] as nat;
    lemma_widths();
    if j == 8 {
        assert(x / 256 == 0 && y / 256 == 0);
    } else {
        lemma_bits_from(a, b, n, j + 1);
        vstd::arithmetic::power2::lemma_pow2_unfold(j + 1);
        vstd::arithmetic::power2::lemma_pow2_pos(j);
        vstd::arithmetic::div_mod::lemma_div_denominator(x as int, pow2(j) as int, 2);
        vstd::arithmetic::div_mod::lemma_div_denominator(y as int, pow2(j) as int, 2);
        assert(pow2(j + 1) == pow2(j) * 2);
        assert(x / pow2(j + 1) == x / pow2(j) / 2);
        assert(y / pow2(j + 1) == y / pow2(j) / 2);
        lemma_part(x, pow2(j));
        lemma_part(y, pow2(j));
        assert((8 * n + j) / 8 == n);
        assert((8 * n + j) % 8 == j);
        assert(f(8 * n + j) == ((x / pow2(j)) % 2 != (y / pow2(j)) % 2));
    }
}

proof fn lemma_part(x: nat, d: nat)
    requires
        d > 0,
    ensures
        x / d <= x,
{
    assert(x / d <= x) by (nonlinear_arith)
        requires
            d > 0,
    ;
}

proof fn lemma_byte_bits(a: Seq<u8>, b: Seq<u8>, n: int)
    requires
        0 <= n < a.len(),
        n < b.len(),
    ensures
        tally((8 * n + 8) as nat, differ_at(a, b)) == tally((8 * n) as nat, differ_at(a, b))
            + differing(a[n], b[n]),
{
    lemma_widths();
    lemma_bits_from(a, b, n, 0);
    assert(a[n] as nat / 1 == a[n] && b[n] as nat / 1 == b[n]);
}

proof fn lemma_distance_bits(a: Seq<u8>, b: Seq<u8>, n: int)
    requires
        0 <= n <= a.len(),
        n <= b.len(),
    ensures
        distance(a.take(n), b.take(n)) == tally((8 * n) as nat, differ_at(a, b)),
    decreases n,
{
    if n > 0 {
        lemma_distance_bits(a, b, n - 1);
        lemma_distance_step(a, b, n - 1);
        lemma_byte_bits(a, b, n - 1);
    }
}

/// The distance of two signatures of one length is the number of bits in which
/// they differ.
pub proof fn law_distance_counts_bits(a: Seq<u8>, b: Seq<u8>)
    requires
        a.len() == b.len(),
    ensures
        distance(a, b) == tally(8 * a.len(), |i: int| code_in(a, 1, i) != code_in(b, 1, i)),
{
    let n = a.len() as int;
    lemma_distance_bits(a, b, n);
    assert(a.take(n) =~= a);
    assert(b.take(n) =~= b);
    lemma_tally_same(8 * a.len(), differ_at(a, b), |i: int| code_in(a, 1, i) != code_in(b, 1, i));
}

proof fn lemma_tally_same(n: nat, f: spec_fn(int) -> bool, g: spec_fn(int) -> bool)
    requires
        forall|i: int| 0 <= i < n ==> #[trigger] f(i) == g(i),
    ensures
        tally(n, f) == tally(n, g),
    decreases n,
{
    if n > 0 {
        lemma_tally_same((n - 1) as nat, f, g);
        assert(f(n - 1) == g(n - 1));
    }
}

proof fn lemma_tally_none(n: nat, m: nat, f: spec_fn(int) -> bool)
    requires
        n <= m,
        forall|i: int| n <= i < m ==> !#[trigger] f(i),
    ensures
        tally(m, f) == tally(n, f),
    decreases m,
{
    if n < m {
        lemma_tally_none(n, (m - 1) as nat, f);
        assert(!f(m - 1));
    }
}

/// The distance of the signatures of two vectors is the number of components that
/// are greater than zero in one of them alone.
pub proof fn law_distance_counts_signs(u: Seq<u32>, v: Seq<u32>)
    requires
        u.len() == v.len(),
    ensures
        distance(
            packed(sign_codes(u), 1, u.len()),
            packed(sign_codes(v), 1, v.len()),
        ) == tally(
            u.len(),
            |i: int| (0 < u[i] <= 0x7f80_0000) != (0 < v[i] <= 0x7f80_0000),
        ),
{
    let n = u.len();
    let a = packed(sign_codes(u), 1, n);
    let b = packed(sign_codes(v), 1, n);
    let f = |i: int| code_in(a, 1, i) != code_in(b, 1, i);
    let g = |i: int| (0 < u[i] <= 0x7f80_0000) != (0 < v[i] <= 0x7f80_0000);
    law_distance_counts_bits(a, b);
    lemma_widths();
    super::packing::lemma_packed_len(n, 1);
    let m = 8 * a.len();
    assert(codes_fit(sign_codes(u), 1));
    assert(codes_fit(sign_codes(v), 1));
    assert forall|i: int| 0 <= i < n implies #[trigger] f(i) == g(i) by {
        law_packed_codes_are_read_back(sign_codes(u), 1, n, i);
        law_packed_codes_are_read_back(sign_codes(v), 1, n, i);
    }
    lemma_tally_same(n, f, g);
    assert forall|i: int| n <= i < m implies !#[trigger] f(i) by {
        assert(packed(sign_codes(u), 1, m) =~= a);
        assert(packed(sign_codes(v), 1, m) =~= b);
        law_packed_codes_are_read_back(sign_codes(u), 1, m, i);
        law_packed_codes_are_read_back(sign_codes(v), 1, m, i);
    }
    lemma_tally_none(n, m, f);
}

proof fn lemma_same(x: u8)
    ensures
        differing(x, x) == 0,
    decreases x,
{
    if x != 0 {
        lemma_same(x / 2);
    }
}

proof fn lemma_symmetric(x: u8, y: u8)
    ensures
        differing(x, y) == differing(y, x),
    decreases x + y,
{
    if x != 0 || y != 0 {
        lemma_symmetric(x / 2, y / 2);
    }
}

proof fn lemma_no_difference(x: u8, y: u8)
    requires
        differing(x, y) == 0,
    ensures
        x == y,
    decreases x + y,
{
    if x != 0 || y != 0 {
        lemma_no_difference(x / 2, y / 2);
    }
}

} // verus!
