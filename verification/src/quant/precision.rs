//! The precisions of a cache, and codes that lose their low bits.

use vstd::arithmetic::power2::pow2;
use vstd::prelude::*;

use super::grid::wide_bytes;
use super::packing::{
    code_in, codes_fit, codes_per_byte, lemma_widths, law_packed_codes_are_read_back,
    pack_codes, packed, packed_len, per_byte, read_code,
};
use crate::single::{divide_singles, integer_bits, quotient_bits, single_of};

verus! {

/// The precision of a cached tensor.
#[derive(Clone, Copy, Debug, PartialEq, Eq, PartialOrd, Ord, Hash, Structural)]
pub enum KVPrecision {
    /// 16-bit floating point.
    FP16,
    /// 8-bit integers.
    INT8,
    /// 4-bit integers.
    INT4,
    /// 2-bit integers.
    INT2,
}

/// The bits of an element.
pub open spec fn precision_bits(p: KVPrecision) -> nat {
    match p {
        KVPrecision::FP16 => 16,
        KVPrecision::INT8 => 8,
        KVPrecision::INT4 => 4,
        KVPrecision::INT2 => 2,
    }
}

/// The next lower precision.
pub open spec fn lower_precision(p: KVPrecision) -> Option<KVPrecision> {
    match p {
        KVPrecision::FP16 => Some(KVPrecision::INT8),
        KVPrecision::INT8 => Some(KVPrecision::INT4),
        KVPrecision::INT4 => Some(KVPrecision::INT2),
        KVPrecision::INT2 => None,
    }
}

impl KVPrecision {
    /// The bits of an element.
    pub fn bits(self) -> (r: usize)
        ensures
            r == precision_bits(self),
    {
        match self {
            KVPrecision::FP16 => 16,
            KVPrecision::INT8 => 8,
            KVPrecision::INT4 => 4,
            KVPrecision::INT2 => 2,
        }
    }

    /// The next lower precision.
    pub fn degrade(self) -> (r: Option<KVPrecision>)
        ensures
            r == lower_precision(self),
    {
        match self {
            KVPrecision::FP16 => Some(KVPrecision::INT8),
            KVPrecision::INT8 => Some(KVPrecision::INT4),
            KVPrecision::INT4 => Some(KVPrecision::INT2),
            KVPrecision::INT2 => None,
        }
    }

    /// How many times smaller an element is than one of 16 bits, as the bits of
    /// a number.
    pub fn compression_vs_fp16(self) -> (r: u32)
        ensures
            r == quotient_bits(0x4180_0000, integer_bits(precision_bits(self))),
    {
        divide_singles(0x4180_0000, single_of(self.bits() as u64))
    }
}

/// The next lower precision takes half the bits.
pub proof fn law_degrading_halves_the_bits(p: KVPrecision)
    ensures
        match lower_precision(p) {
            Some(q) => 2 * precision_bits(q) == precision_bits(p),
            None => forall|q: KVPrecision| precision_bits(p) <= #[trigger] precision_bits(q),
        },
{
}

/// The number of bytes that so many codes take: two for each at full precision,
/// else as few as hold them.
pub open spec fn stored_len(count: nat, p: KVPrecision) -> nat {
    if p == KVPrecision::FP16 {
        2 * count
    } else {
        packed_len(count, precision_bits(p))
    }
}

/// Whether data reaches as far as a code.
pub open spec fn reaches(data: Seq<u8>, p: KVPrecision, i: int) -> bool {
    if p == KVPrecision::FP16 {
        2 * i + 1 < data.len()
    } else {
        i / (per_byte(precision_bits(p)) as int) < data.len()
    }
}

/// Code `i` of data: at full precision one of two bytes, the lower one first,
/// else one that is packed.
pub open spec fn code_at(data: Seq<u8>, p: KVPrecision, i: int) -> nat {
    if p == KVPrecision::FP16 {
        data[2 * i] as nat + 256 * (data[2 * i + 1] as nat)
    } else {
        code_in(data, precision_bits(p), i)
    }
}

/// Codes that have lost their low bits: each of the first `n` codes divided by
/// the power of two that the two widths differ by. Beyond the data there are
/// zeros.
pub open spec fn reduced_codes(
    data: Seq<u8>,
    from: KVPrecision,
    to: KVPrecision,
    n: nat,
) -> Seq<u8> {
    Seq::new(
        n,
        |i: int|
            if reaches(data, from, i) {
                (code_at(data, from, i) / pow2(
                    (precision_bits(from) - precision_bits(to)) as nat,
                )) as u8
            } else {
                0u8
            },
    )
}

/// Codes of one precision as packed codes of a lower one.
pub open spec fn reduced(data: Seq<u8>, from: KVPrecision, to: KVPrecision, n: nat) -> Seq<u8> {
    packed(reduced_codes(data, from, to, n), precision_bits(to), n)
}

proof fn lemma_code_fits(data: Seq<u8>, p: KVPrecision, i: int)
    ensures
        code_at(data, p, i) < pow2(precision_bits(p)),
{
    lemma_widths();
    vstd::arithmetic::power2::lemma2_to64();
}

proof fn lemma_reduced_fit(data: Seq<u8>, from: KVPrecision, to: KVPrecision, n: nat)
    requires
        to != KVPrecision::FP16,
        precision_bits(to) <= precision_bits(from),
    ensures
        codes_fit(reduced_codes(data, from, to, n), precision_bits(to)),
        forall|i: int|
            0 <= i < n && reaches(data, from, i) ==> #[trigger] reduced_codes(data, from, to, n)[i]
                == code_at(data, from, i) / pow2(
                (precision_bits(from) - precision_bits(to)) as nat,
            ),
{
    let a = precision_bits(from);
    let b = precision_bits(to);
    let s = (a - b) as nat;
    lemma_widths();
    let codes = reduced_codes(data, from, to, n);
    vstd::arithmetic::power2::lemma_pow2_adds(s, b);
    vstd::arithmetic::power2::lemma_pow2_pos(s);
    vstd::arithmetic::power2::lemma_pow2_pos(b);
    crate::float::lemma_pow2_mono(b, 8);
    assert forall|i: int| 0 <= i < codes.len() implies (#[trigger] codes[i] as nat) < pow2(b) && (
    reaches(data, from, i) ==> codes[i] == code_at(data, from, i) / pow2(s)) by {
        if reaches(data, from, i) {
            let c = code_at(data, from, i);
            lemma_code_fits(data, from, i);
            lemma_quotient_small(c, pow2(s), pow2(b));
        }
    }
}

proof fn lemma_quotient_small(c: nat, s: nat, b: nat)
    requires
        s > 0,
        c < s * b,
    ensures
        c / s < b,
        c / s <= c,
{
    assert(c / s < b && c / s <= c) by (nonlinear_arith)
        requires
            s > 0,
            c < s * b,
    ;
}

/// A code of two bytes without its low bits.
fn shifted_wide(low: u8, high: u8, shift: u32) -> (r: u8)
    requires
        8 <= shift < 16,
    ensures
        r == (low as nat + 256 * (high as nat)) / pow2(shift as nat),
{
    let c: u16 = low as u16 + 256 * (high as u16);
    proof {
        vstd::bits::lemma_u16_shr_is_div(c, shift as u16);
        vstd::arithmetic::power2::lemma2_to64();
        vstd::arithmetic::power2::lemma_pow2_adds(8, (shift - 8) as nat);
        vstd::arithmetic::power2::lemma_pow2_pos((shift - 8) as nat);
        lemma_byte_left(c as nat, pow2(shift as nat), pow2((shift - 8) as nat));
    }
    (c >> (shift as u16)) as u8
}

proof fn lemma_byte_left(c: nat, d: nat, k: nat)
    requires
        c < 65536,
        d == 256 * k,
        k > 0,
    ensures
        c / d < 256,
{
    assert(c / d < 256) by (nonlinear_arith)
        requires
            c < 65536,
            d >= 256,
    ;
}

/// Right shift: codes of one precision as packed codes of a lower one, by
/// dropping the low bits of each.
pub fn right_shift_packed(
    data: &[u8],
    from: KVPrecision,
    to: KVPrecision,
    num_elements: usize,
) -> (r: Vec<u8>)
    requires
        to != KVPrecision::FP16,
        precision_bits(to) <= precision_bits(from),
        num_elements + 8 <= usize::MAX,
    ensures
        r@ == reduced(data@, from, to, num_elements as nat),
        r@.len() == packed_len(num_elements as nat, precision_bits(to)),
{
    let a: u32 = from.bits() as u32;
    let b: u32 = to.bits() as u32;
    let ghost goal = reduced_codes(data@, from, to, num_elements as nat);
    proof {
        lemma_widths();
        lemma_reduced_fit(data@, from, to, num_elements as nat);
    }
    let shift: u32 = a - b;
    let mut codes: Vec<u8> = Vec::new();
    let mut i: usize = 0;
    while i < num_elements
        invariant
            to != KVPrecision::FP16,
            a == precision_bits(from),
            b == precision_bits(to),
            2 <= b <= a,
            b <= 8,
            shift == a - b,
            i <= num_elements,
            goal == reduced_codes(data@, from, to, num_elements as nat),
            forall|k: int|
                0 <= k < num_elements && reaches(data@, from, k) ==> #[trigger] goal[k] == code_at(
                    data@,
                    from,
                    k,
                ) / pow2(shift as nat),
            codes@ =~= goal.take(i as int),
        decreases num_elements - i,
    {
        let c: u8 = match from {
            KVPrecision::FP16 => {
                if i < data.len() / 2 {
                    shifted_wide(data[2 * i], data[2 * i + 1], shift)
                } else {
                    0
                }
            },
            _ => {
                proof {
                    lemma_widths();
                }
                let p: usize = codes_per_byte(a);
                if i / p < data.len() {
                    let c: u8 = read_code(data, a, i);
                    proof {
                        vstd::bits::lemma_u8_shr_is_div(c, shift as u8);
                    }
                    c >> (shift as u8)
                } else {
                    0
                }
            },
        };
        assert(c == goal[i as int]);
        codes.push(c);
        i += 1;
    }
    assert(goal.take(num_elements as int) =~= goal);
    pack_codes(&codes, b, num_elements)
}

/// Degrading drops low bits and nothing else: the code that is read at the
/// lower precision is the code of the higher one, divided by the power of two
/// that the widths differ by.
pub proof fn law_right_shift_keeps_the_high_bits(
    data: Seq<u8>,
    from: KVPrecision,
    to: KVPrecision,
    n: nat,
    i: int,
)
    requires
        to != KVPrecision::FP16,
        precision_bits(to) <= precision_bits(from),
        0 <= i < n,
        stored_len(n, from) <= data.len(),
    ensures
        code_at(reduced(data, from, to, n), to, i) == code_at(data, from, i) / pow2(
            (precision_bits(from) - precision_bits(to)) as nat,
        ),
{
    lemma_widths();
    lemma_reduced_fit(data, from, to, n);
    if from != KVPrecision::FP16 {
        super::packing::lemma_byte_of(i, n, precision_bits(from));
    }
    law_packed_codes_are_read_back(reduced_codes(data, from, to, n), precision_bits(to), n, i);
}

/// Codes of two bytes are read back as they were.
pub proof fn law_wide_codes_are_read_back(codes: Seq<u16>, i: int)
    requires
        0 <= i < codes.len(),
    ensures
        code_at(wide_bytes(codes), KVPrecision::FP16, i) == codes[i],
{
    let data = wide_bytes(codes);
    assert((2 * i) / 2 == i);
    assert((2 * i + 1) / 2 == i);
    assert(data[2 * i] == codes[i] % 256);
    assert(data[2 * i + 1] == codes[i] / 256);
}

} // verus!
