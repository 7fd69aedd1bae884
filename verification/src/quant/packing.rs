//! Codes of one, two, four or eight bits in bytes, the first code in the
//! lowest bits.

use vstd::arithmetic::power2::pow2;
use vstd::prelude::*;

verus! {

/// The widths that divide a byte.
pub open spec fn is_width(bits: nat) -> bool {
    bits == 1 || bits == 2 || bits == 4 || bits == 8
}

/// The number of codes in a byte.
pub open spec fn per_byte(bits: nat) -> nat {
    8nat / bits
}

/// The number of bytes that so many codes take.
pub open spec fn packed_len(count: nat, bits: nat) -> nat {
    ((count + per_byte(bits) - 1) / (per_byte(bits) as int)) as nat
}

/// A code, or zero behind the last one.
pub open spec fn code(codes: Seq<u8>, i: int) -> nat {
    if 0 <= i < codes.len() {
        codes[i] as nat
    } else {
        0
    }
}

/// The number with `n` codes from `start` on as its digits, the first one the
/// lowest.
pub open spec fn digits_value(codes: Seq<u8>, bits: nat, start: int, n: nat) -> nat
    decreases n,
{
    if n == 0 {
        0
    } else {
        code(codes, start) + pow2(bits) * digits_value(codes, bits, start + 1, (n - 1) as nat)
    }
}

/// Codes packed into the bytes that `count` codes take; behind the last code
/// there are zeros.
pub open spec fn packed(codes: Seq<u8>, bits: nat, count: nat) -> Seq<u8> {
    Seq::new(
        packed_len(count, bits),
        |b: int| digits_value(codes, bits, b * per_byte(bits), per_byte(bits)) as u8,
    )
}

/// Code `i` of packed bytes.
pub open spec fn code_in(data: Seq<u8>, bits: nat, i: int) -> nat {
    let p = per_byte(bits) as int;
    (data[i / p] as nat / pow2((bits * (i % p)) as nat)) % pow2(bits)
}

/// The first `count` codes of packed bytes.
pub open spec fn unpacked(data: Seq<u8>, bits: nat, count: nat) -> Seq<u8> {
    Seq::new(count, |i: int| code_in(data, bits, i) as u8)
}

/// Whether every code has no more than so many bits.
pub open spec fn codes_fit(codes: Seq<u8>, bits: nat) -> bool {
    forall|i: int| 0 <= i < codes.len() ==> (#[trigger] codes[i] as nat) < pow2(bits)
}

pub proof fn lemma_widths()
    ensures
        pow2(0) == 1,
        pow2(1) == 2,
        pow2(2) == 4,
        pow2(4) == 16,
        pow2(6) == 64,
        pow2(8) == 256,
        per_byte(1) == 8,
        per_byte(2) == 4,
        per_byte(4) == 2,
        per_byte(8) == 1,
{
    vstd::arithmetic::power2::lemma2_to64();
}

/// Digits below the base make a number below its power.
proof fn lemma_digits_bound(codes: Seq<u8>, bits: nat, start: int, n: nat)
    requires
        codes_fit(codes, bits),
    ensures
        digits_value(codes, bits, start, n) < pow2(bits * n),
    decreases n,
{
    vstd::arithmetic::power2::lemma_pow2_pos(bits);
    if n == 0 {
        lemma_widths();
        assert(bits * 0 == 0) by (nonlinear_arith);
    } else {
        let m = (n - 1) as nat;
        let rest = digits_value(codes, bits, start + 1, m);
        lemma_digits_bound(codes, bits, start + 1, m);
        assert(bits * n == bits + bits * m) by (nonlinear_arith)
            requires
                n == m + 1,
        ;
        vstd::arithmetic::power2::lemma_pow2_adds(bits, bits * m);
        let d = code(codes, start);
        assert(d < pow2(bits));
        assert(d + pow2(bits) * rest < pow2(bits) * pow2(bits * m)) by (nonlinear_arith)
            requires
                d < pow2(bits),
                rest + 1 <= pow2(bits * m),
        ;
    }
}

/// A digit can be read back out of the number.
proof fn lemma_digit_of(codes: Seq<u8>, bits: nat, start: int, n: nat, j: nat)
    requires
        codes_fit(codes, bits),
        j < n,
    ensures
        (digits_value(codes, bits, start, n) / pow2(bits * j)) % pow2(bits) == code(
            codes,
            start + j,
        ),
    decreases n,
{
    let x = digits_value(codes, bits, start, n);
    let m = (n - 1) as nat;
    let r = pow2(bits);
    let d = code(codes, start);
    let rest = digits_value(codes, bits, start + 1, m);
    vstd::arithmetic::power2::lemma_pow2_pos(bits);
    assert(d < r);
    assert(x == r * rest + d) by (nonlinear_arith)
        requires
            x == d + r * rest,
    ;
    vstd::arithmetic::div_mod::lemma_fundamental_div_mod_converse(
        x as int,
        r as int,
        rest as int,
        d as int,
    );
    if j == 0 {
        lemma_widths();
        assert(bits * 0 == 0) by (nonlinear_arith);
        assert(x / 1 == x);
    } else {
        let k = (j - 1) as nat;
        assert(bits * j == bits + bits * k) by (nonlinear_arith)
            requires
                j == k + 1,
        ;
        vstd::arithmetic::power2::lemma_pow2_adds(bits, bits * k);
        vstd::arithmetic::power2::lemma_pow2_pos(bits * k);
        vstd::arithmetic::div_mod::lemma_div_denominator(x as int, r as int, pow2(bits * k) as int);
        lemma_digit_of(codes, bits, start + 1, m, k);
        assert(start + 1 + k == start + j);
    }
}

/// The place of a code: in which byte, and where in it.
proof fn lemma_place(i: int, p: int)
    requires
        0 <= i,
        p > 0,
    ensures
        0 <= i % p < p,
        0 <= i / p,
        (i / p) * p + i % p == i,
{
    vstd::arithmetic::div_mod::lemma_fundamental_div_mod(i, p);
    vstd::arithmetic::div_mod::lemma_div_pos_is_pos(i, p);
    assert((i / p) * p == p * (i / p)) by (nonlinear_arith);
}

/// A byte of codes is a byte.
proof fn lemma_byte_fits(codes: Seq<u8>, bits: nat, b: int)
    requires
        is_width(bits),
        codes_fit(codes, bits),
    ensures
        digits_value(codes, bits, b * per_byte(bits), per_byte(bits)) < 256,
{
    lemma_widths();
    lemma_digits_bound(codes, bits, b * per_byte(bits), per_byte(bits));
    assert(bits * per_byte(bits) == 8);
}

pub proof fn lemma_packed_len(count: nat, bits: nat)
    ensures
        bits == 1 ==> packed_len(count, bits) == (count + 7) / 8,
        bits == 2 ==> packed_len(count, bits) == (count + 3) / 4,
        bits == 4 ==> packed_len(count, bits) == (count + 1) / 2,
        bits == 8 ==> packed_len(count, bits) == count,
{
    lemma_widths();
    if bits == 8 {
        assert(packed_len(count, bits) == count / 1);
    }
}

pub proof fn lemma_byte_of(i: int, count: nat, bits: nat)
    requires
        is_width(bits),
        0 <= i < count,
    ensures
        0 <= i / (per_byte(bits) as int) < packed_len(count, bits),
{
    lemma_widths();
    lemma_packed_len(count, bits);
    if bits == 1 {
        assert(i / 8 < (count + 7) / 8);
    } else if bits == 2 {
        assert(i / 4 < (count + 3) / 4);
    } else if bits == 4 {
        assert(i / 2 < (count + 1) / 2);
    } else {
        assert(i / 1 == i);
    }
}

/// Packing loses nothing: every code is read back as it was, and behind the
/// last one there are zeros.
pub proof fn law_packed_codes_are_read_back(codes: Seq<u8>, bits: nat, count: nat, i: int)
    requires
        is_width(bits),
        codes_fit(codes, bits),
        0 <= i < count,
    ensures
        code_in(packed(codes, bits, count), bits, i) == code(codes, i),
{
    let p = per_byte(bits) as int;
    lemma_widths();
    lemma_place(i, p);
    lemma_byte_of(i, count, bits);
    lemma_byte_fits(codes, bits, i / p);
    lemma_digit_of(codes, bits, (i / p) * p, p as nat, (i % p) as nat);
}

/// What was packed and is unpacked is what there was.
pub proof fn law_unpack_undoes_pack(codes: Seq<u8>, bits: nat)
    requires
        is_width(bits),
        codes_fit(codes, bits),
    ensures
        unpacked(packed(codes, bits, codes.len()), bits, codes.len()) == codes,
{
    let n = codes.len();
    assert forall|i: int| 0 <= i < n implies unpacked(packed(codes, bits, n), bits, n)[i]
        == codes[i] by {
        law_packed_codes_are_read_back(codes, bits, n, i);
    }
    assert(unpacked(packed(codes, bits, n), bits, n) =~= codes);
}

/// The number of codes in a byte.
pub fn codes_per_byte(bits: u32) -> (r: usize)
    requires
        is_width(bits as nat),
    ensures
        r == per_byte(bits as nat),
        1 <= r <= 8,
{
    proof {
        lemma_widths();
    }
    (8 / bits) as usize
}

/// The number of bytes that so many codes take.
pub fn bytes_for(count: usize, bits: u32) -> (r: usize)
    requires
        is_width(bits as nat),
    ensures
        r == packed_len(count as nat, bits as nat),
        r <= count,
{
    proof {
        lemma_widths();
        lemma_packed_len(count as nat, bits as nat);
    }
    if bits == 1 {
        count / 8 + if count % 8 == 0 {
            0
        } else {
            1
        }
    } else if bits == 2 {
        count / 4 + if count % 4 == 0 {
            0
        } else {
            1
        }
    } else if bits == 4 {
        count / 2 + count % 2
    } else {
        count
    }
}

/// The base of codes of a width.
pub fn radix(bits: u32) -> (r: u32)
    requires
        is_width(bits as nat),
    ensures
        r == pow2(bits as nat),
        2 <= r <= 256,
{
    proof {
        lemma_widths();
    }
    if bits == 1 {
        2
    } else if bits == 2 {
        4
    } else if bits == 4 {
        16
    } else {
        256
    }
}

/// Code `i` of packed bytes.
pub fn read_code(data: &[u8], bits: u32, i: usize) -> (r: u8)
    requires
        is_width(bits as nat),
        i as int / (per_byte(bits as nat) as int) < data@.len(),
    ensures
        r == code_in(data@, bits as nat, i as int),
        (r as nat) < pow2(bits as nat),
{
    let p: usize = codes_per_byte(bits);
    proof {
        lemma_widths();
        lemma_place(i as int, p as int);
    }
    let byte: u8 = data[i / p];
    proof {
        let k = i as int % p as int;
        assert(k * bits < 8) by (nonlinear_arith)
            requires
                0 <= k <= p - 1,
                p * bits == 8,
                p >= 1,
                bits >= 1,
        ;
    }
    let shift: u8 = ((i % p) * (bits as usize)) as u8;
    proof {
        assert(bits * (i % p) == (i % p) * bits) by (nonlinear_arith);
        vstd::bits::lemma_u8_shr_is_div(byte, shift);
        vstd::arithmetic::power2::lemma_pow2_pos(shift as nat);
        vstd::arithmetic::div_mod::lemma_div_is_ordered_by_denominator(
            byte as int,
            1,
            pow2(shift as nat) as int,
        );
    }
    let high: u8 = byte >> shift;
    ((high as u32) % radix(bits)) as u8
}

/// The first `count` codes of packed bytes.
pub fn unpack_codes(data: &[u8], bits: u32, count: usize) -> (r: Vec<u8>)
    requires
        is_width(bits as nat),
        packed_len(count as nat, bits as nat) <= data@.len(),
    ensures
        r@ == unpacked(data@, bits as nat, count as nat),
        codes_fit(r@, bits as nat),
{
    let mut out: Vec<u8> = Vec::new();
    let mut i: usize = 0;
    while i < count
        invariant
            is_width(bits as nat),
            packed_len(count as nat, bits as nat) <= data@.len(),
            i <= count,
            out@ =~= unpacked(data@, bits as nat, count as nat).take(i as int),
            codes_fit(out@, bits as nat),
        decreases count - i,
    {
        proof {
            lemma_byte_of(i as int, count as nat, bits as nat);
        }
        let c: u8 = read_code(data, bits, i);
        out.push(c);
        i += 1;
    }
    out
}

fn pack_byte(codes: &[u8], bits: u32, b: usize) -> (r: u8)
    requires
        is_width(bits as nat),
        codes_fit(codes@, bits as nat),
        b * per_byte(bits as nat) + per_byte(bits as nat) <= usize::MAX,
    ensures
        r == digits_value(
            codes@,
            bits as nat,
            b * per_byte(bits as nat),
            per_byte(bits as nat),
        ),
{
    let p: usize = codes_per_byte(bits);
    let base: u32 = radix(bits);
    let start: usize = b * p;
    let mut value: u32 = 0;
    let mut j: usize = p;
    proof {
        lemma_widths();
    }
    while j > 0
        invariant
            is_width(bits as nat),
            codes_fit(codes@, bits as nat),
            p == per_byte(bits as nat),
            base == pow2(bits as nat),
            base <= 256,
            start == b * per_byte(bits as nat),
            start + p <= usize::MAX,
            j <= p,
            value == digits_value(codes@, bits as nat, start + j, (p - j) as nat),
            value < 256,
        decreases j,
    {
        j -= 1;
        let d: u8 = if start + j < codes.len() {
            codes[start + j]
        } else {
            0
        };
        proof {
            assert(d == code(codes@, start + j));
            assert(start + j + 1 == start + (j + 1));
            lemma_digits_bound(codes@, bits as nat, start + j, (p - j) as nat);
            lemma_widths();
            assert(bits * per_byte(bits as nat) == 8);
            assert(bits * (p - j) <= 8) by (nonlinear_arith)
                requires
                    bits * p == 8,
                    0 <= j <= p,
                    bits >= 1,
            ;
            crate::float::lemma_pow2_mono((bits * (p - j)) as nat, 8);
            assert(value * base < 256 * 256) by (nonlinear_arith)
                requires
                    0 <= value < 256,
                    0 <= base <= 256,
            ;
            assert(value * base == base * value) by (nonlinear_arith);
        }
        value = value * base + d as u32;
    }
    value as u8
}

/// Codes packed into the bytes that `count` codes take.
pub fn pack_codes(codes: &[u8], bits: u32, count: usize) -> (r: Vec<u8>)
    requires
        is_width(bits as nat),
        codes_fit(codes@, bits as nat),
        count + 8 <= usize::MAX,
    ensures
        r@ == packed(codes@, bits as nat, count as nat),
{
    let len: usize = bytes_for(count, bits);
    let p: usize = codes_per_byte(bits);
    let mut out: Vec<u8> = Vec::new();
    let mut b: usize = 0;
    while b < len
        invariant
            is_width(bits as nat),
            codes_fit(codes@, bits as nat),
            count + 8 <= usize::MAX,
            len == packed_len(count as nat, bits as nat),
            b <= len,
            out@ =~= packed(codes@, bits as nat, count as nat).take(b as int),
        decreases len - b,
    {
        proof {
            lemma_widths();
            lemma_last_byte(b as int, count as nat, bits as nat);
            lemma_byte_fits(codes@, bits as nat, b as int);
        }
        out.push(pack_byte(codes, bits, b));
        b += 1;
    }
    assert(packed(codes@, bits as nat, count as nat).take(len as int) =~= packed(
        codes@,
        bits as nat,
        count as nat,
    ));
    out
}

proof fn lemma_last_byte(b: int, count: nat, bits: nat)
    requires
        is_width(bits),
        0 <= b < packed_len(count, bits),
    ensures
        b * per_byte(bits) < count,
        per_byte(bits) <= 8,
{
    lemma_widths();
    lemma_packed_len(count, bits);
    if bits == 1 {
        assert(b * 8 < count);
    } else if bits == 2 {
        assert(b * 4 < count);
    } else if bits == 4 {
        assert(b * 2 < count);
    } else {
        assert(b * 1 < count);
    }
}

} // verus!
