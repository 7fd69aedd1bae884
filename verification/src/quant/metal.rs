//! The geometry and the buffers of the GPU kernels for quantised vectors.

use vstd::arithmetic::power2::pow2;
use vstd::prelude::*;

use super::packing::{code_in, read_code};

verus! {

/// The first power of two from `p` on, by doubling, that reaches `n`.
pub open spec fn doubled(p: nat, n: nat) -> nat
    decreases 2 * n - p,
    when p > 0
{
    if p >= n {
        p
    } else {
        doubled(2 * p, n)
    }
}

/// The least power of two that is no less than `n`.
pub open spec fn next_power(n: nat) -> nat {
    doubled(1, n)
}

proof fn lemma_doubled(k: nat, n: nat)
    ensures
        doubled(pow2(k), n) >= n,
        exists|j: nat| k <= j && doubled(pow2(k), n) == #[trigger] pow2(j),
        doubled(pow2(k), n) == pow2(k) || doubled(pow2(k), n) < 2 * n,
    decreases 2 * n - pow2(k),
{
    vstd::arithmetic::power2::lemma_pow2_pos(k);
    if pow2(k) >= n {
        assert(k <= k && doubled(pow2(k), n) == pow2(k));
    } else {
        vstd::arithmetic::power2::lemma_pow2_unfold(k + 1);
        lemma_doubled(k + 1, n);
        let j = choose|j: nat| k + 1 <= j && doubled(pow2(k + 1), n) == #[trigger] pow2(j);
        assert(k <= j && doubled(pow2(k), n) == pow2(j));
    }
}

/// The next power of two is a power of two, is no less than the number, and no
/// smaller power of two is.
pub proof fn law_next_power(n: nat, j: nat)
    ensures
        next_power(n) >= n,
        exists|k: nat| next_power(n) == #[trigger] pow2(k),
        pow2(j) >= n ==> pow2(j) >= next_power(n),
{
    vstd::arithmetic::power2::lemma2_to64();
    lemma_doubled(0, n);
    let k = choose|k: nat| 0 <= k && doubled(pow2(0), n) == #[trigger] pow2(k);
    assert(next_power(n) == pow2(k));
    if pow2(j) >= n && pow2(j) < next_power(n) {
        if k <= j {
            crate::float::lemma_pow2_mono(k, j);
        } else {
            crate::float::lemma_pow2_mono(j, k);
            if k == 0 {
            } else {
                vstd::arithmetic::power2::lemma_pow2_pos(j);
            }
        }
    }
}

/// The least power of two that is no less than a number.
pub fn next_power_of_two(n: usize) -> (r: usize)
    requires
        next_power(n as nat) <= usize::MAX,
    ensures
        r == next_power(n as nat),
        r >= 1,
{
    let mut p: usize = 1;
    while p < n
        invariant
            p >= 1,
            next_power(n as nat) <= usize::MAX,
            doubled(p as nat, n as nat) == next_power(n as nat),
        decreases 2 * n - p,
    {
        proof {
            lemma_doubled_grows((2 * p) as nat, n as nat);
        }
        p = p * 2;
    }
    p
}

proof fn lemma_doubled_grows(p: nat, n: nat)
    requires
        p > 0,
    ensures
        doubled(p, n) >= p,
    decreases 2 * n - p,
{
    if p < n {
        lemma_doubled_grows(2 * p, n);
    }
}

/// How a kernel is dispatched.
#[derive(Clone, Copy, Debug, PartialEq, Eq)]
pub struct MetalDispatchConfig {
    /// The name of the kernel.
    pub kernel_name: &'static str,
    /// One group of threads for each vector.
    pub threadgroups: usize,
    /// A power of two from 32 to 256.
    pub threads_per_group: usize,
}

/// The threads of a group for so many bytes of a vector.
pub open spec fn group_threads(bytes: nat) -> nat {
    next_power(
        if bytes < 32 {
            32
        } else if bytes > 256 {
            256
        } else {
            bytes
        },
    )
}

proof fn lemma_group_threads(bytes: nat)
    ensures
        32 <= group_threads(bytes) <= 256,
        group_threads(bytes) == 32 || group_threads(bytes) == 64 || group_threads(bytes) == 128
            || group_threads(bytes) == 256,
{
    reveal_with_fuel(doubled, 10);
}

fn threads_for(bytes: usize) -> (r: usize)
    ensures
        r == group_threads(bytes as nat),
        r == 32 || r == 64 || r == 128 || r == 256,
{
    proof {
        lemma_group_threads(bytes as nat);
    }
    let n: usize = if bytes < 32 {
        32
    } else if bytes > 256 {
        256
    } else {
        bytes
    };
    next_power_of_two(n)
}

impl MetalDispatchConfig {
    /// The dispatch for vectors of two-bit codes.
    pub fn for_2bit(num_vectors: usize, dim: usize) -> (r: Self)
        ensures
            r.kernel_name@ == "dequantize_dot_product_2bit"@,
            r.threadgroups == num_vectors,
            r.threads_per_group == group_threads(dim as nat / 4),
            32 <= r.threads_per_group <= 256,
    {
        MetalDispatchConfig {
            kernel_name: "dequantize_dot_product_2bit",
            threadgroups: num_vectors,
            threads_per_group: threads_for(dim / 4),
        }
    }

    /// The dispatch for vectors of four-bit codes.
    pub fn for_4bit(num_vectors: usize, dim: usize) -> (r: Self)
        ensures
            r.kernel_name@ == "dequantize_dot_product_4bit"@,
            r.threadgroups == num_vectors,
            r.threads_per_group == group_threads(dim as nat / 2),
            32 <= r.threads_per_group <= 256,
    {
        MetalDispatchConfig {
            kernel_name: "dequantize_dot_product_4bit",
            threadgroups: num_vectors,
            threads_per_group: threads_for(dim / 2),
        }
    }

    /// The dispatch for vectors in two tensors of two-bit codes.
    pub fn for_kitty(num_vectors: usize, dim: usize) -> (r: Self)
        ensures
            r.kernel_name@ == "dequantize_dot_product_kitty"@,
            r.threadgroups == num_vectors,
            r.threads_per_group == group_threads(dim as nat / 4),
            32 <= r.threads_per_group <= 256,
    {
        MetalDispatchConfig {
            kernel_name: "dequantize_dot_product_kitty",
            threadgroups: num_vectors,
            threads_per_group: threads_for(dim / 4),
        }
    }
}

/// Whether a mask has the bit of a channel; it has none beyond its end.
pub open spec fn is_marked(mask: Seq<u8>, channel: int) -> bool {
    channel / 8 < mask.len() && code_in(mask, 1, channel) == 1
}

/// The number of marked channels below `n`.
pub open spec fn marked_below(mask: Seq<u8>, n: nat) -> nat
    decreases n,
{
    if n == 0 {
        0
    } else {
        marked_below(mask, (n - 1) as nat) + if is_marked(mask, n - 1) {
            1nat
        } else {
            0
        }
    }
}

proof fn lemma_marked_mono(mask: Seq<u8>, i: nat, j: nat)
    requires
        i <= j,
    ensures
        marked_below(mask, i) <= marked_below(mask, j) <= marked_below(mask, i) + (j - i),
    decreases j - i,
{
    if i < j {
        lemma_marked_mono(mask, i, (j - 1) as nat);
    }
}

/// For each channel the number of boosted channels before it, and at the end
/// the number of all: where the codes of a boosted channel stand.
pub fn build_kitty_boost_prefix_sum(boost_mask: &[u8], dim: usize) -> (r: Vec<u16>)
    requires
        marked_below(boost_mask@, dim as nat) <= u16::MAX,
        dim < usize::MAX,
    ensures
        r@.len() == dim + 1,
        forall|i: int| 0 <= i <= dim ==> #[trigger] r@[i] == marked_below(boost_mask@, i as nat),
{
    let mut prefix: Vec<u16> = Vec::new();
    let mut count: u16 = 0;
    let mut i: usize = 0;
    while i < dim
        invariant
            i <= dim,
            marked_below(boost_mask@, dim as nat) <= u16::MAX,
            count == marked_below(boost_mask@, i as nat),
            prefix@.len() == i,
            forall|k: int|
                0 <= k < i ==> #[trigger] prefix@[k] == marked_below(boost_mask@, k as nat),
        decreases dim - i,
    {
        prefix.push(count);
        proof {
            super::packing::lemma_widths();
            lemma_marked_mono(boost_mask@, (i + 1) as nat, dim as nat);
        }
        if i / 8 < boost_mask.len() && read_code(boost_mask, 1, i) == 1 {
            count += 1;
        }
        i += 1;
    }
    prefix.push(count);
    prefix
}

/// The sums grow by one exactly at the boosted channels.
pub proof fn law_prefix_sum_counts_boosted(mask: Seq<u8>, i: nat)
    ensures
        marked_below(mask, i + 1) == marked_below(mask, i) + if is_marked(mask, i as int) {
            1nat
        } else {
            0
        },
        marked_below(mask, i) <= i,
{
    lemma_marked_mono(mask, 0, i);
}

/// The sizes of the buffers for vectors of two-bit codes: query, codes,
/// scales, zero points and scores, in bytes.
pub fn compute_buffer_sizes_2bit(dim: usize, num_vectors: usize) -> (r: (
    usize,
    usize,
    usize,
    usize,
    usize,
))
    requires
        dim * 4 <= usize::MAX,
        num_vectors * 4 <= usize::MAX,
        ((dim + 3) / 4) * num_vectors <= usize::MAX,
    ensures
        r.0 == dim * 4,
        r.1 == ((dim + 3) / 4) * num_vectors,
        r.2 == num_vectors * 4,
        r.3 == num_vectors * 4,
        r.4 == num_vectors * 4,
{
    let bytes_per_vec: usize = dim / 4 + if dim % 4 == 0 {
        0
    } else {
        1
    };
    assert(bytes_per_vec == (dim + 3) / 4);
    (dim * 4, bytes_per_vec * num_vectors, num_vectors * 4, num_vectors * 4, num_vectors * 4)
}

/// The sizes of the buffers for vectors of four-bit codes.
pub fn compute_buffer_sizes_4bit(dim: usize, num_vectors: usize) -> (r: (
    usize,
    usize,
    usize,
    usize,
    usize,
))
    requires
        dim * 4 <= usize::MAX,
        num_vectors * 4 <= usize::MAX,
        ((dim + 1) / 2) * num_vectors <= usize::MAX,
    ensures
        r.0 == dim * 4,
        r.1 == ((dim + 1) / 2) * num_vectors,
        r.2 == num_vectors * 4,
        r.3 == num_vectors * 4,
        r.4 == num_vectors * 4,
{
    let bytes_per_vec: usize = dim / 2 + dim % 2;
    assert(bytes_per_vec == (dim + 1) / 2);
    (dim * 4, bytes_per_vec * num_vectors, num_vectors * 4, num_vectors * 4, num_vectors * 4)
}

/// The bytes of all vectors, one after the other.
pub open spec fn joined_bytes(vectors: Seq<Vec<u8>>) -> Seq<u8>
    decreases vectors.len(),
{
    if vectors.len() == 0 {
        Seq::empty()
    } else {
        joined_bytes(vectors.drop_last()) + vectors.last()@
    }
}

/// The buffers of the codes, scales and zero points of vectors. Scales and
/// zero points are bits of single-precision numbers.
pub fn pack_for_metal_2bit(vectors: &Vec<Vec<u8>>, scales: &Vec<u32>, zeros: &Vec<u32>) -> (r: (
    Vec<u8>,
    Vec<u32>,
    Vec<u32>,
))
    ensures
        r.0@ == joined_bytes(vectors@),
        r.1@ == scales@,
        r.2@ == zeros@,
{
    let mut out: Vec<u8> = Vec::new();
    let mut i: usize = 0;
    assert(vectors@.take(0) =~= Seq::empty());
    while i < vectors.len()
        invariant
            i <= vectors@.len(),
            out@ == joined_bytes(vectors@.take(i as int)),
        decreases vectors@.len() - i,
    {
        assert(vectors@.take(i + 1).drop_last() =~= vectors@.take(i as int));
        assert(vectors@.take(i + 1).last() == vectors@[i as int]);
        let ghost before = out@;
        out.extend_from_slice(vectors[i].as_slice());
        assert(out@ =~= before + vectors@[i as int]@);
        i += 1;
    }
    assert(vectors@.take(vectors@.len() as int) =~= vectors@);
    (out, scales.clone(), zeros.clone())
}

/// The four bytes of a word, the lowest first.
pub open spec fn word_bytes(w: u32) -> Seq<u8> {
    seq![
        (w % 256) as u8,
        ((w / 256) % 256) as u8,
        ((w / 0x1_0000) % 256) as u8,
        (w / 0x100_0000) as u8,
    ]
}

/// The word that four bytes make, the lowest first.
pub open spec fn word_at(bytes: Seq<u8>, i: int) -> int {
    bytes[4 * i] + 256 * bytes[4 * i + 1] + 0x1_0000 * bytes[4 * i + 2] + 0x100_0000 * bytes[4 * i
        + 3]
}

/// Writes a query, given as the bits of its components, to the start of a
/// buffer; what is behind it stays.
pub fn write_query_to_metal_buffer(query: &[u32], dst: &mut Vec<u8>)
    requires
        4 * query@.len() <= old(dst)@.len(),
    ensures
        final(dst)@.len() == old(dst)@.len(),
        forall|i: int, k: int|
            0 <= i < query@.len() && 0 <= k < 4 ==> final(dst)@[4 * i + k] == #[trigger] word_bytes(
                query@[i],
            )[k],
        forall|j: int|
            4 * query@.len() <= j < old(dst)@.len() ==> #[trigger] final(dst)@[j] == old(dst)@[j],
{
    let ghost start = dst@;
    let len: usize = dst.len();
    let mut i: usize = 0;
    while i < query.len()
        invariant
            i <= query@.len(),
            4 * query@.len() <= dst@.len() == start.len() == len,
            forall|h: int, k: int|
                0 <= h < i && 0 <= k < 4 ==> dst@[4 * h + k] == #[trigger] word_bytes(query@[h])[k],
            forall|j: int| 4 * i <= j < start.len() ==> #[trigger] dst@[j] == start[j],
        decreases query@.len() - i,
    {
        let w: u32 = query[i];
        let at: usize = 4 * i;
        let ghost before = dst@;
        dst[at] = (w % 256) as u8;
        dst[at + 1] = ((w / 256) % 256) as u8;
        dst[at + 2] = ((w / 0x1_0000) % 256) as u8;
        dst[at + 3] = (w / 0x100_0000) as u8;
        assert forall|h: int, k: int| 0 <= h < i + 1 && 0 <= k < 4 implies dst@[4 * h + k]
            == #[trigger] word_bytes(query@[h])[k] by {
            if h < i {
                assert(before[4 * h + k] == word_bytes(query@[h])[k]);
            } else {
                assert(k == 0 || k == 1 || k == 2 || k == 3);
            }
        }
        i += 1;
    }
}

/// Reads scores, as the bits of numbers, from the start of a buffer.
pub fn read_scores_from_metal_buffer(src: &[u8], num_vectors: usize) -> (r: Vec<u32>)
    requires
        4 * num_vectors <= src@.len(),
    ensures
        r@.len() == num_vectors,
        forall|i: int| 0 <= i < num_vectors ==> #[trigger] r@[i] == word_at(src@, i),
{
    let len: usize = src.len();
    let mut out: Vec<u32> = Vec::new();
    let mut i: usize = 0;
    while i < num_vectors
        invariant
            i <= num_vectors,
            4 * num_vectors <= src@.len() == len,
            out@.len() == i,
            forall|k: int| 0 <= k < i ==> #[trigger] out@[k] == word_at(src@, k),
        decreases num_vectors - i,
    {
        let at: usize = 4 * i;
        let w: u32 = src[at] as u32 + 256 * (src[at + 1] as u32) + 0x1_0000 * (src[at + 2] as u32)
            + 0x100_0000 * (src[at + 3] as u32);
        out.push(w);
        i += 1;
    }
    out
}

/// What was written to a buffer is read back from it.
pub proof fn law_buffer_round_trip(query: Seq<u32>, buffer: Seq<u8>, i: int)
    requires
        0 <= i < query.len(),
        4 * query.len() <= buffer.len(),
        forall|h: int, k: int|
            0 <= h < query.len() && 0 <= k < 4 ==> buffer[4 * h + k] == #[trigger] word_bytes(
                query[h],
            )[k],
    ensures
        word_at(buffer, i) == query[i],
{
    let w = query[i];
    assert(buffer[4 * i + 0] == word_bytes(w)[0]);
    assert(buffer[4 * i + 1] == word_bytes(w)[1]);
    assert(buffer[4 * i + 2] == word_bytes(w)[2]);
    assert(buffer[4 * i + 3] == word_bytes(w)[3]);
}

/// A group has as many threads as a power of two that is no less than the bytes of a
/// vector, from 32 to 256.
pub proof fn law_threads_are_a_power_of_two(bytes: nat)
    ensures
        exists|k: nat| group_threads(bytes) == #[trigger] pow2(k),
        bytes <= 256 ==> group_threads(bytes) >= bytes,
        group_threads(bytes) >= 32,
        bytes > 32 && bytes <= 256 ==> group_threads(bytes) < 2 * bytes,
{
    let n = if bytes < 32 {
        32
    } else if bytes > 256 {
        256nat
    } else {
        bytes
    };
    law_next_power(n, 0);
    let k = choose|k: nat| next_power(n) == #[trigger] pow2(k);
    if k > 0 {
        law_next_power(n, (k - 1) as nat);
        vstd::arithmetic::power2::lemma_pow2_unfold(k);
        vstd::arithmetic::power2::lemma_pow2_pos((k - 1) as nat);
    } else {
        vstd::arithmetic::power2::lemma2_to64();
    }
}

/// The bytes of one more vector stand behind those of the others.
pub proof fn law_bytes_stand_behind_each_other(vectors: Seq<Vec<u8>>, v: Vec<u8>)
    ensures
        joined_bytes(Seq::empty()).len() == 0,
        joined_bytes(vectors.push(v)) == joined_bytes(vectors) + v@,
{
    assert(vectors.push(v).drop_last() =~= vectors);
}

} // verus!
