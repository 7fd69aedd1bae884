//! Vectors in two tensors of two-bit codes: one for all channels, one for the
//! residuals of the boosted ones.

use bitvec::order::Lsb0;
use bitvec::vec::BitVec;
use vstd::prelude::*;

use super::grid::{
    grid, grid_codes, grid_scale, grid_value, grid_values, law_codes_fit_their_width, least,
    value_of, values_of, Grid,
};
use super::packing::{
    bytes_for, law_unpack_undoes_pack, lemma_widths, pack_codes, packed, packed_len, unpack_codes,
    unpacked,
};
use crate::bits::{bits_value_key, value_key};
use crate::order::{
    candidate_models, lemma_ranked_places, rank_candidates, ranked, Candidate, CandidateModel,
};
use crate::single::{
    add_singles, count_above, difference_bits, divide_singles, integer_bits, multiply_singles,
    product_bits, quotient_bits, round_up, single_of, subtract_singles, sum_bits,
};

verus! {

/// The settings of the two tensors.
#[derive(Clone, Copy, Debug, PartialEq, Eq, Structural)]
pub struct KittyConfig {
    /// The share of the channels that is boosted, as the bits of a number.
    pub boost_ratio: u32,
    /// The number of channels.
    pub dim: usize,
}

impl Default for KittyConfig {
    fn default() -> (r: Self)
        ensures
            r == (KittyConfig { boost_ratio: 0x3e80_0000, dim: 384 }),
    {
        KittyConfig { boost_ratio: 0x3e80_0000, dim: 384 }
    }
}

/// The number of channels that a share of them is, rounded up.
pub open spec fn share(dim: usize, ratio: u32) -> usize {
    count_above(product_bits(integer_bits(dim as nat), ratio))
}

fn count_share(dim: usize, ratio: u32) -> (r: usize)
    ensures
        r == share(dim, ratio),
{
    round_up(multiply_singles(single_of(dim as u64), ratio))
}

/// Bits in a `bitvec::vec::BitVec`, the first one lowest in its byte.
#[verifier::external_body]
pub struct ChannelBits {
    bits: BitVec<u8, Lsb0>,
}

/// The bits of a `BitVec`, in order.
pub uninterp spec fn channel_bits(b: ChannelBits) -> Seq<bool>;

/// `BitVec::repeat` of `false`: so many bits, none of them set. It panics where
/// there are more bits than a bit-vector can hold, which is left out.
#[verifier::external_body]
fn no_bits(len: usize) -> (r: ChannelBits)
    requires
        len <= usize::MAX / 8,
    ensures
        channel_bits(r) == Seq::new(len as nat, |i: int| false),
{
    ChannelBits { bits: BitVec::repeat(false, len) }
}

/// `BitSlice::set` to `true`: the bit is set and the others stay. It panics
/// beyond the last bit, which is left out.
#[verifier::external_body]
fn set_bit(b: &mut ChannelBits, i: usize)
    requires
        i < channel_bits(*old(b)).len(),
    ensures
        channel_bits(*final(b)) == channel_bits(*old(b)).update(i as int, true),
{
    b.bits.set(i, true);
}

/// `BitSlice::index`: whether the bit is set. It panics beyond the last bit,
/// which is left out.
#[verifier::external_body]
fn get_bit(b: &ChannelBits, i: usize) -> (r: bool)
    requires
        i < channel_bits(*b).len(),
    ensures
        r == channel_bits(*b)[i as int],
{
    b.bits[i]
}

/// How much a channel loses at two bits, as the bits of a number.
#[derive(Clone, Copy, Debug, PartialEq, Eq, Structural)]
pub struct ChannelSensitivity {
    pub channel_idx: usize,
    pub mse_score: u32,
}

/// Channels as candidates, the most sensitive first.
pub open spec fn channel_candidates(s: Seq<ChannelSensitivity>) -> Seq<CandidateModel> {
    Seq::new(
        s.len(),
        |i: int|
            CandidateModel {
                key: value_key(s[i].mse_score) as i64,
                id: Seq::empty(),
                index: i as usize,
            },
    )
}

/// The channels to be boosted, the most sensitive first.
pub open spec fn chosen_channels(s: Seq<ChannelSensitivity>, num_boost: nat) -> Seq<usize> {
    let order = ranked(channel_candidates(s));
    let n = if num_boost < s.len() {
        num_boost
    } else {
        s.len()
    };
    Seq::new(n, |i: int| s[order[i].index as int].channel_idx)
}

/// The channels that settings boost, the most sensitive first.
pub open spec fn boosted_by(s: Seq<ChannelSensitivity>, config: KittyConfig) -> Seq<usize> {
    chosen_channels(s, share(config.dim, config.boost_ratio) as nat)
}

/// The channels that can be listed: those whose number has sixteen bits.
pub const LISTED_CHANNELS: usize = 0x1_0000;

/// A channel as it is listed, in sixteen bits.
pub open spec fn listed(channel: usize) -> u16 {
    channel as u16
}

pub open spec fn listed_all(channels: Seq<usize>) -> Seq<u16> {
    channels.map_values(|c: usize| listed(c))
}

/// Whether listed channels are channels.
pub open spec fn are_channels(indices: Seq<u16>, dim: usize) -> bool {
    forall|j: int| 0 <= j < indices.len() ==> (#[trigger] indices[j]) < dim
}

/// Whether numbers do not fall.
pub open spec fn is_ascending(s: Seq<u16>) -> bool {
    forall|i: int, j: int| 0 <= i < j < s.len() ==> #[trigger] s[i] <= #[trigger] s[j]
}

/// Whether a bit is set exactly for the channels.
pub open spec fn marks(bits: Seq<bool>, channels: Seq<usize>) -> bool {
    forall|c: int|
        0 <= c < bits.len() ==> #[trigger] bits[c] == channels.contains(c as usize)
}

/// Which channels are boosted; one map for all vectors of a segment.
pub struct KittyBoostMap {
    /// A bit for each channel.
    pub boosted_channels: ChannelBits,
    /// The boosted channels in ascending order.
    pub boosted_indices: Vec<u16>,
    pub dim: usize,
}

/// Whether a map boosts the channels: their bits are set, and they are listed
/// in order, as often as they are given.
pub open spec fn boosts(m: KittyBoostMap, dim: usize, channels: Seq<usize>) -> bool {
    &&& m.dim == dim
    &&& channel_bits(m.boosted_channels).len() == dim
    &&& marks(channel_bits(m.boosted_channels), channels)
    &&& is_ascending(m.boosted_indices@)
    &&& m.boosted_indices@.to_multiset() == listed_all(channels).to_multiset()
}

fn insert_ascending(v: &mut Vec<u16>, x: u16)
    requires
        is_ascending(old(v)@),
    ensures
        is_ascending(final(v)@),
        final(v)@.to_multiset() == old(v)@.to_multiset().insert(x),
        final(v)@.len() == old(v)@.len() + 1,
        forall|k: int|
            0 <= k < final(v)@.len() ==> #[trigger] final(v)@[k] == x || old(v)@.contains(
                final(v)@[k],
            ),
{
    broadcast use vstd::seq_lib::group_to_multiset_ensures;

    let ghost before = v@;
    let mut at: usize = v.len();
    while at > 0 && v[at - 1] > x
        invariant
            at <= v@.len(),
            v@ == before,
            forall|i: int| at <= i < v@.len() ==> #[trigger] v@[i] > x,
        decreases at,
    {
        at -= 1;
    }
    v.insert(at, x);
    proof {
        assert forall|i: int, j: int| 0 <= i < j < v@.len() implies #[trigger] v@[i]
            <= #[trigger] v@[j] by {
            let a = if i < at {
                before[i]
            } else if i == at {
                x
            } else {
                before[i - 1]
            };
            let b = if j < at {
                before[j]
            } else if j == at {
                x
            } else {
                before[j - 1]
            };
            assert(v@[i] == a);
            assert(v@[j] == b);
            if at > 0 {
                assert(before[at - 1] <= x);
                if j == at && i < at - 1 {
                    assert(before[i] <= before[at - 1]);
                }
            }
        }
        assert(v@ == before.insert(at as int, x));
        assert forall|k: int| 0 <= k < v@.len() implies #[trigger] v@[k] == x || before.contains(
            v@[k],
        ) by {
            if k < at {
                assert(before[k] == v@[k]);
            } else if k > at {
                assert(before[k - 1] == v@[k]);
            }
        }
    }
}

fn boost_channels(dim: usize, channels: &Vec<usize>) -> (r: KittyBoostMap)
    requires
        dim <= usize::MAX / 8,
        forall|i: int|
            0 <= i < channels@.len() ==> #[trigger] channels@[i] < dim && channels@[i]
                < LISTED_CHANNELS,
    ensures
        boosts(r, dim, channels@),
        r.boosted_indices@.len() == channels@.len(),
        are_channels(r.boosted_indices@, dim),
{
    broadcast use vstd::seq_lib::group_to_multiset_ensures;

    let mut bits: ChannelBits = no_bits(dim);
    let mut indices: Vec<u16> = Vec::new();
    let mut i: usize = 0;
    let ghost all = listed_all(channels@);
    assert(all.take(0) =~= Seq::<u16>::empty());
    assert(indices@ =~= Seq::<u16>::empty());
    assert(channels@.take(0) =~= Seq::<usize>::empty());
    while i < channels.len()
        invariant
            i <= channels@.len(),
            all == listed_all(channels@),
            forall|k: int|
                0 <= k < channels@.len() ==> #[trigger] channels@[k] < dim && channels@[k]
                    < LISTED_CHANNELS,
            channel_bits(bits).len() == dim,
            marks(channel_bits(bits), channels@.take(i as int)),
            is_ascending(indices@),
            are_channels(indices@, dim),
            indices@.len() == i,
            indices@.to_multiset() == all.take(i as int).to_multiset(),
        decreases channels@.len() - i,
    {
        let c: usize = channels[i];
        let ghost old_bits = channel_bits(bits);
        set_bit(&mut bits, c);
        insert_ascending(&mut indices, c as u16);
        proof {
            broadcast use vstd::seq_lib::group_to_multiset_ensures;

            let before = channels@.take(i as int);
            let after = channels@.take(i + 1);
            assert(after =~= before.push(c));
            assert(all.take(i + 1) =~= all.take(i as int).push(listed(c)));
            assert forall|k: int| 0 <= k < channel_bits(bits).len() implies #[trigger] channel_bits(
                bits,
            )[k] == after.contains(k as usize) by {
                if k == c {
                    assert(after[i as int] == c);
                } else {
                    assert(channel_bits(bits)[k] == old_bits[k]);
                    if before.contains(k as usize) {
                        let j = choose|j: int| 0 <= j < before.len() && before[j] == k as usize;
                        assert(after[j] == k as usize);
                    }
                    if after.contains(k as usize) {
                        let j = choose|j: int| 0 <= j < after.len() && after[j] == k as usize;
                        assert(j != i);
                        assert(before[j] == k as usize);
                    }
                }
            }
        }
        i += 1;
    }
    assert(all.take(channels@.len() as int) =~= all);
    assert(channels@.take(channels@.len() as int) =~= channels@);
    KittyBoostMap { boosted_channels: bits, boosted_indices: indices, dim }
}

impl KittyBoostMap {
    /// The map that boosts the most sensitive channels, as many as the settings
    /// say.
    pub fn from_sensitivities(
        sensitivities: &Vec<ChannelSensitivity>,
        config: &KittyConfig,
    ) -> (r: Self)
        requires
            config.dim <= usize::MAX / 8,
            forall|i: int|
                0 <= i < boosted_by(sensitivities@, *config).len() ==> #[trigger] boosted_by(
                    sensitivities@,
                    *config,
                )[i] < config.dim && boosted_by(sensitivities@, *config)[i] < LISTED_CHANNELS,
        ensures
            boosts(r, config.dim, boosted_by(sensitivities@, *config)),
            r.boosted_indices@.len() == boosted_by(sensitivities@, *config).len(),
            are_channels(r.boosted_indices@, config.dim),
    {
        let dim: usize = config.dim;
        let num_boost: usize = count_share(dim, config.boost_ratio);
        let len: usize = sensitivities.len();
        let ghost wanted = channel_candidates(sensitivities@);
        let mut cs: Vec<Candidate> = Vec::new();
        let mut i: usize = 0;
        while i < len
            invariant
                i <= len == sensitivities@.len(),
                wanted == channel_candidates(sensitivities@),
                candidate_models(cs@) =~= wanted.take(i as int),
            decreases len - i,
        {
            let ghost before = candidate_models(cs@);
            let c: Candidate = Candidate {
                key: bits_value_key(sensitivities[i].mse_score),
                id: String::new(),
                index: i,
            };
            cs.push(c);
            assert(c@ =~= wanted[i as int]);
            assert(candidate_models(cs@) =~= before.push(c@));
            i += 1;
        }
        assert(wanted.take(len as int) =~= wanted);
        let order: Vec<Candidate> = rank_candidates(cs);
        proof {
            lemma_ranked_places(wanted);
        }
        let n: usize = if num_boost < len {
            num_boost
        } else {
            len
        };
        let ghost goal = chosen_channels(sensitivities@, num_boost as nat);
        assert(goal == boosted_by(sensitivities@, *config));
        let mut channels: Vec<usize> = Vec::new();
        let mut k: usize = 0;
        while k < n
            invariant
                k <= n <= len == sensitivities@.len(),
                n == goal.len(),
                goal == chosen_channels(sensitivities@, num_boost as nat),
                wanted == channel_candidates(sensitivities@),
                candidate_models(order@) == ranked(wanted),
                order@.len() == len,
                forall|j: int| 0 <= j < len ==> (#[trigger] ranked(wanted)[j]).index < len,
                forall|j: int| 0 <= j < n ==> #[trigger] goal[j] < dim,
                channels@ =~= goal.take(k as int),
                forall|j: int| 0 <= j < channels@.len() ==> #[trigger] channels@[j] < dim,
            decreases n - k,
        {
            assert(candidate_models(order@)[k as int] == order@[k as int]@);
            assert(ranked(wanted)[k as int].index < len);
            let at: usize = order[k].index;
            let c: usize = sensitivities[at].channel_idx;
            assert(goal[k as int] == c);
            channels.push(c);
            k += 1;
        }
        assert(goal.take(n as int) =~= goal);
        boost_channels(dim, &channels)
    }

    /// The map that boosts the first channels, as many as their share.
    pub fn uniform(dim: usize, boost_ratio: u32) -> (r: Self)
        requires
            dim <= usize::MAX / 8,
            share(dim, boost_ratio) <= dim,
            share(dim, boost_ratio) <= LISTED_CHANNELS,
        ensures
            boosts(r, dim, Seq::new(share(dim, boost_ratio) as nat, |i: int| i as usize)),
            r.boosted_indices@.len() == share(dim, boost_ratio),
            are_channels(r.boosted_indices@, dim),
    {
        let n: usize = count_share(dim, boost_ratio);
        let mut channels: Vec<usize> = Vec::new();
        let mut i: usize = 0;
        while i < n
            invariant
                i <= n <= dim,
                n <= LISTED_CHANNELS,
                channels@ =~= Seq::new(i as nat, |k: int| k as usize),
                forall|k: int|
                    0 <= k < channels@.len() ==> #[trigger] channels@[k] < dim && channels@[k]
                        < LISTED_CHANNELS,
            decreases n - i,
        {
            channels.push(i);
            i += 1;
        }
        boost_channels(dim, &channels)
    }

    /// The number of boosted channels.
    pub fn num_boosted(&self) -> (r: usize)
        ensures
            r == self.boosted_indices@.len(),
    {
        self.boosted_indices.len()
    }

    /// Whether a channel is boosted.
    pub fn is_boosted(&self, channel: usize) -> (r: bool)
        requires
            channel < channel_bits(self.boosted_channels).len(),
        ensures
            r == channel_bits(self.boosted_channels)[channel as int],
    {
        get_bit(&self.boosted_channels, channel)
    }
}

/// A vector in two tensors. Scales and zero points are bits of numbers.
pub struct KittyVector {
    /// Two bits for each channel.
    pub base: Vec<u8>,
    /// Two bits for the residual of each boosted channel.
    pub boost: Vec<u8>,
    pub base_scale: u32,
    pub base_zero: u32,
    pub boost_scale: u32,
    pub boost_zero: u32,
}

/// The residuals of boosted channels: what codes of two bits leave of them.
pub open spec fn residuals(vector: Seq<u32>, indices: Seq<u16>) -> Seq<u32> {
    indices.map_values(
        |i: u16|
            difference_bits(
                vector[i as int],
                grid_value(
                    grid_codes(vector, 3)[i as int],
                    grid_scale(vector, 3),
                    least(vector, vector.len() as int),
                ),
            ),
    )
}

/// A vector in two tensors: the codes of its channels on their grid, and those
/// of the residuals of the boosted channels on theirs. Without boosted channels
/// there is no second tensor, and its scale and zero point are zero.
pub fn kitty_quantize(vector: &Vec<u32>, boost_map: &KittyBoostMap) -> (r: KittyVector)
    requires
        vector@.len() == boost_map.dim,
        are_channels(boost_map.boosted_indices@, boost_map.dim),
        boost_map.dim + 8 <= usize::MAX,
        boost_map.boosted_indices@.len() + 8 <= usize::MAX,
    ensures
        r.base@ == packed(grid_codes(vector@, 3), 2, boost_map.dim as nat),
        r.base_scale == grid_scale(vector@, 3),
        r.base_zero == least(vector@, vector@.len() as int),
        ({
            let rest = residuals(vector@, boost_map.boosted_indices@);
            if rest.len() == 0 {
                r.boost@.len() == 0 && r.boost_scale == 0 && r.boost_zero == 0
            } else {
                &&& r.boost@ == packed(grid_codes(rest, 3), 2, rest.len())
                &&& r.boost_scale == grid_scale(rest, 3)
                &&& r.boost_zero == least(rest, rest.len() as int)
            }
        }),
{
    proof {
        lemma_widths();
        law_codes_fit_their_width(vector@, 3, 2);
    }
    let base: Grid = grid(vector, 3);
    let n: usize = boost_map.num_boosted();
    let packed_base: Vec<u8> = pack_codes(base.codes.as_slice(), 2, boost_map.dim);
    if n == 0 {
        return KittyVector {
            base: packed_base,
            boost: Vec::new(),
            base_scale: base.scale,
            base_zero: base.zero,
            boost_scale: 0,
            boost_zero: 0,
        };
    }
    let ghost goal = residuals(vector@, boost_map.boosted_indices@);
    let mut rest: Vec<u32> = Vec::new();
    let mut j: usize = 0;
    while j < n
        invariant
            j <= n == boost_map.boosted_indices@.len(),
            are_channels(boost_map.boosted_indices@, boost_map.dim),
            vector@.len() == boost_map.dim,
            base.codes@ == grid_codes(vector@, 3),
            base.scale == grid_scale(vector@, 3),
            base.zero == least(vector@, vector@.len() as int),
            goal == residuals(vector@, boost_map.boosted_indices@),
            rest@ =~= goal.take(j as int),
        decreases n - j,
    {
        assert(boost_map.boosted_indices@[j as int] < boost_map.dim);
        let i: usize = boost_map.boosted_indices[j] as usize;
        let level: u32 = value_of(base.codes[i], base.scale, base.zero);
        rest.push(subtract_singles(vector[i], level));
        j += 1;
    }
    assert(rest@ =~= goal);
    proof {
        law_codes_fit_their_width(goal, 3, 2);
    }
    let boost: Grid = grid(&rest, 3);
    KittyVector {
        base: packed_base,
        boost: pack_codes(boost.codes.as_slice(), 2, n),
        base_scale: base.scale,
        base_zero: base.zero,
        boost_scale: boost.scale,
        boost_zero: boost.zero,
    }
}

/// Numbers after the first `n` boosted channels got what their second codes
/// stand for.
pub open spec fn boosted_values(
    base: Seq<u32>,
    indices: Seq<u16>,
    boosts: Seq<u32>,
    n: int,
) -> Seq<u32>
    decreases n,
{
    if n <= 0 {
        base
    } else {
        let before = boosted_values(base, indices, boosts, n - 1);
        let i = indices[n - 1] as int;
        before.update(i, sum_bits(before[i], boosts[n - 1]))
    }
}

/// The numbers that a vector in two tensors stands for.
pub open spec fn restored(kv: KittyVector, indices: Seq<u16>, dim: nat) -> Seq<u32> {
    boosted_values(
        grid_values(unpacked(kv.base@, 2, dim), kv.base_scale, kv.base_zero),
        indices,
        grid_values(unpacked(kv.boost@, 2, indices.len()), kv.boost_scale, kv.boost_zero),
        indices.len() as int,
    )
}

/// The numbers that a vector in two tensors stands for.
pub fn kitty_dequantize(kv: &KittyVector, boost_map: &KittyBoostMap) -> (r: Vec<u32>)
    requires
        packed_len(boost_map.dim as nat, 2) <= kv.base@.len(),
        packed_len(boost_map.boosted_indices@.len(), 2) <= kv.boost@.len(),
        are_channels(boost_map.boosted_indices@, boost_map.dim),
    ensures
        r@ == restored(*kv, boost_map.boosted_indices@, boost_map.dim as nat),
        r@.len() == boost_map.dim,
{
    let n: usize = boost_map.boosted_indices.len();
    let codes: Vec<u8> = unpack_codes(kv.base.as_slice(), 2, boost_map.dim);
    let second: Vec<u8> = unpack_codes(kv.boost.as_slice(), 2, n);
    let mut out: Vec<u32> = values_of(&codes, kv.base_scale, kv.base_zero);
    let more: Vec<u32> = values_of(&second, kv.boost_scale, kv.boost_zero);
    let ghost base = out@;
    let mut j: usize = 0;
    while j < n
        invariant
            j <= n == boost_map.boosted_indices@.len() == more@.len(),
            are_channels(boost_map.boosted_indices@, boost_map.dim),
            out@.len() == boost_map.dim,
            out@ == boosted_values(base, boost_map.boosted_indices@, more@, j as int),
        decreases n - j,
    {
        assert(boost_map.boosted_indices@[j as int] < boost_map.dim);
        let i: usize = boost_map.boosted_indices[j] as usize;
        let ghost before = out@;
        let x: u32 = add_singles(out[i], more[j]);
        out[i] = x;
        assert(out@ =~= before.update(i as int, x));
        j += 1;
    }
    out
}

/// The numbers of one channel.
pub open spec fn column(data: Seq<Vec<u32>>, channel: int) -> Seq<u32> {
    data.map_values(|v: Vec<u32>| v@[channel])
}

/// The squared errors of the first `n` numbers at two bits, added up in their
/// order.
pub open spec fn errors(v: Seq<u32>, n: int) -> u32
    decreases n,
{
    if n <= 0 {
        0
    } else {
        let e = difference_bits(
            v[n - 1],
            grid_value(grid_codes(v, 3)[n - 1], grid_scale(v, 3), least(v, v.len() as int)),
        );
        sum_bits(errors(v, n - 1), product_bits(e, e))
    }
}

/// The mean squared error of numbers at two bits; zero where there are none.
pub open spec fn mean_error(v: Seq<u32>) -> u32 {
    if v.len() == 0 {
        0
    } else {
        quotient_bits(errors(v, v.len() as int), integer_bits(v.len()))
    }
}

fn measure(v: &Vec<u32>) -> (r: u32)
    ensures
        r == mean_error(v@),
{
    if v.len() == 0 {
        return 0;
    }
    let g: Grid = grid(v, 3);
    let mut total: u32 = 0;
    let mut i: usize = 0;
    while i < v.len()
        invariant
            i <= v@.len(),
            g.codes@ == grid_codes(v@, 3),
            g.scale == grid_scale(v@, 3),
            g.zero == least(v@, v@.len() as int),
            total == errors(v@, i as int),
        decreases v@.len() - i,
    {
        let e: u32 = subtract_singles(v[i], value_of(g.codes[i], g.scale, g.zero));
        total = add_singles(total, multiply_singles(e, e));
        i += 1;
    }
    divide_singles(total, single_of(v.len() as u64))
}

/// How much each channel loses at two bits.
pub fn compute_channel_sensitivities(calibration_data: &Vec<Vec<u32>>, dim: usize) -> (r: Vec<
    ChannelSensitivity,
>)
    requires
        forall|i: int|
            0 <= i < calibration_data@.len() ==> dim <= (#[trigger] calibration_data@[i])@.len(),
    ensures
        r@ == Seq::new(
            dim as nat,
            |c: int|
                ChannelSensitivity {
                    channel_idx: c as usize,
                    mse_score: mean_error(column(calibration_data@, c)),
                },
        ),
{
    let mut out: Vec<ChannelSensitivity> = Vec::new();
    let mut c: usize = 0;
    while c < dim
        invariant
            c <= dim,
            forall|i: int|
                0 <= i < calibration_data@.len() ==> dim <= (
                #[trigger] calibration_data@[i])@.len(),
            out@ =~= Seq::new(
                c as nat,
                |k: int|
                    ChannelSensitivity {
                        channel_idx: k as usize,
                        mse_score: mean_error(column(calibration_data@, k)),
                    },
            ),
        decreases dim - c,
    {
        let mut values: Vec<u32> = Vec::new();
        let mut i: usize = 0;
        while i < calibration_data.len()
            invariant
                i <= calibration_data@.len(),
                c < dim,
                forall|k: int|
                    0 <= k < calibration_data@.len() ==> dim <= (
                    #[trigger] calibration_data@[k])@.len(),
                values@ =~= column(calibration_data@, c as int).take(i as int),
            decreases calibration_data@.len() - i,
        {
            assert(dim <= calibration_data@[i as int]@.len());
            values.push(calibration_data[i][c]);
            i += 1;
        }
        assert(values@ =~= column(calibration_data@, c as int));
        out.push(ChannelSensitivity { channel_idx: c, mse_score: measure(&values) });
        c += 1;
    }
    out
}

/// A vector in two tensors stands for the grid values of its codes, and in the
/// boosted channels for those of the residuals on top.
pub proof fn law_kitty_restores_levels(kv: KittyVector, vector: Seq<u32>, indices: Seq<u16>)
    requires
        kv.base@ == packed(grid_codes(vector, 3), 2, vector.len()),
        kv.base_scale == grid_scale(vector, 3),
        kv.base_zero == least(vector, vector.len() as int),
        kv.boost@ == packed(grid_codes(residuals(vector, indices), 3), 2, indices.len()),
        kv.boost_scale == grid_scale(residuals(vector, indices), 3),
        kv.boost_zero == least(residuals(vector, indices), indices.len() as int),
    ensures
        ({
            let rest = residuals(vector, indices);
            restored(kv, indices, vector.len()) == boosted_values(
                grid_values(
                    grid_codes(vector, 3),
                    grid_scale(vector, 3),
                    least(vector, vector.len() as int),
                ),
                indices,
                grid_values(
                    grid_codes(rest, 3),
                    grid_scale(rest, 3),
                    least(rest, rest.len() as int),
                ),
                indices.len() as int,
            )
        }),
{
    lemma_widths();
    let rest = residuals(vector, indices);
    law_codes_fit_their_width(vector, 3, 2);
    law_codes_fit_their_width(rest, 3, 2);
    law_unpack_undoes_pack(grid_codes(vector, 3), 2);
    law_unpack_undoes_pack(grid_codes(rest, 3), 2);
}

/// The bytes of a vector in two tensors with a share of the channels boosted:
/// the two tensors, and four numbers.
pub fn kitty_memory_bytes(dim: usize, boost_ratio: u32) -> (r: usize)
    requires
        packed_len(dim as nat, 2) + packed_len(share(dim, boost_ratio) as nat, 2) + 16
            <= usize::MAX,
    ensures
        r == packed_len(dim as nat, 2) + packed_len(share(dim, boost_ratio) as nat, 2) + 16,
{
    bytes_for(dim, 2) + bytes_for(count_share(dim, boost_ratio), 2) + 16
}

} // verus!
