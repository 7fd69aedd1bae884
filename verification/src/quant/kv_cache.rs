//! A cache of keys and values in few bits: which precision each layer gets, and
//! how layers lose precision when memory runs out.

use vstd::arithmetic::power2::pow2;
use vstd::prelude::*;

use super::precision::{lower_precision, precision_bits, KVPrecision};
use crate::bits::{bits_less, bits_value_key, is_nan_bits, less_bits, value_key};
use crate::order::{
    candidate_models, law_ranked_is_in_order, lemma_ranked_places, rank_candidates, ranked,
    Candidate, CandidateModel,
};
use crate::float::{
    aligned, fits, is_number, lemma_nearest_even_between, lemma_pow2_mono, lemma_pow2_step,
    lemma_pow2_values, lemma_rounded, quotient, rounded, rounded_size, scaled, sum, Number,
};
use crate::rounding::{
    lemma_integer_range, lemma_kept_integer, lemma_quotient_at_most_one,
    lemma_rounding_is_monotone, lemma_rounding_scales, lemma_sum_at, no_greater,
};
use crate::single::{
    add_singles, bits_for, divide_singles, integer_bits, lemma_number_is_kept, number_of,
    quotient_bits, ratio_bits, single_of, sum_bits, INFINITY, NAN, NEGATIVE_ZERO,
    TWO,
};

verus! {

/// The bits of a key and a value together.
pub open spec fn pair_bits(p: (KVPrecision, KVPrecision)) -> nat {
    precision_bits(p.0) + precision_bits(p.1)
}

/// Of the first `n` pairs the one of the most bits below a limit, the first of
/// equal ones.
pub open spec fn best_below(
    allowed: Seq<(KVPrecision, KVPrecision)>,
    limit: nat,
    n: int,
) -> Option<(KVPrecision, KVPrecision)>
    decreases n,
{
    if n <= 0 {
        None
    } else {
        let before = best_below(allowed, limit, n - 1);
        let p = allowed[n - 1];
        let is_better = match before {
            Some(q) => pair_bits(q) < pair_bits(p),
            None => true,
        };
        if pair_bits(p) < limit && is_better {
            Some(p)
        } else {
            before
        }
    }
}

/// The pair of the most bits that is allowed, and full precision if none is.
pub open spec fn highest_pair(allowed: Seq<(KVPrecision, KVPrecision)>) -> (
    KVPrecision,
    KVPrecision,
) {
    match best_below(allowed, 33, allowed.len() as int) {
        Some(p) => p,
        None => (KVPrecision::FP16, KVPrecision::FP16),
    }
}

/// The next lower precision, and the lowest one itself.
pub open spec fn lower_or_same(p: KVPrecision) -> KVPrecision {
    match lower_precision(p) {
        Some(q) => q,
        None => p,
    }
}

/// The pair that a layer gets next: the next lower one that is allowed, and as a
/// last resort the next lower precisions of key and value.
pub open spec fn lower_pair(
    p: (KVPrecision, KVPrecision),
    allowed: Seq<(KVPrecision, KVPrecision)>,
    is_last_resort: bool,
) -> Option<(KVPrecision, KVPrecision)> {
    if !is_last_resort {
        best_below(allowed, pair_bits(p), allowed.len() as int)
    } else if p == (KVPrecision::INT2, KVPrecision::INT2) {
        None
    } else {
        Some((lower_or_same(p.0), lower_or_same(p.1)))
    }
}

proof fn lemma_best_below(allowed: Seq<(KVPrecision, KVPrecision)>, limit: nat, n: int)
    requires
        n <= allowed.len(),
    ensures
        best_below(allowed, limit, n) matches Some(p) ==> pair_bits(p) < limit
            && allowed.contains(p),
        forall|k: int|
            0 <= k < n && pair_bits(#[trigger] allowed[k]) < limit ==> (best_below(
                allowed,
                limit,
                n,
            ) matches Some(p) && pair_bits(allowed[k]) <= pair_bits(p)),
    decreases n,
{
    if n > 0 {
        lemma_best_below(allowed, limit, n - 1);
        assert(allowed.contains(allowed[n - 1]));
    }
}

/// A lower pair has fewer bits.
pub proof fn lemma_lower_pair(
    p: (KVPrecision, KVPrecision),
    allowed: Seq<(KVPrecision, KVPrecision)>,
    is_last_resort: bool,
)
    ensures
        lower_pair(p, allowed, is_last_resort) matches Some(q) ==> pair_bits(q) < pair_bits(p),
{
    lemma_best_below(allowed, pair_bits(p), allowed.len() as int);
}

/// Layers as candidates, the least sensitive first.
pub open spec fn layer_candidates(combined: Seq<u32>) -> Seq<CandidateModel> {
    Seq::new(
        combined.len(),
        |i: int|
            CandidateModel {
                key: (-value_key(combined[i])) as i64,
                id: Seq::empty(),
                index: i as usize,
            },
    )
}

/// The pairs after layers were lowered until their mean bits reach a target: the
/// least sensitive layer as far as it goes, then the next, from the `j`-th on.
pub open spec fn tuned(
    order: Seq<CandidateModel>,
    allowed: Seq<(KVPrecision, KVPrecision)>,
    target: u32,
    is_last_resort: bool,
    pairs: Seq<(KVPrecision, KVPrecision)>,
    j: int,
) -> Seq<(KVPrecision, KVPrecision)>
    decreases order.len() - j, pair_bits(pairs[order[j].index as int]),
{
    if j < 0 || j >= order.len() || !less_bits(target, average_bits(pairs)) {
        pairs
    } else {
        let at = order[j].index as int;
        proof {
            lemma_lower_pair(pairs[at], allowed, is_last_resort);
        }
        match lower_pair(pairs[at], allowed, is_last_resort) {
            Some(p) if at < pairs.len() => tuned(
                order,
                allowed,
                target,
                is_last_resort,
                pairs.update(at, p),
                j,
            ),
            _ => tuned(order, allowed, target, is_last_resort, pairs, j + 1),
        }
    }
}

/// The precisions of all layers, from their combined sensitivities. All start at
/// the highest pair, and go down the allowed ones, the least sensitive layer
/// first, until the target is reached; where it is not, they go down further.
pub open spec fn precisions_for(
    combined: Seq<u32>,
    allowed: Seq<(KVPrecision, KVPrecision)>,
    target: u32,
) -> Seq<(KVPrecision, KVPrecision)> {
    let order = ranked(layer_candidates(combined));
    let start = Seq::new(combined.len(), |i: int| highest_pair(allowed));
    tuned(order, allowed, target, true, tuned(order, allowed, target, false, start, 0), 0)
}

/// Half the bits of a pair of precisions.
pub open spec fn mean_bits(p: (KVPrecision, KVPrecision)) -> u32 {
    quotient_bits(integer_bits(precision_bits(p.0) + precision_bits(p.1)), TWO)
}

/// The sum of the mean bits of pairs.
pub open spec fn mean_bits_sum(pairs: Seq<(KVPrecision, KVPrecision)>) -> u32
    decreases pairs.len(),
{
    if pairs.len() == 0 {
        NEGATIVE_ZERO
    } else {
        sum_bits(mean_bits_sum(pairs.drop_last()), mean_bits(pairs.last()))
    }
}

/// The mean bits of an element over all layers: no number without layers.
pub open spec fn average_bits(pairs: Seq<(KVPrecision, KVPrecision)>) -> u32 {
    quotient_bits(mean_bits_sum(pairs), integer_bits(pairs.len()))
}

/// A layer of a profile. Sensitivities are bits of single-precision numbers.
#[derive(Clone, Copy, Debug, PartialEq, Eq, Structural)]
pub struct LayerSensitivity {
    pub layer_idx: usize,
    pub key_sensitivity: u32,
    pub value_sensitivity: u32,
    pub key_default_precision: KVPrecision,
    pub value_default_precision: KVPrecision,
}

/// The sum of the two sensitivities of a layer.
pub open spec fn combined_sensitivity(l: LayerSensitivity) -> u32 {
    sum_bits(l.key_sensitivity, l.value_sensitivity)
}

/// The settings of a profile.
#[derive(Debug, PartialEq, Eq)]
pub struct KVTunerConfig {
    /// The number of layers of the model.
    pub num_layers: usize,
    /// The mean bits of an element to aim at, as the bits of a number.
    pub target_avg_bits: u32,
    /// The pairs of precisions that hardware is good at.
    pub allowed_pairs: Vec<(KVPrecision, KVPrecision)>,
}

impl Default for KVTunerConfig {
    fn default() -> (r: Self)
        ensures
            r.num_layers == 32,
            r.target_avg_bits == 0x4080_0000,
            r.allowed_pairs@ == seq![
                (KVPrecision::INT8, KVPrecision::INT4),
                (KVPrecision::INT4, KVPrecision::INT4),
                (KVPrecision::INT4, KVPrecision::INT2),
                (KVPrecision::INT2, KVPrecision::INT4),
                (KVPrecision::INT8, KVPrecision::INT8),
                (KVPrecision::FP16, KVPrecision::FP16),
            ],
    {
        let pairs: Vec<(KVPrecision, KVPrecision)> = vec![
            (KVPrecision::INT8, KVPrecision::INT4),
            (KVPrecision::INT4, KVPrecision::INT4),
            (KVPrecision::INT4, KVPrecision::INT2),
            (KVPrecision::INT2, KVPrecision::INT4),
            (KVPrecision::INT8, KVPrecision::INT8),
            (KVPrecision::FP16, KVPrecision::FP16),
        ];
        KVTunerConfig { num_layers: 32, target_avg_bits: 0x4080_0000, allowed_pairs: pairs }
    }
}

/// The precisions of the layers of a model.
#[derive(Debug, PartialEq, Eq)]
pub struct KVTunerProfile {
    pub layers: Vec<LayerSensitivity>,
    /// The mean bits of an element, as the bits of a number.
    pub avg_bits: u32,
    /// The memory in relation to 16 bits for each element.
    pub memory_ratio: u32,
}

fn find_below(allowed: &Vec<(KVPrecision, KVPrecision)>, limit: usize) -> (r: Option<
    (KVPrecision, KVPrecision),
>)
    ensures
        r == best_below(allowed@, limit as nat, allowed@.len() as int),
{
    let mut best: Option<(KVPrecision, KVPrecision)> = None;
    let mut i: usize = 0;
    while i < allowed.len()
        invariant
            i <= allowed@.len(),
            best == best_below(allowed@, limit as nat, i as int),
        decreases allowed@.len() - i,
    {
        let p: (KVPrecision, KVPrecision) = allowed[i];
        let bits: usize = p.0.bits() + p.1.bits();
        let better: bool = match best {
            Some(q) => q.0.bits() + q.1.bits() < bits,
            None => true,
        };
        if bits < limit && better {
            best = Some(p);
        }
        i += 1;
    }
    best
}

fn lower_of(p: KVPrecision) -> (r: KVPrecision)
    ensures
        r == lower_or_same(p),
{
    match p.degrade() {
        Some(q) => q,
        None => p,
    }
}

fn next_pair(
    p: (KVPrecision, KVPrecision),
    allowed: &Vec<(KVPrecision, KVPrecision)>,
    is_last_resort: bool,
) -> (r: Option<(KVPrecision, KVPrecision)>)
    ensures
        r == lower_pair(p, allowed@, is_last_resort),
{
    if !is_last_resort {
        find_below(allowed, p.0.bits() + p.1.bits())
    } else if p.0 == KVPrecision::INT2 && p.1 == KVPrecision::INT2 {
        None
    } else {
        Some((lower_of(p.0), lower_of(p.1)))
    }
}

fn tune(
    order: &Vec<Candidate>,
    allowed: &Vec<(KVPrecision, KVPrecision)>,
    target: u32,
    is_last_resort: bool,
    pairs: &mut Vec<(KVPrecision, KVPrecision)>,
)
    requires
        order@.len() == old(pairs)@.len(),
        forall|k: int|
            0 <= k < order@.len() ==> (#[trigger] candidate_models(order@)[k]).index
                < order@.len(),
    ensures
        final(pairs)@ == tuned(
            candidate_models(order@),
            allowed@,
            target,
            is_last_resort,
            old(pairs)@,
            0,
        ),
        final(pairs)@.len() == old(pairs)@.len(),
{
    let ghost models = candidate_models(order@);
    let ghost goal = tuned(models, allowed@, target, is_last_resort, pairs@, 0);
    let len: usize = pairs.len();
    let mut j: usize = 0;
    while j < len && bits_less(target, average_of(pairs))
        invariant
            j <= len == order@.len() == pairs@.len() == models.len(),
            models == candidate_models(order@),
            forall|k: int| 0 <= k < len ==> (#[trigger] models[k]).index < len,
            goal == tuned(models, allowed@, target, is_last_resort, pairs@, j as int),
        decreases len - j, pair_bits(pairs@[models[j as int].index as int]),
    {
        assert(models[j as int] == order@[j as int]@);
        let at: usize = order[j].index;
        proof {
            lemma_lower_pair(pairs@[at as int], allowed@, is_last_resort);
        }
        match next_pair(pairs[at], allowed, is_last_resort) {
            Some(p) => {
                pairs[at] = p;
            },
            None => {
                j += 1;
            },
        }
    }
}

/// The precision of each layer, from the sum of its two sensitivities.
fn assign_precisions(
    combined: &Vec<u32>,
    allowed: &Vec<(KVPrecision, KVPrecision)>,
    target: u32,
) -> (r: Vec<(KVPrecision, KVPrecision)>)
    ensures
        r@ == precisions_for(combined@, allowed@, target),
        r@.len() == combined@.len(),
{
    let len: usize = combined.len();
    let ghost wanted = layer_candidates(combined@);
    let top: (KVPrecision, KVPrecision) = match find_below(allowed, 33) {
        Some(p) => p,
        None => (KVPrecision::FP16, KVPrecision::FP16),
    };
    let mut cs: Vec<Candidate> = Vec::new();
    let mut out: Vec<(KVPrecision, KVPrecision)> = Vec::new();
    let mut i: usize = 0;
    while i < len
        invariant
            i <= len == combined@.len(),
            wanted == layer_candidates(combined@),
            candidate_models(cs@) =~= wanted.take(i as int),
            out@ =~= Seq::new(i as nat, |k: int| top),
        decreases len - i,
    {
        let ghost before = candidate_models(cs@);
        let c: Candidate = Candidate {
            key: -bits_value_key(combined[i]),
            id: String::new(),
            index: i,
        };
        cs.push(c);
        assert(c@ =~= wanted[i as int]);
        assert(candidate_models(cs@) =~= before.push(c@));
        out.push(top);
        i += 1;
    }
    assert(wanted.take(len as int) =~= wanted);
    assert(out@ =~= Seq::new(combined@.len(), |k: int| highest_pair(allowed@)));
    let order: Vec<Candidate> = rank_candidates(cs);
    proof {
        lemma_ranked_places(wanted);
        assert(candidate_models(order@).len() == order@.len());
    }
    tune(&order, allowed, target, false, &mut out);
    tune(&order, allowed, target, true, &mut out);
    out
}

fn average_of(pairs: &Vec<(KVPrecision, KVPrecision)>) -> (r: u32)
    ensures
        r == average_bits(pairs@),
{
    let len: usize = pairs.len();
    let mut total: u32 = NEGATIVE_ZERO;
    let mut i: usize = 0;
    assert(pairs@.take(0) =~= Seq::empty());
    while i < len
        invariant
            i <= len == pairs@.len(),
            total == mean_bits_sum(pairs@.take(i as int)),
        decreases len - i,
    {
        assert(pairs@.take(i + 1).drop_last() =~= pairs@.take(i as int));
        assert(pairs@.take(i + 1).last() == pairs@[i as int]);
        let both: usize = pairs[i].0.bits() + pairs[i].1.bits();
        total = add_singles(total, divide_singles(single_of(both as u64), TWO));
        i += 1;
    }
    assert(pairs@.take(len as int) =~= pairs@);
    divide_singles(total, single_of(len as u64))
}

/// The sums of the sensitivities of keys and values.
pub open spec fn combined(keys: Seq<u32>, values: Seq<u32>) -> Seq<u32> {
    Seq::new(keys.len(), |i: int| sum_bits(keys[i], values[i]))
}

/// The profile of a model, from the sensitivities of its layers: all start at the
/// highest precision, and the least sensitive ones are lowered until the mean
/// bits of an element reach the target.
pub fn profile_kv_sensitivity(
    layer_key_mse: &Vec<u32>,
    layer_value_mse: &Vec<u32>,
    config: &KVTunerConfig,
) -> (r: KVTunerProfile)
    requires
        layer_key_mse@.len() == config.num_layers,
        layer_value_mse@.len() == config.num_layers,
    ensures
        ({
            let pairs = precisions_for(
                combined(layer_key_mse@, layer_value_mse@),
                config.allowed_pairs@,
                config.target_avg_bits,
            );
            &&& r.layers@ == Seq::new(
                config.num_layers as nat,
                |i: int|
                    LayerSensitivity {
                        layer_idx: i as usize,
                        key_sensitivity: layer_key_mse@[i],
                        value_sensitivity: layer_value_mse@[i],
                        key_default_precision: pairs[i].0,
                        value_default_precision: pairs[i].1,
                    },
            )
            &&& r.avg_bits == average_bits(pairs)
            &&& r.memory_ratio == quotient_bits(average_bits(pairs), 0x4180_0000)
        }),
        !less_bits(config.target_avg_bits, TWO) ==> !less_bits(
            config.target_avg_bits,
            r.avg_bits,
        ),
{
    let len: usize = config.num_layers;
    let ghost sums = combined(layer_key_mse@, layer_value_mse@);
    let mut both: Vec<u32> = Vec::new();
    let mut k: usize = 0;
    while k < len
        invariant
            k <= len,
            layer_key_mse@.len() == len,
            layer_value_mse@.len() == len,
            sums == combined(layer_key_mse@, layer_value_mse@),
            both@ =~= sums.take(k as int),
        decreases len - k,
    {
        both.push(add_singles(layer_key_mse[k], layer_value_mse[k]));
        k += 1;
    }
    assert(both@ =~= sums);
    let pairs: Vec<(KVPrecision, KVPrecision)> = assign_precisions(
        &both,
        &config.allowed_pairs,
        config.target_avg_bits,
    );
    let ghost goal = Seq::new(
        len as nat,
        |i: int|
            LayerSensitivity {
                layer_idx: i as usize,
                key_sensitivity: layer_key_mse@[i],
                value_sensitivity: layer_value_mse@[i],
                key_default_precision: pairs@[i].0,
                value_default_precision: pairs@[i].1,
            },
    );
    let mut layers: Vec<LayerSensitivity> = Vec::new();
    let mut i: usize = 0;
    while i < len
        invariant
            i <= len,
            layer_key_mse@.len() == len,
            layer_value_mse@.len() == len,
            pairs@.len() == len,
            goal == Seq::new(
                len as nat,
                |j: int|
                    LayerSensitivity {
                        layer_idx: j as usize,
                        key_sensitivity: layer_key_mse@[j],
                        value_sensitivity: layer_value_mse@[j],
                        key_default_precision: pairs@[j].0,
                        value_default_precision: pairs@[j].1,
                    },
            ),
            layers@ =~= goal.take(i as int),
        decreases len - i,
    {
        layers.push(
            LayerSensitivity {
                layer_idx: i,
                key_sensitivity: layer_key_mse[i],
                value_sensitivity: layer_value_mse[i],
                key_default_precision: pairs[i].0,
                value_default_precision: pairs[i].1,
            },
        );
        i += 1;
    }
    assert(layers@ =~= goal);
    proof {
        if !less_bits(config.target_avg_bits, TWO) {
            lemma_target_is_reached(sums, config.allowed_pairs@, config.target_avg_bits);
        }
    }
    let avg_bits: u32 = average_of(&pairs);
    KVTunerProfile { layers, avg_bits, memory_ratio: divide_singles(avg_bits, 0x4180_0000) }
}

/// As many layers of the lowest precision.
spec fn lowest(n: nat) -> Seq<(KVPrecision, KVPrecision)> {
    Seq::new(n, |i: int| (KVPrecision::INT2, KVPrecision::INT2))
}

/// The number that twice an integer is rounded to.
spec fn twice(n: nat) -> Number {
    scaled(rounded(24, n as int, 1), 1)
}

proof fn lemma_twice(n: nat)
    requires
        0 < n <= u64::MAX,
    ensures
        is_number(24, twice(n)),
        twice(n).m > 0,
        -22 <= twice(n).e <= 42,
        0 < bits_for(twice(n)) < INFINITY,
        number_of(bits_for(twice(n))) == twice(n),
{
    lemma_integer_range(24, n);
    lemma_number_is_kept(twice(n));
}

proof fn lemma_mean_of_lowest()
    ensures
        mean_bits((KVPrecision::INT2, KVPrecision::INT2)) == TWO,
        TWO == bits_for(twice(1)),
        number_of(TWO) == twice(1),
        twice(1) == (Number { m: 0x80_0000, e: -22 }),
{
    lemma_pow2_values();
    vstd::arithmetic::power2::lemma2_to64();
    let j = lemma_kept_integer(24, 4);
    let k = lemma_kept_integer(24, 1);
    lemma_one_shift(4, 21, j);
    lemma_one_shift(1, 23, k);
    lemma_integer_range(24, 4);
    lemma_number_is_kept(rounded(24, 4, 1));
    lemma_twice(1);
    let m: nat = 0x80_0000;
    assert(fits(24, m, m, -23));
    lemma_rounded(24, m, m, -23);
    lemma_nearest_even_between(m * m, m, m, m);
    assert(m * pow2(23) == m * m);
}

/// The shift that gives an integer 24 bits.
proof fn lemma_one_shift(n: nat, want: nat, k: nat)
    requires
        pow2(23) <= n * pow2(k) < pow2(24),
        n * pow2(want) == pow2(23),
        n > 0,
    ensures
        k == want,
{
    lemma_pow2_values();
    if k < want {
        vstd::arithmetic::power2::lemma_pow2_strictly_increases(k, want);
        assert(n * pow2(k) < n * pow2(want)) by (nonlinear_arith)
            requires
                n > 0,
                pow2(k) < pow2(want),
        ;
    } else if k > want {
        lemma_pow2_step(want);
        lemma_pow2_mono(want + 1, k);
        assert(n * pow2(k) >= 2 * (n * pow2(want))) by (nonlinear_arith)
            requires
                n > 0,
                pow2(k) >= 2 * pow2(want),
        ;
    }
}

proof fn lemma_two_more(n: nat)
    requires
        0 < n <= u64::MAX,
    ensures
        sum(24, twice(n), twice(1)) == twice(n + 1) || n >= 0x100_0000,
        n == 0x100_0000 ==> sum(24, twice(n), twice(1)) == twice(n),
{
    lemma_pow2_values();
    if n < 0x100_0000 || n == 0x100_0000 {
        lemma_mean_of_lowest();
        lemma_twice(n);
        let a = twice(n);
        let x = twice(1);
        lemma_sum_at(24, a, x, -22);
        let w = pow2((a.e + 22) as nat);
        if n < 0x100_0000 {
            let k = lemma_kept_integer(24, n);
            vstd::arithmetic::power2::lemma_pow2_adds(k, (23 - k) as nat);
            assert(aligned(a, -22) == n * 0x80_0000) by (nonlinear_arith)
                requires
                    aligned(a, -22) == (n * pow2(k)) * pow2((23 - k) as nat),
                    pow2(k) * pow2((23 - k) as nat) == 0x80_0000,
            ;
        } else {
            lemma_top();
            vstd::arithmetic::power2::lemma2_to64();
            assert(aligned(a, -22) == n * 0x80_0000);
        }
        assert(aligned(x, -22) == 0x80_0000);
        assert(aligned(a, -22) + aligned(x, -22) == (n + 1) * pow2(23)) by (nonlinear_arith)
            requires
                aligned(a, -22) == n * 0x80_0000,
                aligned(x, -22) == 0x80_0000,
                pow2(23) == 0x80_0000,
        ;
        lemma_rounding_scales(24, n + 1, 23);
        if n == 0x100_0000 {
            lemma_top();
        } else {
            lemma_twice(n + 1);
        }
    }
}

/// The integers from which on two more are rounded away.
proof fn lemma_top()
    ensures
        rounded(24, 0x100_0000, 1) == (Number { m: 0x80_0000, e: 1 }),
        rounded(24, 0x100_0001, 1) == (Number { m: 0x80_0000, e: 1 }),
{
    lemma_pow2_values();
    assert(pow2(23) * (1 * pow2(1)) == 0x100_0000 && pow2(24) * (1 * pow2(1)) == 0x200_0000)
        by (nonlinear_arith)
        requires
            pow2(1) == 2,
            pow2(23) == 0x80_0000,
            pow2(24) == 0x100_0000,
    ;
    assert(fits(24, 0x100_0000, 1, 1));
    assert(fits(24, 0x100_0001, 1, 1));
    lemma_rounded(24, 0x100_0000, 1, 1);
    lemma_rounded(24, 0x100_0001, 1, 1);
}

proof fn lemma_first_two()
    ensures
        sum_bits(NEGATIVE_ZERO, TWO) == TWO,
{
    lemma_mean_of_lowest();
    assert(number_of(NEGATIVE_ZERO).m == 0);
}

proof fn lemma_add_two(m: nat)
    requires
        0 < m <= 0x100_0000,
    ensures
        sum_bits(bits_for(twice(m)), TWO) == bits_for(
            twice(
                if m < 0x100_0000 {
                    m + 1
                } else {
                    m
                },
            ),
        ),
{
    lemma_mean_of_lowest();
    lemma_twice(m);
    lemma_two_more(m);
    if m < 0x100_0000 {
        lemma_twice(m + 1);
    }
    let a = bits_for(twice(m));
    assert(sum(24, number_of(a), number_of(TWO)).m > 0);
    assert(!is_nan_bits(a) && !is_nan_bits(TWO));
}

proof fn lemma_sum_of_lowest(n: nat)
    requires
        0 < n <= u64::MAX,
    ensures
        mean_bits_sum(lowest(n)) == bits_for(
            twice(
                if n <= 0x100_0000 {
                    n
                } else {
                    0x100_0000
                },
            ),
        ),
    decreases n,
{
    lemma_mean_of_lowest();
    let before = (n - 1) as nat;
    assert(lowest(n).drop_last() =~= lowest(before));
    assert(lowest(n).last() == (KVPrecision::INT2, KVPrecision::INT2));
    assert(mean_bits_sum(lowest(n)) == sum_bits(mean_bits_sum(lowest(before)), TWO));
    if n == 1 {
        assert(lowest(before).len() == 0);
        assert(mean_bits_sum(lowest(before)) == NEGATIVE_ZERO);
        lemma_first_two();
    } else {
        lemma_sum_of_lowest(before);
        lemma_add_two(
            if before <= 0x100_0000 {
                before
            } else {
                0x100_0000
            },
        );
    }
}

/// A number divided by one that is no less than half of it.
proof fn lemma_ratio_of_two(a: Number, b: Number)
    requires
        is_number(24, a),
        is_number(24, b),
        a.m > 0,
        b.m > 0,
        -30 <= a.e <= 50,
        -50 <= b.e <= 50,
        no_greater(a, scaled(b, 1)),
    ensures
        0 <= ratio_bits(a.m as nat, b.m as nat, a.e - b.e) <= TWO,
{
    lemma_pow2_values();
    lemma_mean_of_lowest();
    lemma_quotient_at_most_one(24, a, scaled(b, 1));
    let q = quotient(24, a, scaled(b, 1));
    let r = scaled(rounded_size(24, a.m as nat, b.m as nat), a.e - b.e);
    assert(r == scaled(q, 1));
    assert(no_greater(r, twice(1)));
    assert(r.e >= -149);
}

/// Layers of the lowest precision have no more than two mean bits.
proof fn lemma_average_of_lowest(n: nat)
    requires
        0 < n <= u64::MAX,
    ensures
        !less_bits(TWO, average_bits(lowest(n))),
{
    lemma_pow2_values();
    lemma_mean_of_lowest();
    lemma_sum_of_lowest(n);
    let m: nat = if n <= 0x100_0000 {
        n
    } else {
        0x100_0000
    };
    let a = twice(m);
    let b = rounded(24, n as int, 1);
    lemma_twice(m);
    lemma_integer_range(24, n);
    lemma_number_is_kept(b);
    lemma_rounding_is_monotone(24, m, n);
    lemma_ratio_of_two(a, b);
    lemma_positive_quotient(bits_for(a), bits_for(b));
}

proof fn lemma_positive_quotient(a: u32, b: u32)
    requires
        0 < a < INFINITY,
        0 < b < INFINITY,
        number_of(a).m > 0,
        number_of(b).m > 0,
        0 <= ratio_bits(
            number_of(a).m as nat,
            number_of(b).m as nat,
            number_of(a).e - number_of(b).e,
        ) <= TWO,
    ensures
        quotient_bits(a, b) <= TWO,
{
}

/// Where lowering does not reach the target, every layer is as low as it goes.
proof fn lemma_tuned(
    order: Seq<CandidateModel>,
    allowed: Seq<(KVPrecision, KVPrecision)>,
    target: u32,
    is_last_resort: bool,
    pairs: Seq<(KVPrecision, KVPrecision)>,
    j: int,
)
    requires
        0 <= j <= order.len() == pairs.len(),
        forall|k: int| 0 <= k < order.len() ==> (#[trigger] order[k]).index < pairs.len(),
        forall|k: int|
            0 <= k < j ==> lower_pair(
                pairs[(#[trigger] order[k]).index as int],
                allowed,
                is_last_resort,
            ) is None,
    ensures
        ({
            let r = tuned(order, allowed, target, is_last_resort, pairs, j);
            &&& r.len() == pairs.len()
            &&& less_bits(target, average_bits(r)) ==> forall|k: int|
                0 <= k < order.len() ==> lower_pair(
                    r[(#[trigger] order[k]).index as int],
                    allowed,
                    is_last_resort,
                ) is None
        }),
    decreases order.len() - j, pair_bits(pairs[order[j].index as int]),
{
    if j < order.len() && less_bits(target, average_bits(pairs)) {
        let at = order[j].index as int;
        lemma_lower_pair(pairs[at], allowed, is_last_resort);
        match lower_pair(pairs[at], allowed, is_last_resort) {
            Some(p) => {
                lemma_tuned(order, allowed, target, is_last_resort, pairs.update(at, p), j);
            },
            None => {
                lemma_tuned(order, allowed, target, is_last_resort, pairs, j + 1);
            },
        }
    }
}

/// Every layer has a place in the order of sensitivity.
proof fn lemma_order_is_complete(combined: Seq<u32>, i: int) -> (k: int)
    requires
        combined.len() <= usize::MAX,
        0 <= i < combined.len(),
    ensures
        0 <= k < combined.len(),
        ranked(layer_candidates(combined)).len() == combined.len(),
        ranked(layer_candidates(combined))[k].index == i,
{
    broadcast use vstd::seq_lib::group_to_multiset_ensures;

    let cs = layer_candidates(combined);
    law_ranked_is_in_order(cs);
    assert(cs.contains(cs[i]));
    assert(cs.to_multiset().count(cs[i]) > 0);
    assert(ranked(cs).contains(cs[i]));
    choose|k: int| 0 <= k < ranked(cs).len() && ranked(cs)[k] == cs[i]
}

/// A target that can be reached is reached.
proof fn lemma_target_is_reached(
    combined: Seq<u32>,
    allowed: Seq<(KVPrecision, KVPrecision)>,
    target: u32,
)
    requires
        combined.len() <= usize::MAX,
        !less_bits(target, TWO),
    ensures
        !less_bits(target, average_bits(precisions_for(combined, allowed, target))),
{
    let order = ranked(layer_candidates(combined));
    let start = Seq::new(combined.len(), |i: int| highest_pair(allowed));
    lemma_ranked_places(layer_candidates(combined));
    lemma_tuned(order, allowed, target, false, start, 0);
    let first = tuned(order, allowed, target, false, start, 0);
    lemma_tuned(order, allowed, target, true, first, 0);
    let r = tuned(order, allowed, target, true, first, 0);
    if less_bits(target, average_bits(r)) {
        assert forall|i: int| 0 <= i < r.len() implies #[trigger] r[i] == (
            KVPrecision::INT2,
            KVPrecision::INT2,
        ) by {
            let k = lemma_order_is_complete(combined, i);
            assert(lower_pair(r[order[k].index as int], allowed, true) is None);
        }
        assert(r =~= lowest(r.len()));
        if r.len() > 0 {
            lemma_average_of_lowest(r.len());
        } else {
            lemma_average_of_none(r);
        }
    }
}

/// Without layers there is no mean.
proof fn lemma_average_of_none(pairs: Seq<(KVPrecision, KVPrecision)>)
    requires
        pairs.len() == 0,
    ensures
        average_bits(pairs) == NAN,
{
}

/// No layer is in the order of sensitivity twice.
proof fn lemma_order_is_distinct(combined: Seq<u32>, i: int, j: int)
    requires
        combined.len() <= usize::MAX,
        0 <= i < j < combined.len(),
    ensures
        ranked(layer_candidates(combined)).len() == combined.len(),
        ranked(layer_candidates(combined))[i].index != ranked(
            layer_candidates(combined),
        )[j].index,
{
    broadcast use vstd::seq_lib::group_to_multiset_ensures;

    let cs = layer_candidates(combined);
    let r = ranked(cs);
    lemma_ranked_places(cs);
    law_ranked_is_in_order(cs);
    if r[i].index == r[j].index {
        let x = r[i];
        assert(r[j] == x);
        assert(cs.no_duplicates()) by {
            assert forall|a: int, b: int| 0 <= a < b < cs.len() implies cs[a] != cs[b] by {
                assert(cs[a].index != cs[b].index);
            }
        }
        cs.lemma_multiset_has_no_duplicates();
        assert(r.to_multiset().count(x) <= 1);
        let front = r.take(j);
        assert(r =~= front + r.skip(j));
        assert(front[i] == x && front.contains(x));
        assert(r.skip(j)[0] == x && r.skip(j).contains(x));
        vstd::seq_lib::lemma_multiset_commutative(front, r.skip(j));
        assert(front.to_multiset().count(x) > 0);
        assert(r.skip(j).to_multiset().count(x) > 0);
    }
}

/// Whether, in the order of sensitivity, no layer has more bits than one behind
/// it.
pub open spec fn bits_ascend(
    order: Seq<CandidateModel>,
    pairs: Seq<(KVPrecision, KVPrecision)>,
) -> bool {
    forall|a: int, b: int|
        0 <= a < b < order.len() ==> pair_bits(pairs[(#[trigger] order[a]).index as int])
            <= pair_bits(pairs[(#[trigger] order[b]).index as int])
}

proof fn lemma_tuned_ascends(
    order: Seq<CandidateModel>,
    allowed: Seq<(KVPrecision, KVPrecision)>,
    target: u32,
    is_last_resort: bool,
    pairs: Seq<(KVPrecision, KVPrecision)>,
    j: int,
)
    requires
        0 <= j <= order.len() == pairs.len(),
        forall|k: int| 0 <= k < order.len() ==> (#[trigger] order[k]).index < pairs.len(),
        forall|a: int, b: int|
            0 <= a < b < order.len() ==> (#[trigger] order[a]).index != (
            #[trigger] order[b]).index,
        bits_ascend(order, pairs),
        forall|k: int|
            0 <= k < j ==> lower_pair(
                pairs[(#[trigger] order[k]).index as int],
                allowed,
                is_last_resort,
            ) is None,
    ensures
        bits_ascend(order, tuned(order, allowed, target, is_last_resort, pairs, j)),
    decreases order.len() - j, pair_bits(pairs[order[j].index as int]),
{
    if j < order.len() && less_bits(target, average_bits(pairs)) {
        let at = order[j].index as int;
        let now = pairs[at];
        lemma_lower_pair(now, allowed, is_last_resort);
        match lower_pair(now, allowed, is_last_resort) {
            Some(p) => {
                let next = pairs.update(at, p);
                assert forall|a: int, b: int| 0 <= a < b < order.len() implies pair_bits(
                    next[(#[trigger] order[a]).index as int],
                ) <= pair_bits(next[(#[trigger] order[b]).index as int]) by {
                    let x = pairs[order[a].index as int];
                    if b == j {
                        assert(lower_pair(x, allowed, is_last_resort) is None);
                        lemma_best_below(allowed, pair_bits(x), allowed.len() as int);
                        lemma_best_below(allowed, pair_bits(now), allowed.len() as int);
                    } else if a == j {
                        assert(pair_bits(now) <= pair_bits(pairs[order[b].index as int]));
                    }
                }
                lemma_tuned_ascends(order, allowed, target, is_last_resort, next, j);
            },
            None => {
                lemma_tuned_ascends(order, allowed, target, is_last_resort, pairs, j + 1);
            },
        }
    }
}

/// A layer never gets more bits than one that is more sensitive.
pub proof fn law_sensitive_layers_keep_their_bits(
    combined: Seq<u32>,
    allowed: Seq<(KVPrecision, KVPrecision)>,
    target: u32,
)
    requires
        combined.len() <= usize::MAX,
    ensures
        bits_ascend(
            ranked(layer_candidates(combined)),
            precisions_for(combined, allowed, target),
        ),
{
    let order = ranked(layer_candidates(combined));
    let start = Seq::new(combined.len(), |i: int| highest_pair(allowed));
    lemma_ranked_places(layer_candidates(combined));
    assert forall|a: int, b: int| 0 <= a < b < order.len() implies (#[trigger] order[a]).index != (
    #[trigger] order[b]).index by {
        lemma_order_is_distinct(combined, a, b);
    }
    lemma_tuned(order, allowed, target, false, start, 0);
    lemma_tuned_ascends(order, allowed, target, false, start, 0);
    lemma_tuned_ascends(
        order,
        allowed,
        target,
        true,
        tuned(order, allowed, target, false, start, 0),
        0,
    );
}

} // verus!
