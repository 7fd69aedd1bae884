//! Which channels are boosted, which layers keep their bits, and which layer loses
//! precision first.

use vstd::arithmetic::power2::pow2;
use vstd::prelude::*;

use super::kitty::{
    channel_candidates, chosen_channels, column, errors, mean_error, residuals, ChannelSensitivity,
};
use super::kv_cache::{
    average_bits, best_below, highest_pair, law_sensitive_layers_keep_their_bits, layer_candidates,
    pair_bits, precisions_for,
};
use super::kv_store::{
    appended, can_degrade, degraded, degraded_layer, least_sensitive, token_memory, with_token,
    CacheModel, LayerModel, TokenModel,
};
use super::kv_cache::{combined_sensitivity, LayerSensitivity};
use super::kv_store::{empty_layer, kept_token};
use crate::single::{
    difference_bits, integer_bits, product_bits, quotient_bits, sum_bits, whole_above,
};
use super::grid::{grid_code, grid_codes, grid_scale, law_codes_fit_their_width, least, step_length};
use super::kv_codes::{
    all_codes, channel_codes, group_at, group_count, last_level, law_every_number_has_a_code,
};
use super::packing::{codes_fit, law_packed_codes_are_read_back, lemma_widths, packed};
use super::precision::{code_at, precision_bits, KVPrecision};
use super::tmac::{group_pattern, pattern_from, plane_bit};
use crate::bits::{less_bits, value_key};
use crate::float::Number;
use crate::order::{is_among_first, lemma_first_ranked, outranks, ranked};

verus! {

/// The boosted channels are the most sensitive ones: as many as asked for, as far as
/// there are so many, and a channel is left out only where every boosted one is at
/// least as sensitive.
pub proof fn law_most_sensitive_channels_are_boosted(
    s: Seq<ChannelSensitivity>,
    num_boost: nat,
    j: int,
)
    requires
        s.len() <= usize::MAX,
        0 <= j < s.len(),
    ensures
        ({
            let out = chosen_channels(s, num_boost);
            &&& out.len() == if num_boost < s.len() {
                num_boost
            } else {
                s.len()
            }
            &&& out.contains(s[j].channel_idx) || out.len() == num_boost && forall|i: int|
                0 <= i < out.len() ==> exists|k: int|
                    0 <= k < s.len() && #[trigger] out[i] == (#[trigger] s[k]).channel_idx
                        && value_key(s[k].mse_score) >= value_key(s[j].mse_score)
        }),
{
    let cs = channel_candidates(s);
    let order = ranked(cs);
    let out = chosen_channels(s, num_boost);
    lemma_first_ranked(cs, out.len() as int);
    assert(cs[j].index == j);
    if is_among_first(cs, out.len() as int, j) {
        let i = choose|i: int| 0 <= i < out.len() && (#[trigger] order[i]).index == j;
        assert(out[i] == s[j].channel_idx);
    } else {
        assert forall|i: int| 0 <= i < out.len() implies exists|k: int|
            0 <= k < s.len() && #[trigger] out[i] == (#[trigger] s[k]).channel_idx && value_key(
                s[k].mse_score,
            ) >= value_key(s[j].mse_score) by {
            assert(outranks(order[i], cs[j]));
            let k = order[i].index as int;
            assert(order[i] == cs[k]);
            assert(out[i] == s[k].channel_idx);
        }
    }
}

/// A layer that is more sensitive than another never gets fewer bits.
pub proof fn law_more_sensitive_layer_has_no_fewer_bits(
    combined: Seq<u32>,
    allowed: Seq<(KVPrecision, KVPrecision)>,
    target: u32,
    a: int,
    b: int,
)
    requires
        combined.len() <= usize::MAX,
        0 <= a < combined.len(),
        0 <= b < combined.len(),
        value_key(combined[a]) < value_key(combined[b]),
    ensures
        pair_bits(precisions_for(combined, allowed, target)[a]) <= pair_bits(
            precisions_for(combined, allowed, target)[b],
        ),
{
    let cs = layer_candidates(combined);
    let order = ranked(cs);
    law_sensitive_layers_keep_their_bits(combined, allowed, target);
    lemma_first_ranked(cs, cs.len() as int);
    assert(cs[a].index == a);
    assert(cs[b].index == b);
    let i = choose|i: int| 0 <= i < cs.len() && (#[trigger] order[i]).index == a;
    let j = choose|j: int| 0 <= j < cs.len() && (#[trigger] order[j]).index == b;
    assert(order[i] == cs[a]);
    assert(order[j] == cs[b]);
    if j < i {
        assert(order[j].key >= order[i].key);
    }
}

/// Where the highest pair of precisions reaches the target, no layer is lowered.
pub proof fn law_no_layer_is_lowered_without_need(
    combined: Seq<u32>,
    allowed: Seq<(KVPrecision, KVPrecision)>,
    target: u32,
)
    requires
        !less_bits(
            target,
            average_bits(Seq::new(combined.len(), |i: int| highest_pair(allowed))),
        ),
    ensures
        precisions_for(combined, allowed, target) == Seq::new(
            combined.len(),
            |i: int| highest_pair(allowed),
        ),
{
}

/// The highest pair is allowed, where any is, and no allowed pair has more bits.
pub proof fn law_highest_pair_has_the_most_bits(allowed: Seq<(KVPrecision, KVPrecision)>)
    ensures
        allowed.len() > 0 ==> allowed.contains(highest_pair(allowed)),
        forall|i: int|
            0 <= i < allowed.len() ==> pair_bits(#[trigger] allowed[i]) <= pair_bits(
                highest_pair(allowed),
            ),
        allowed.len() == 0 ==> highest_pair(allowed) == (KVPrecision::FP16, KVPrecision::FP16),
{
    lemma_best_of_all(allowed, allowed.len() as int);
}

proof fn lemma_best_of_all(allowed: Seq<(KVPrecision, KVPrecision)>, n: int)
    requires
        0 <= n <= allowed.len(),
    ensures
        n > 0 ==> best_below(allowed, 33, n) is Some,
        best_below(allowed, 33, n) matches Some(p) ==> (exists|i: int|
            0 <= i < n && #[trigger] allowed[i] == p) && forall|i: int|
            0 <= i < n ==> pair_bits(#[trigger] allowed[i]) <= pair_bits(p),
    decreases n,
{
    if n > 0 {
        lemma_best_of_all(allowed, n - 1);
        assert(pair_bits(allowed[n - 1]) < 33);
        let p = best_below(allowed, 33, n)->0;
        if p != allowed[n - 1] {
            let i = choose|i: int| 0 <= i < n - 1 && #[trigger] allowed[i] == p;
            assert(allowed[i] == p);
        }
    }
}

/// The layer that loses precision first is the least sensitive one that can: none
/// that can is less sensitive. There is none exactly where none can.
pub proof fn law_least_sensitive_layer_loses_precision(c: CacheModel, n: int)
    requires
        0 <= n <= c.layers.len(),
    ensures
        least_sensitive(c, n) is None <==> forall|j: int|
            0 <= j < n ==> !can_degrade(#[trigger] c.layers[j]),
        least_sensitive(c, n) matches Some(i) ==> 0 <= i < n && can_degrade(c.layers[i]) && forall|
            j: int,
        |
            0 <= j < n && can_degrade(#[trigger] c.layers[j]) ==> !less_bits(
                c.combined[j],
                c.combined[i],
            ),
    decreases n,
{
    if n > 0 {
        law_least_sensitive_layer_loses_precision(c, n - 1);
    }
}

/// A layer can lose precision until its keys and its values have two bits.
pub proof fn law_layers_can_lose_precision_down_to_two_bits(l: LayerModel)
    ensures
        can_degrade(l) <==> l.key_precision != KVPrecision::INT2 || l.value_precision
            != KVPrecision::INT2,
{
}

/// Values lose precision before keys. Either loses half its bits, the other stays as
/// it is, and no token is lost.
pub proof fn law_values_lose_precision_before_keys(l: LayerModel, size: nat)
    ensures
        degraded_layer(l, size).tokens.len() == l.tokens.len(),
        l.value_precision != KVPrecision::INT2 ==> {
            let d = degraded_layer(l, size);
            &&& 2 * precision_bits(d.value_precision) == precision_bits(l.value_precision)
            &&& d.key_precision == l.key_precision
            &&& forall|i: int|
                0 <= i < l.tokens.len() ==> (#[trigger] d.tokens[i]).key_data
                    == l.tokens[i].key_data && d.tokens[i].value_scale == l.tokens[i].value_scale
                    && d.tokens[i].value_zero == l.tokens[i].value_zero
        },
        l.value_precision == KVPrecision::INT2 && l.key_precision != KVPrecision::INT2 ==> {
            let d = degraded_layer(l, size);
            &&& 2 * precision_bits(d.key_precision) == precision_bits(l.key_precision)
            &&& d.value_precision == l.value_precision
            &&& forall|i: int|
                0 <= i < l.tokens.len() ==> (#[trigger] d.tokens[i]).value_data
                    == l.tokens[i].value_data && d.tokens[i].key_scales == l.tokens[i].key_scales
                    && d.tokens[i].key_zeros == l.tokens[i].key_zeros
        },
{
}

/// Within the budget a token is appended and nothing loses precision. Beyond it one
/// layer does, and every other stays as it is.
pub proof fn law_precision_is_lost_beyond_the_budget(
    c: CacheModel,
    layer: int,
    t: TokenModel,
    other: int,
)
    requires
        0 <= layer < c.layers.len(),
        0 <= other < c.layers.len(),
        c.memory + token_memory(t) <= usize::MAX,
    ensures
        c.memory + token_memory(t) <= c.budget ==> {
            let n = appended(c, layer, t);
            &&& n.memory == c.memory + token_memory(t)
            &&& n.layers[layer].tokens == c.layers[layer].tokens.push(t)
            &&& n.layers[other].key_precision == c.layers[other].key_precision
            &&& n.layers[other].value_precision == c.layers[other].value_precision
            &&& other != layer ==> n.layers[other] == c.layers[other]
        },
        c.memory + token_memory(t) > c.budget ==> appended(c, layer, t) == degraded(
            with_token(c, layer, t),
        ),
        ({
            let n = with_token(c, layer, t);
            least_sensitive(n, n.layers.len() as int) != Some(other) ==> appended(
                c,
                layer,
                t,
            ).layers[other] == n.layers[other]
        }),
{
    law_least_sensitive_layer_loses_precision(
        with_token(c, layer, t),
        with_token(c, layer, t).layers.len() as int,
    );
}

/// The pattern of a group of four elements holds the bit of each.
pub proof fn law_pattern_holds_the_bits(plane: Seq<u8>, dim: int, group: int, j: nat)
    requires
        j < 4,
        0 <= group,
        4 * group + j < dim,
    ensures
        (group_pattern(plane, dim, group) / pow2(j)) % 2 == plane_bit(plane, 4 * group + j),
{
    lemma_pattern_bit(plane, dim, 4 * group, 4, j);
}

proof fn lemma_pattern_bit(plane: Seq<u8>, dim: int, start: int, n: nat, j: nat)
    requires
        j < n,
        start + j < dim,
    ensures
        (pattern_from(plane, dim, start, n) / pow2(j)) % 2 == plane_bit(plane, start + j),
    decreases n,
{
    lemma_widths();
    let rest = pattern_from(plane, dim, start + 1, (n - 1) as nat);
    let bit = plane_bit(plane, start);
    let x = pattern_from(plane, dim, start, n);
    assert(bit < 2) by {
        vstd::arithmetic::power2::lemma2_to64();
    }
    if j == 0 {
        assert(x / 1 == x);
        assert((bit + 2 * rest) % 2 == bit);
    } else {
        let k = (j - 1) as nat;
        vstd::arithmetic::power2::lemma_pow2_unfold(j);
        vstd::arithmetic::power2::lemma_pow2_pos(k);
        vstd::arithmetic::div_mod::lemma_div_denominator(x as int, 2, pow2(k) as int);
        assert((bit + 2 * rest) / 2 == rest);
        lemma_pattern_bit(plane, dim, start + 1, (n - 1) as nat, k);
    }
}

/// A token is kept by its codes: those of its key are read back group by group, those
/// of its value on the grid of the whole value, each with its step and its start.
pub proof fn law_token_is_kept_by_its_codes(
    key: Seq<u32>,
    value: Seq<u32>,
    head: nat,
    k: KVPrecision,
    v: KVPrecision,
    i: int,
)
    requires
        head > 0,
        k != KVPrecision::FP16,
        v != KVPrecision::FP16,
        0 <= i < value.len(),
        key.len() == value.len(),
    ensures
        ({
            let t = kept_token(key, value, head, k, v);
            &&& code_at(t.key_data, k, i) == all_codes(key, head, k)[i]
            &&& code_at(t.value_data, v, i) == grid_code(
                value[i],
                t.value_scale,
                t.value_zero,
                last_level(v) as u8,
            )
            &&& t.value_zero == least(value, value.len() as int)
            &&& t.value_scale == step_length(value, last_level(v))
            &&& forall|g: int|
                0 <= g < t.key_scales.len() ==> #[trigger] t.key_scales[g] == step_length(
                    group_at(key, head, g),
                    last_level(k),
                )
            &&& forall|g: int|
                0 <= g < t.key_zeros.len() ==> #[trigger] t.key_zeros[g] == least(
                    group_at(key, head, g),
                    group_at(key, head, g).len() as int,
                )
            &&& t.key_scales.len() == group_count(key.len(), head)
            &&& t.key_zeros.len() == group_count(key.len(), head)
        }),
{
    lemma_widths();
    law_every_number_has_a_code(key, head, k);
    lemma_codes_fit(key, head, k);
    law_codes_fit_their_width(value, last_level(v) as u8, precision_bits(v));
    law_packed_codes_are_read_back(all_codes(key, head, k), precision_bits(k), key.len(), i);
    law_packed_codes_are_read_back(
        grid_codes(value, last_level(v) as u8),
        precision_bits(v),
        value.len(),
        i,
    );
    let t = kept_token(key, value, head, k, v);
    assert(t.key_data == packed(all_codes(key, head, k), precision_bits(k), key.len()));
    assert(t.value_data == packed(
        grid_codes(value, last_level(v) as u8),
        precision_bits(v),
        value.len(),
    ));
    assert(all_codes(key, head, k).len() == key.len()) by {
        assert(1 * key.len() == key.len());
    }
    assert(code_at(t.key_data, k, i) == all_codes(key, head, k)[i]);
    assert(code_at(t.value_data, v, i) == grid_codes(value, last_level(v) as u8)[i]);
    assert(last_level(v) as u8 as nat == last_level(v));
}

proof fn lemma_codes_fit(data: Seq<u32>, size: nat, p: KVPrecision)
    requires
        size > 0,
        p != KVPrecision::FP16,
    ensures
        codes_fit(all_codes(data, size, p), precision_bits(p)),
{
    lemma_channels_fit(data, size, p, group_count(data.len(), size) as int);
}

proof fn lemma_channels_fit(data: Seq<u32>, size: nat, p: KVPrecision, n: int)
    requires
        p != KVPrecision::FP16,
    ensures
        codes_fit(channel_codes(data, size, p, n), precision_bits(p)),
    decreases n,
{
    if n > 0 {
        lemma_channels_fit(data, size, p, n - 1);
        lemma_widths();
        law_codes_fit_their_width(
            group_at(data, size, n - 1),
            last_level(p) as u8,
            precision_bits(p),
        );
    }
}

/// A new cache has a layer for each of its profile, without tokens and with the
/// precisions of the profile.
pub proof fn law_new_layer_has_the_precisions_of_the_profile(l: LayerSensitivity)
    ensures
        empty_layer(l).tokens.len() == 0,
        empty_layer(l).key_precision == l.key_default_precision,
        empty_layer(l).value_precision == l.value_default_precision,
{
}

/// A share of channels is rounded up: as many as no fewer would do.
pub proof fn law_share_is_rounded_up(a: Number)
    requires
        a.m >= 0,
        a.e < 0,
    ensures
        ({
            let one = pow2((-a.e) as nat) as int;
            &&& a.m <= whole_above(a) * one
            &&& (whole_above(a) - 1) * one < a.m
        }),
{
    let one = pow2((-a.e) as nat) as int;
    vstd::arithmetic::power2::lemma_pow2_pos((-a.e) as nat);
    let x = a.m + one - 1;
    let w = x / one;
    vstd::arithmetic::div_mod::lemma_fundamental_div_mod(x, one);
    let r = x % one;
    assert(w * one + r == x) by (nonlinear_arith)
        requires
            x == one * w + r,
    ;
    assert((w - 1) * one == w * one - one) by (nonlinear_arith);
}

/// The sensitivity of a channel is the mean of the squares of what codes of two bits
/// leave of its numbers.
pub proof fn law_sensitivity_is_the_mean_squared_error(
    data: Seq<Vec<u32>>,
    channel: int,
    n: int,
)
    requires
        0 <= n < data.len(),
    ensures
        column(data, channel).len() == data.len(),
        column(data, channel)[n] == data[n]@[channel],
        ({
            let v = column(data, channel);
            let restored = sum_bits(
                product_bits(integer_bits(grid_codes(v, 3)[n] as nat), grid_scale(v, 3)),
                least(v, v.len() as int),
            );
            let e = difference_bits(v[n], restored);
            &&& errors(v, 0) == 0
            &&& errors(v, n + 1) == sum_bits(errors(v, n), product_bits(e, e))
            &&& mean_error(v) == quotient_bits(
                errors(v, v.len() as int),
                integer_bits(v.len()),
            )
        }),
{
}

/// The sensitivity of a layer is that of its keys and that of its values together.
pub proof fn law_keys_and_values_count_together(l: LayerSensitivity)
    ensures
        combined_sensitivity(l) == sum_bits(l.key_sensitivity, l.value_sensitivity),
{
}

/// A token counts for the bytes of its codes, four for each scale and zero point of
/// its key, and eight for those of its value.
pub proof fn law_token_counts_its_bytes(t: TokenModel)
    ensures
        token_memory(t) == t.key_data.len() + t.value_data.len() + 4 * t.key_scales.len() + 4
            * t.key_zeros.len() + 8,
{
}

/// The residual of a boosted channel is what is left of its number once that of its
/// code of two bits is taken off.
pub proof fn law_residual_is_what_two_bits_leave(vector: Seq<u32>, indices: Seq<u16>, k: int)
    requires
        0 <= k < indices.len(),
        indices[k] < vector.len(),
    ensures
        ({
            let i = indices[k] as int;
            let code = integer_bits(grid_codes(vector, 3)[i] as nat);
            let value = sum_bits(
                product_bits(code, grid_scale(vector, 3)),
                least(vector, vector.len() as int),
            );
            &&& residuals(vector, indices).len() == indices.len()
            &&& residuals(vector, indices)[k] == difference_bits(vector[i], value)
        }),
{
}

} // verus!
