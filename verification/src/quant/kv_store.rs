//! A cache of keys and values that loses precision, layer by layer, when it
//! grows beyond its budget.

use vstd::prelude::*;

use super::grid::{least, step_length};
use super::kv_cache::{combined_sensitivity, KVTunerProfile, LayerSensitivity};
use super::kv_codes::{
    all_codes, channel_scales, channel_zeros, codes_at, kept_codes, last_level,
    quantize_per_channel, quantize_per_token,
};
use super::packing::{lemma_packed_len, packed_len};
use super::precision::{
    lower_precision, precision_bits, reduced, right_shift_packed, stored_len, KVPrecision,
};
use crate::bits::{bits_less, less_bits};
use crate::single::add_singles;

verus! {

/// A token as it is kept.
pub struct KVToken {
    pub key_data: Vec<u8>,
    pub value_data: Vec<u8>,
    pub key_scales: Vec<u32>,
    pub key_zeros: Vec<u32>,
    pub value_scale: u32,
    pub value_zero: u32,
}

#[verifier::ext_equal]
pub struct TokenModel {
    pub key_data: Seq<u8>,
    pub value_data: Seq<u8>,
    pub key_scales: Seq<u32>,
    pub key_zeros: Seq<u32>,
    pub value_scale: u32,
    pub value_zero: u32,
}

impl View for KVToken {
    type V = TokenModel;

    open spec fn view(&self) -> TokenModel {
        TokenModel {
            key_data: self.key_data@,
            value_data: self.value_data@,
            key_scales: self.key_scales@,
            key_zeros: self.key_zeros@,
            value_scale: self.value_scale,
            value_zero: self.value_zero,
        }
    }
}

pub open spec fn token_models(v: Seq<KVToken>) -> Seq<TokenModel> {
    v.map_values(|t: KVToken| t@)
}

/// A layer of the cache.
pub struct KVCacheLayer {
    pub tokens: Vec<KVToken>,
    pub key_precision: KVPrecision,
    pub value_precision: KVPrecision,
}

#[verifier::ext_equal]
pub struct LayerModel {
    pub tokens: Seq<TokenModel>,
    pub key_precision: KVPrecision,
    pub value_precision: KVPrecision,
}

impl View for KVCacheLayer {
    type V = LayerModel;

    open spec fn view(&self) -> LayerModel {
        LayerModel {
            tokens: token_models(self.tokens@),
            key_precision: self.key_precision,
            value_precision: self.value_precision,
        }
    }
}

pub open spec fn layer_models(v: Seq<KVCacheLayer>) -> Seq<LayerModel> {
    v.map_values(|l: KVCacheLayer| l@)
}

/// What a cache holds.
#[verifier::ext_equal]
pub struct CacheModel {
    /// The sensitivity of each layer, as the bits of a number.
    pub combined: Seq<u32>,
    pub layers: Seq<LayerModel>,
    pub budget: usize,
    pub memory: usize,
    /// The number of elements of a key and of a value.
    pub size: nat,
    /// The number of elements of a group of channels.
    pub head: nat,
}

/// The bytes of the data of tokens.
pub open spec fn token_bytes(tokens: Seq<TokenModel>) -> nat
    decreases tokens.len(),
{
    if tokens.len() == 0 {
        0
    } else {
        token_bytes(tokens.drop_last()) + tokens.last().key_data.len()
            + tokens.last().value_data.len()
    }
}

/// The bytes of the data of layers.
pub open spec fn layer_bytes(layers: Seq<LayerModel>) -> nat
    decreases layers.len(),
{
    if layers.len() == 0 {
        0
    } else {
        layer_bytes(layers.drop_last()) + token_bytes(layers.last().tokens)
    }
}

/// Whether the data of a token has the size that the precisions ask for.
pub open spec fn token_ok(t: TokenModel, k: KVPrecision, v: KVPrecision, size: nat) -> bool {
    &&& t.key_data.len() == stored_len(size, k)
    &&& t.value_data.len() == stored_len(size, v)
}

/// Whether a layer holds tokens of its precisions.
pub open spec fn layer_ok(l: LayerModel, size: nat) -> bool {
    forall|i: int|
        0 <= i < l.tokens.len() ==> token_ok(
            #[trigger] l.tokens[i],
            l.key_precision,
            l.value_precision,
            size,
        )
}

/// Whether a cache is in order: its layers are, and the memory that it counts
/// is no less than what it holds.
pub open spec fn cache_ok(c: CacheModel) -> bool {
    &&& c.combined.len() == c.layers.len()
    &&& forall|i: int| 0 <= i < c.layers.len() ==> layer_ok(#[trigger] c.layers[i], c.size)
    &&& layer_bytes(c.layers) <= c.memory
}

/// A token as it is kept at two precisions: its key in groups of channels, its
/// value as a whole.
pub open spec fn kept_token(
    key: Seq<u32>,
    value: Seq<u32>,
    head: nat,
    k: KVPrecision,
    v: KVPrecision,
) -> TokenModel {
    TokenModel {
        key_data: kept_codes(all_codes(key, head, k), k, key.len()),
        value_data: kept_codes(codes_at(value, v), v, value.len()),
        key_scales: channel_scales(key, head, k),
        key_zeros: channel_zeros(key, head),
        value_scale: step_length(value, last_level(v)),
        value_zero: least(value, value.len() as int),
    }
}

/// The memory that a token counts for: its data, four bytes for each scale and
/// zero point of the keys, and eight for those of the value.
pub open spec fn token_memory(t: TokenModel) -> nat {
    t.key_data.len() + t.value_data.len() + 4 * t.key_scales.len() + 4 * t.key_zeros.len() + 8
}

/// A cache with one more token in a layer.
pub open spec fn with_token(c: CacheModel, layer: int, t: TokenModel) -> CacheModel {
    let l = c.layers[layer];
    CacheModel {
        layers: c.layers.update(layer, LayerModel { tokens: l.tokens.push(t), ..l }),
        memory: (c.memory + token_memory(t)) as usize,
        ..c
    }
}

/// Whether a layer can lose precision.
pub open spec fn can_degrade(l: LayerModel) -> bool {
    lower_precision(l.value_precision) is Some || lower_precision(l.key_precision) is Some
}

/// Of the first `n` layers that can lose precision, the first of the least
/// sensitive ones.
pub open spec fn least_sensitive(c: CacheModel, n: int) -> Option<int>
    decreases n,
{
    if n <= 0 {
        None
    } else {
        let before = least_sensitive(c, n - 1);
        if !can_degrade(c.layers[n - 1]) {
            before
        } else {
            match before {
                None => Some(n - 1),
                Some(i) => if less_bits(c.combined[n - 1], c.combined[i]) {
                    Some(n - 1)
                } else {
                    before
                },
            }
        }
    }
}

/// A token whose values have lost precision.
pub open spec fn with_lower_value(
    t: TokenModel,
    from: KVPrecision,
    to: KVPrecision,
    size: nat,
) -> TokenModel {
    TokenModel { value_data: reduced(t.value_data, from, to, size), ..t }
}

/// A token whose keys have lost precision.
pub open spec fn with_lower_key(
    t: TokenModel,
    from: KVPrecision,
    to: KVPrecision,
    size: nat,
) -> TokenModel {
    TokenModel { key_data: reduced(t.key_data, from, to, size), ..t }
}

/// A layer after it has lost precision: of its values, while they can, else of
/// its keys.
pub open spec fn degraded_layer(l: LayerModel, size: nat) -> LayerModel {
    match lower_precision(l.value_precision) {
        Some(v) => LayerModel {
            tokens: l.tokens.map_values(
                |t: TokenModel| with_lower_value(t, l.value_precision, v, size),
            ),
            value_precision: v,
            ..l
        },
        None => match lower_precision(l.key_precision) {
            Some(k) => LayerModel {
                tokens: l.tokens.map_values(
                    |t: TokenModel| with_lower_key(t, l.key_precision, k, size),
                ),
                key_precision: k,
                ..l
            },
            None => l,
        },
    }
}

/// The bytes that a token of a layer is counted less for.
pub open spec fn saved_bytes(l: LayerModel, size: nat) -> nat {
    match lower_precision(l.value_precision) {
        Some(v) => (size * (precision_bits(l.value_precision) - precision_bits(v)) / 8) as nat,
        None => match lower_precision(l.key_precision) {
            Some(k) => (size * (precision_bits(l.key_precision) - precision_bits(k)) / 8) as nat,
            None => 0,
        },
    }
}

/// The cache after the least sensitive layer has lost precision.
pub open spec fn degraded(c: CacheModel) -> CacheModel {
    match least_sensitive(c, c.layers.len() as int) {
        None => c,
        Some(i) => CacheModel {
            layers: c.layers.update(i, degraded_layer(c.layers[i], c.size)),
            memory: (c.memory - saved_bytes(c.layers[i], c.size) * c.layers[i].tokens.len()) as usize,
            ..c
        },
    }
}

/// The cache after a token has been appended: beyond the budget, one layer
/// loses precision.
pub open spec fn appended(c: CacheModel, layer: int, t: TokenModel) -> CacheModel {
    let n = with_token(c, layer, t);
    if n.memory > n.budget {
        degraded(n)
    } else {
        n
    }
}

proof fn lemma_least_sensitive(c: CacheModel, n: int)
    requires
        0 <= n <= c.layers.len(),
    ensures
        least_sensitive(c, n) matches Some(i) ==> 0 <= i < n && can_degrade(c.layers[i]),
    decreases n,
{
    if n > 0 {
        lemma_least_sensitive(c, n - 1);
    }
}

proof fn lemma_layer_bytes_update(layers: Seq<LayerModel>, i: int, l: LayerModel)
    requires
        0 <= i < layers.len(),
    ensures
        layer_bytes(layers.update(i, l)) == layer_bytes(layers) - token_bytes(layers[i].tokens)
            + token_bytes(l.tokens),
        token_bytes(layers[i].tokens) <= layer_bytes(layers),
    decreases layers.len(),
{
    let after = layers.update(i, l);
    let front = layers.drop_last();
    if i == layers.len() - 1 {
        assert(after.drop_last() =~= front);
    } else {
        assert(after.drop_last() =~= front.update(i, l));
        lemma_layer_bytes_update(front, i, l);
    }
}

/// What a layer is counted less for is no more than what its data shrinks by.
proof fn lemma_degraded_bytes(l: LayerModel, size: nat, n: nat)
    requires
        layer_ok(l, size),
        can_degrade(l),
        n <= l.tokens.len(),
        0 < l.tokens.len(),
    ensures
        token_bytes(degraded_layer(l, size).tokens.take(n as int)) + saved_bytes(l, size) * n
            <= token_bytes(l.tokens.take(n as int)),
    decreases n,
{
    let d = degraded_layer(l, size);
    let s = saved_bytes(l, size);
    if n == 0 {
        assert(s * 0 == 0) by (nonlinear_arith);
    } else {
        let m = (n - 1) as nat;
        lemma_degraded_bytes(l, size, m);
        assert(d.tokens.take(n as int).drop_last() =~= d.tokens.take(m as int));
        assert(l.tokens.take(n as int).drop_last() =~= l.tokens.take(m as int));
        assert(s * n == s * m + s) by (nonlinear_arith)
            requires
                n == m + 1,
        ;
        assert(token_ok(l.tokens[m as int], l.key_precision, l.value_precision, size));
        lemma_packed_len(size, 8);
        lemma_packed_len(size, 4);
        lemma_packed_len(size, 2);
        lemma_saved_once(size);
    }
}

proof fn lemma_saved_once(size: nat)
    ensures
        packed_len(size, 8) + (size * 8) / 8 <= 2 * size,
        packed_len(size, 4) + (size * 4) / 8 <= packed_len(size, 8),
        packed_len(size, 2) + (size * 2) / 8 <= packed_len(size, 4),
{
    lemma_packed_len(size, 8);
    lemma_packed_len(size, 4);
    lemma_packed_len(size, 2);
}

/// Losing precision keeps a cache in order, keeps every token, and counts no
/// more memory than before.
pub proof fn law_degrading_keeps_tokens(c: CacheModel)
    requires
        cache_ok(c),
    ensures
        cache_ok(degraded(c)),
        degraded(c).memory <= c.memory,
        degraded(c).layers.len() == c.layers.len(),
        forall|i: int|
            0 <= i < c.layers.len() ==> (#[trigger] degraded(c).layers[i]).tokens.len()
                == c.layers[i].tokens.len(),
{
    lemma_least_sensitive(c, c.layers.len() as int);
    if let Some(i) = least_sensitive(c, c.layers.len() as int) {
        let l = c.layers[i];
        let d = degraded_layer(l, c.size);
        let n = l.tokens.len();
        lemma_layer_bytes_update(c.layers, i, d);
        if n > 0 {
            lemma_degraded_bytes(l, c.size, n);
            assert(d.tokens.take(n as int) =~= d.tokens);
            assert(l.tokens.take(n as int) =~= l.tokens);
        } else {
            assert(saved_bytes(l, c.size) * 0 == 0) by (nonlinear_arith);
            assert(d.tokens =~= l.tokens);
        }
        assert(layer_ok(d, c.size)) by {
            assert forall|k: int| 0 <= k < d.tokens.len() implies token_ok(
                #[trigger] d.tokens[k],
                d.key_precision,
                d.value_precision,
                c.size,
            ) by {
                assert(token_ok(l.tokens[k], l.key_precision, l.value_precision, c.size));
            }
        }
    }
}

/// Appending a token keeps a cache in order and adds it to its layer.
pub proof fn law_appending_keeps_order(c: CacheModel, layer: int, t: TokenModel)
    requires
        cache_ok(c),
        0 <= layer < c.layers.len(),
        token_ok(t, c.layers[layer].key_precision, c.layers[layer].value_precision, c.size),
        c.memory + token_memory(t) <= usize::MAX,
    ensures
        cache_ok(with_token(c, layer, t)),
        cache_ok(appended(c, layer, t)),
        appended(c, layer, t).layers[layer].tokens.len() == c.layers[layer].tokens.len() + 1,
{
    let l = c.layers[layer];
    let m = LayerModel { tokens: l.tokens.push(t), ..l };
    lemma_layer_bytes_update(c.layers, layer, m);
    assert(m.tokens.drop_last() =~= l.tokens);
    assert(layer_ok(m, c.size)) by {
        assert forall|k: int| 0 <= k < m.tokens.len() implies token_ok(
            #[trigger] m.tokens[k],
            m.key_precision,
            m.value_precision,
            c.size,
        ) by {
            if k < l.tokens.len() {
                assert(m.tokens[k] == l.tokens[k]);
            }
        }
    }
    law_degrading_keeps_tokens(with_token(c, layer, t));
}

/// A cache of keys and values that loses precision under memory pressure.
pub struct ProgressiveKVCache {
    combined: Vec<u32>,
    layers: Vec<KVCacheLayer>,
    memory_budget: usize,
    current_memory: usize,
    head_dim: usize,
    num_heads: usize,
}

impl View for ProgressiveKVCache {
    type V = CacheModel;

    closed spec fn view(&self) -> CacheModel {
        CacheModel {
            combined: self.combined@,
            layers: layer_models(self.layers@),
            budget: self.memory_budget,
            memory: self.current_memory,
            size: (self.num_heads * self.head_dim) as nat,
            head: self.head_dim as nat,
        }
    }
}

/// An empty layer with the precisions of a profile.
pub open spec fn empty_layer(l: LayerSensitivity) -> LayerModel {
    LayerModel {
        tokens: Seq::empty(),
        key_precision: l.key_default_precision,
        value_precision: l.value_default_precision,
    }
}

fn lower_values(
    tokens: &mut Vec<KVToken>,
    from: KVPrecision,
    to: KVPrecision,
    size: usize,
)
    requires
        to != KVPrecision::FP16,
        precision_bits(to) <= precision_bits(from),
        size + 8 <= usize::MAX,
    ensures
        token_models(final(tokens)@) == token_models(old(tokens)@).map_values(
            |t: TokenModel| with_lower_value(t, from, to, size as nat),
        ),
{
    let ghost start = token_models(tokens@);
    let ghost goal = start.map_values(
        |t: TokenModel| with_lower_value(t, from, to, size as nat),
    );
    let len: usize = tokens.len();
    let mut i: usize = 0;
    while i < len
        invariant
            i <= len == tokens@.len(),
            start.len() == len,
            to != KVPrecision::FP16,
            precision_bits(to) <= precision_bits(from),
            size + 8 <= usize::MAX,
            goal == start.map_values(|t: TokenModel| with_lower_value(t, from, to, size as nat)),
            forall|k: int| 0 <= k < i ==> (#[trigger] tokens@[k])@ == goal[k],
            forall|k: int| i <= k < len ==> (#[trigger] tokens@[k])@ == start[k],
        decreases len - i,
    {
        let data: Vec<u8> = right_shift_packed(tokens[i].value_data.as_slice(), from, to, size);
        let old_token: &KVToken = &tokens[i];
        let next: KVToken = KVToken {
            key_data: old_token.key_data.clone(),
            value_data: data,
            key_scales: old_token.key_scales.clone(),
            key_zeros: old_token.key_zeros.clone(),
            value_scale: old_token.value_scale,
            value_zero: old_token.value_zero,
        };
        assert(next@ == goal[i as int]);
        tokens[i] = next;
        i += 1;
    }
    assert(token_models(tokens@) =~= goal);
}

fn lower_keys(tokens: &mut Vec<KVToken>, from: KVPrecision, to: KVPrecision, size: usize)
    requires
        to != KVPrecision::FP16,
        precision_bits(to) <= precision_bits(from),
        size + 8 <= usize::MAX,
    ensures
        token_models(final(tokens)@) == token_models(old(tokens)@).map_values(
            |t: TokenModel| with_lower_key(t, from, to, size as nat),
        ),
{
    let ghost start = token_models(tokens@);
    let ghost goal = start.map_values(|t: TokenModel| with_lower_key(t, from, to, size as nat));
    let len: usize = tokens.len();
    let mut i: usize = 0;
    while i < len
        invariant
            i <= len == tokens@.len(),
            start.len() == len,
            to != KVPrecision::FP16,
            precision_bits(to) <= precision_bits(from),
            size + 8 <= usize::MAX,
            goal == start.map_values(|t: TokenModel| with_lower_key(t, from, to, size as nat)),
            forall|k: int| 0 <= k < i ==> (#[trigger] tokens@[k])@ == goal[k],
            forall|k: int| i <= k < len ==> (#[trigger] tokens@[k])@ == start[k],
        decreases len - i,
    {
        let data: Vec<u8> = right_shift_packed(tokens[i].key_data.as_slice(), from, to, size);
        let old_token: &KVToken = &tokens[i];
        let next: KVToken = KVToken {
            key_data: data,
            value_data: old_token.value_data.clone(),
            key_scales: old_token.key_scales.clone(),
            key_zeros: old_token.key_zeros.clone(),
            value_scale: old_token.value_scale,
            value_zero: old_token.value_zero,
        };
        assert(next@ == goal[i as int]);
        tokens[i] = next;
        i += 1;
    }
    assert(token_models(tokens@) =~= goal);
}

/// The bytes of so many elements of so many bits, rounded down.
fn bytes_of(size: usize, bits: usize) -> (r: usize)
    requires
        bits <= 8,
        size * 8 <= usize::MAX,
    ensures
        r == size * bits / 8,
{
    assert(size * bits <= size * 8) by (nonlinear_arith)
        requires
            bits <= 8,
    ;
    size * bits / 8
}

impl ProgressiveKVCache {
    /// An empty cache with the precisions of a profile.
    pub fn new(
        profile: &KVTunerProfile,
        memory_budget: usize,
        head_dim: usize,
        num_heads: usize,
    ) -> (r: Self)
        ensures
            cache_ok(r@),
            r@.combined == profile.layers@.map_values(|l: LayerSensitivity| combined_sensitivity(l)),
            r@.layers == profile.layers@.map_values(|l: LayerSensitivity| empty_layer(l)),
            r@.budget == memory_budget,
            r@.memory == 0,
            r@.size == num_heads * head_dim,
            r@.head == head_dim,
    {
        let len: usize = profile.layers.len();
        let mut combined: Vec<u32> = Vec::new();
        let mut layers: Vec<KVCacheLayer> = Vec::new();
        let ghost wanted = profile.layers@.map_values(|l: LayerSensitivity| empty_layer(l));
        let mut i: usize = 0;
        while i < len
            invariant
                i <= len == profile.layers@.len(),
                wanted == profile.layers@.map_values(|l: LayerSensitivity| empty_layer(l)),
                combined@ =~= profile.layers@.map_values(
                    |l: LayerSensitivity| combined_sensitivity(l),
                ).take(i as int),
                layer_models(layers@) =~= wanted.take(i as int),
            decreases len - i,
        {
            let ghost before = layer_models(layers@);
            combined.push(
                add_singles(profile.layers[i].key_sensitivity, profile.layers[i].value_sensitivity),
            );
            let l: KVCacheLayer = KVCacheLayer {
                tokens: Vec::new(),
                key_precision: profile.layers[i].key_default_precision,
                value_precision: profile.layers[i].value_default_precision,
            };
            assert(l@ =~= wanted[i as int]) by {
                assert(token_models(l.tokens@) =~= Seq::empty());
            }
            layers.push(l);
            assert(layer_models(layers@) =~= before.push(l@));
            i += 1;
        }
        assert(wanted.take(len as int) =~= wanted);
        proof {
            lemma_no_bytes(wanted);
        }
        ProgressiveKVCache {
            combined,
            layers,
            memory_budget,
            current_memory: 0,
            head_dim,
            num_heads,
        }
    }

    fn find_least_sensitive(&self) -> (r: Option<usize>)
        requires
            self@.combined.len() == self@.layers.len(),
        ensures
            match r {
                Some(i) => least_sensitive(self@, self@.layers.len() as int) == Some(i as int) && i
                    < self@.layers.len(),
                None => least_sensitive(self@, self@.layers.len() as int) is None,
            },
    {
        let len: usize = self.layers.len();
        let mut best: Option<usize> = None;
        let mut i: usize = 0;
        while i < len
            invariant
                i <= len == self@.layers.len() == self.layers@.len(),
                self@.combined.len() == len,
                self@.combined == self.combined@,
                self@.layers == layer_models(self.layers@),
                match best {
                    Some(b) => least_sensitive(self@, i as int) == Some(b as int) && b < i,
                    None => least_sensitive(self@, i as int) is None,
                },
            decreases len - i,
        {
            assert(self@.layers[i as int] == self.layers@[i as int]@);
            if self.layers[i].value_precision.degrade().is_some()
                || self.layers[i].key_precision.degrade().is_some() {
                match best {
                    None => {
                        best = Some(i);
                    },
                    Some(b) => {
                        if bits_less(self.combined[i], self.combined[b]) {
                            best = Some(i);
                        }
                    },
                }
            }
            i += 1;
        }
        best
    }

    fn degrade_least_sensitive(&mut self)
        requires
            cache_ok(old(self)@),
            old(self)@.size * 8 <= usize::MAX,
            old(self)@.size + 8 <= usize::MAX,
        ensures
            final(self)@ == degraded(old(self)@),
    {
        let ghost c = self@;
        proof {
            law_degrading_keeps_tokens(c);
            lemma_least_sensitive(c, c.layers.len() as int);
        }
        let at: usize = match self.find_least_sensitive() {
            Some(i) => i,
            None => {
                return;
            },
        };
        let ghost l = c.layers[at as int];
        let ghost d = degraded_layer(l, c.size);
        assert(l == self.layers@[at as int]@);
        proof {
            lemma_layer_bytes_update(c.layers, at as int, d);
            if l.tokens.len() > 0 {
                lemma_degraded_bytes(l, c.size, l.tokens.len());
                assert(d.tokens.take(l.tokens.len() as int) =~= d.tokens);
                assert(l.tokens.take(l.tokens.len() as int) =~= l.tokens);
            } else {
                assert(saved_bytes(l, c.size) * 0 == 0) by (nonlinear_arith);
            }
        }
        let size: usize = self.num_heads * self.head_dim;
        let mut layer: KVCacheLayer = KVCacheLayer {
            tokens: Vec::new(),
            key_precision: self.layers[at].key_precision,
            value_precision: self.layers[at].value_precision,
        };
        std::mem::swap(&mut layer.tokens, &mut self.layers[at].tokens);
        let count: usize = layer.tokens.len();
        let vp: KVPrecision = layer.value_precision;
        let kp: KVPrecision = layer.key_precision;
        let saved: usize = match vp.degrade() {
            Some(v) => {
                lower_values(&mut layer.tokens, vp, v, size);
                layer.value_precision = v;
                bytes_of(size, vp.bits() - v.bits())
            },
            None => match kp.degrade() {
                Some(k) => {
                    lower_keys(&mut layer.tokens, kp, k, size);
                    layer.key_precision = k;
                    bytes_of(size, kp.bits() - k.bits())
                },
                None => 0,
            },
        };
        assert(layer@ =~= d);
        self.current_memory = self.current_memory - saved * count;
        self.layers[at] = layer;
        assert(layer_models(self.layers@) =~= c.layers.update(at as int, d));
    }

    /// Appends the key and the value of a token to a layer. Beyond the budget,
    /// the least sensitive layer loses precision, its values before its keys.
    pub fn append(&mut self, layer_idx: usize, key: &Vec<u32>, value: &Vec<u32>)
        requires
            cache_ok(old(self)@),
            layer_idx < old(self)@.layers.len(),
            key@.len() == old(self)@.size,
            value@.len() == old(self)@.size,
            old(self)@.head > 0,
            old(self)@.size * 8 <= usize::MAX,
            old(self)@.size + old(self)@.head + 8 <= usize::MAX,
            old(self)@.memory + token_memory(
                kept_token(
                    key@,
                    value@,
                    old(self)@.head,
                    old(self)@.layers[layer_idx as int].key_precision,
                    old(self)@.layers[layer_idx as int].value_precision,
                ),
            ) <= usize::MAX,
        ensures
            cache_ok(final(self)@),
            final(self)@ == appended(
                old(self)@,
                layer_idx as int,
                kept_token(
                    key@,
                    value@,
                    old(self)@.head,
                    old(self)@.layers[layer_idx as int].key_precision,
                    old(self)@.layers[layer_idx as int].value_precision,
                ),
            ),
    {
        let ghost c = self@;
        let ghost l = c.layers[layer_idx as int];
        assert(l == self.layers@[layer_idx as int]@);
        let kp: KVPrecision = self.layers[layer_idx].key_precision;
        let vp: KVPrecision = self.layers[layer_idx].value_precision;
        let ghost kept = kept_token(key@, value@, c.head, kp, vp);
        let (key_data, key_scales, key_zeros) = quantize_per_channel(key, self.head_dim, kp);
        let (value_data, value_scale, value_zero) = quantize_per_token(value, vp);
        proof {
            law_appending_keeps_order(c, layer_idx as int, kept);
        }
        let next: KVToken = KVToken {
            key_data,
            value_data,
            key_scales,
            key_zeros,
            value_scale,
            value_zero,
        };
        assert(next@ =~= kept);
        let memory: usize = next.key_data.len() + next.value_data.len() + next.key_scales.len() * 4
            + next.key_zeros.len() * 4 + 8;
        self.current_memory = self.current_memory + memory;
        self.layers[layer_idx].tokens.push(next);
        proof {
            let now = self.layers@[layer_idx as int];
            assert(token_models(now.tokens@) =~= l.tokens.push(kept));
            assert(layer_models(self.layers@) =~= with_token(c, layer_idx as int, kept).layers);
            assert(self@ =~= with_token(c, layer_idx as int, kept));
        }
        if self.current_memory > self.memory_budget {
            self.degrade_least_sensitive();
        }
    }

    /// The memory that the cache counts.
    pub fn memory_usage(&self) -> (r: usize)
        ensures
            r == self@.memory,
    {
        self.current_memory
    }

    /// The number of tokens of each layer.
    pub fn tokens_per_layer(&self) -> (r: Vec<usize>)
        ensures
            r@.len() == self@.layers.len(),
            forall|i: int| 0 <= i < r@.len() ==> #[trigger] r@[i] == self@.layers[i].tokens.len(),
    {
        let mut out: Vec<usize> = Vec::new();
        let mut i: usize = 0;
        while i < self.layers.len()
            invariant
                i <= self.layers@.len(),
                self@.layers == layer_models(self.layers@),
                out@.len() == i,
                forall|k: int| 0 <= k < i ==> #[trigger] out@[k] == self@.layers[k].tokens.len(),
            decreases self.layers@.len() - i,
        {
            assert(self@.layers[i as int] == self.layers@[i as int]@);
            out.push(self.layers[i].tokens.len());
            i += 1;
        }
        out
    }

    /// The precisions of each layer, of keys and of values.
    pub fn precision_per_layer(&self) -> (r: Vec<(KVPrecision, KVPrecision)>)
        ensures
            r@.len() == self@.layers.len(),
            forall|i: int|
                0 <= i < r@.len() ==> #[trigger] r@[i] == (
                    self@.layers[i].key_precision,
                    self@.layers[i].value_precision,
                ),
    {
        let mut out: Vec<(KVPrecision, KVPrecision)> = Vec::new();
        let mut i: usize = 0;
        while i < self.layers.len()
            invariant
                i <= self.layers@.len(),
                self@.layers == layer_models(self.layers@),
                out@.len() == i,
                forall|k: int|
                    0 <= k < i ==> #[trigger] out@[k] == (
                        self@.layers[k].key_precision,
                        self@.layers[k].value_precision,
                    ),
            decreases self.layers@.len() - i,
        {
            assert(self@.layers[i as int] == self.layers@[i as int]@);
            out.push((self.layers[i].key_precision, self.layers[i].value_precision));
            i += 1;
        }
        out
    }

    /// The number of tokens of all layers.
    pub fn total_tokens(&self) -> (r: usize)
        requires
            all_tokens(self@.layers) <= usize::MAX,
        ensures
            r == all_tokens(self@.layers),
    {
        let ghost layers = self@.layers;
        let mut total: usize = 0;
        let mut i: usize = 0;
        assert(layers.take(0) =~= Seq::empty());
        while i < self.layers.len()
            invariant
                i <= self.layers@.len(),
                layers == layer_models(self.layers@),
                all_tokens(layers) <= usize::MAX,
                total == all_tokens(layers.take(i as int)),
            decreases self.layers@.len() - i,
        {
            assert(layers.take(i + 1).drop_last() =~= layers.take(i as int));
            assert(layers.take(i + 1).last() == self.layers@[i as int]@);
            proof {
                lemma_all_tokens_mono(layers, i + 1);
            }
            total += self.layers[i].tokens.len();
            i += 1;
        }
        assert(layers.take(layers.len() as int) =~= layers);
        total
    }

    /// Forgets all tokens; the precisions stay.
    pub fn clear(&mut self)
        requires
            cache_ok(old(self)@),
        ensures
            cache_ok(final(self)@),
            final(self)@ == cleared(old(self)@),
    {
        let ghost c = self@;
        let len: usize = self.layers.len();
        let mut i: usize = 0;
        while i < len
            invariant
                i <= len == self.layers@.len() == c.layers.len(),
                self.combined@ == c.combined,
                self.memory_budget == c.budget,
                self.num_heads * self.head_dim == c.size,
                self.head_dim == c.head,
                forall|k: int|
                    0 <= k < i ==> (#[trigger] self.layers@[k])@ == cleared(c).layers[k],
                forall|k: int| i <= k < len ==> (#[trigger] self.layers@[k])@ == c.layers[k],
            decreases len - i,
        {
            let l: KVCacheLayer = KVCacheLayer {
                tokens: Vec::new(),
                key_precision: self.layers[i].key_precision,
                value_precision: self.layers[i].value_precision,
            };
            assert(token_models(l.tokens@) =~= Seq::empty());
            self.layers[i] = l;
            i += 1;
        }
        self.current_memory = 0;
        proof {
            assert(layer_models(self.layers@) =~= cleared(c).layers);
            lemma_no_bytes(cleared(c).layers);
        }
    }
}

/// A cache without its tokens.
pub open spec fn cleared(c: CacheModel) -> CacheModel {
    CacheModel {
        layers: c.layers.map_values(|l: LayerModel| LayerModel { tokens: Seq::empty(), ..l }),
        memory: 0,
        ..c
    }
}

/// The number of tokens of layers.
pub open spec fn all_tokens(layers: Seq<LayerModel>) -> nat
    decreases layers.len(),
{
    if layers.len() == 0 {
        0
    } else {
        all_tokens(layers.drop_last()) + layers.last().tokens.len()
    }
}

proof fn lemma_all_tokens_mono(layers: Seq<LayerModel>, n: int)
    requires
        0 <= n <= layers.len(),
    ensures
        all_tokens(layers.take(n)) <= all_tokens(layers),
    decreases layers.len() - n,
{
    if n == layers.len() {
        assert(layers.take(n) =~= layers);
    } else {
        lemma_all_tokens_mono(layers, n + 1);
        assert(layers.take(n + 1).drop_last() =~= layers.take(n));
    }
}

proof fn lemma_no_bytes(layers: Seq<LayerModel>)
    requires
        forall|i: int| 0 <= i < layers.len() ==> (#[trigger] layers[i]).tokens.len() == 0,
    ensures
        layer_bytes(layers) == 0,
        all_tokens(layers) == 0,
    decreases layers.len(),
{
    if layers.len() > 0 {
        lemma_no_bytes(layers.drop_last());
        assert(layers[layers.len() - 1].tokens.len() == 0);
    }
}

/// A cleared cache has no tokens and counts no memory.
pub proof fn law_cleared_cache_is_empty(c: CacheModel)
    ensures
        cleared(c).memory == 0,
        all_tokens(cleared(c).layers) == 0,
{
    lemma_no_bytes(cleared(c).layers);
}

} // verus!
