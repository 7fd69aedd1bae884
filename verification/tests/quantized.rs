//! Vectors in few bits: from floats to codes and back.

use std::collections::HashSet;

use epistemos_recall::quant::butterfly::{
    next_state, reconstruction_loss, stage_pairs, stage_strides, ButterflyRotation, RotationTurns,
    StageTurns,
};
use epistemos_recall::quant::descent::{Descent, NUDGE};
use epistemos_recall::quant::grid::{grid, value_of, Grid};
use epistemos_recall::quant::kitty::{
    compute_channel_sensitivities, kitty_dequantize, kitty_memory_bytes, kitty_quantize,
    ChannelSensitivity, KittyBoostMap, KittyConfig,
};
use epistemos_recall::quant::kv_cache::{profile_kv_sensitivity, KVTunerConfig, KVTunerProfile};
use epistemos_recall::quant::kv_codes::{quantize_per_channel, quantize_per_token};
use epistemos_recall::quant::kv_store::ProgressiveKVCache;
use epistemos_recall::quant::lloyd::{lloyd_max_quantize_value, lloyd_max_quantizer};
use epistemos_recall::quant::precision::{right_shift_packed, KVPrecision};
use epistemos_recall::quant::products::{dot_product, normalize};
use epistemos_recall::quant::tmac::{
    build_group_lut, read_pattern, tmac_batch_dot_product, tmac_dot_product, tmac_quantize,
    TMacVector,
};
use epistemos_recall::quant::turbo::{
    compression_ratio, turbo_dequantize, turbo_dequantize_pre_rotated, turbo_dot_product_pre_rotated,
    turbo_dot_product_rotated, turbo_quantize, turbo_quantize_pre_rotated, walsh_hadamard_inverse,
    walsh_hadamard_transform, TurboQuantBits,
};
use epistemos_recall::single::{
    add_singles, divide_singles, multiply_singles, root_single, round_up, single_of,
    subtract_singles,
};

fn bits(values: &[f32]) -> Vec<u32> {
    values.iter().map(|v| v.to_bits()).collect()
}

fn floats(values: &[u32]) -> Vec<f32> {
    values.iter().map(|&v| f32::from_bits(v)).collect()
}

// Single-precision arithmetic.

/// Numbers of all kinds: special ones, and patterns from a generator.
fn samples() -> Vec<u32> {
    let mut out = vec![
        0,
        1,
        2,
        0x007f_ffff,
        0x0080_0000,
        0x0080_0001,
        0x00ff_ffff,
        0x2edb_e6ff,
        0x3f00_0000,
        0x3f80_0000,
        0x3f80_0001,
        0x4040_0000,
        0x4b7f_ffff,
        0x4b80_0000,
        0x7f00_0000,
        0x7f7f_ffff,
        0x7f80_0000,
        0x7f80_0001,
        0x7fc0_0000,
    ];
    let mut state = 0x9e37_79b9_7f4a_7c15;
    for i in 0..300 {
        state = next_state(state);
        let pattern = (state >> 16) as u32;
        out.push(pattern);
        let near = 0x3e00_0000 + pattern % 0x0300_0000;
        out.push(if i % 2 == 0 { near } else { near | 0x8000_0000 });
        out.push(pattern % 0x0200_0000);
    }
    let signed: Vec<u32> = out.iter().map(|b| b ^ 0x8000_0000).take(40).collect();
    out.extend(signed);
    out
}

fn same(ours: u32, hardware: f32, what: &str, a: u32, b: u32) {
    if hardware.is_nan() {
        assert_eq!(ours, 0x7fc0_0000, "{what} of {a:#x} and {b:#x}");
    } else {
        assert_eq!(ours, hardware.to_bits(), "{what} of {a:#x} and {b:#x}");
    }
}

#[test]
fn arithmetic_is_what_the_hardware_computes() {
    let all = samples();
    for &a in &all {
        let x = f32::from_bits(a);
        same(root_single(a), x.sqrt(), "root", a, a);
        assert_eq!(round_up(a), x.ceil() as usize, "{a:#x} rounded up");
        for &b in &all {
            let y = f32::from_bits(b);
            same(add_singles(a, b), x + y, "sum", a, b);
            same(subtract_singles(a, b), x - y, "difference", a, b);
            same(multiply_singles(a, b), x * y, "product", a, b);
            same(divide_singles(a, b), x / y, "quotient", a, b);
        }
    }
    for n in [0, 1, 255, 0x100_0001, 0x100_0003, u64::MAX - 1, u64::MAX] {
        assert_eq!(single_of(n), (n as f32).to_bits());
    }
}

// Grids.

fn hardware_grid(values: &[f32], levels: u8) -> Grid {
    let (min, max) = values
        .iter()
        .fold((f32::MAX, f32::MIN), |(mn, mx), &v| (mn.min(v), mx.max(v)));
    let range = max - min;
    let scale = if range > 1e-10 { range / levels as f32 } else { 1.0 };
    let codes = values
        .iter()
        .map(|v| ((v - min) / scale).round().clamp(0.0, levels as f32) as u8)
        .collect();
    Grid { codes, scale: scale.to_bits(), zero: min.to_bits() }
}

#[test]
fn grids_are_what_the_hardware_computes() {
    let mut vectors: Vec<Vec<f32>> = vec![
        vec![],
        vec![0.25],
        vec![0.5; 7],
        vec![1e-11, 2e-11],
        vec![f32::MAX, -f32::MAX, 0.0],
        vec![1.0, f32::INFINITY, -3.0],
        vec![1.0, f32::NAN, -3.0, 2.0],
        (0..100).map(|i| (i as f32 * 0.37).sin() * 5.0).collect(),
    ];
    for chunk in samples().chunks(17) {
        vectors.push(chunk.iter().map(|&b| f32::from_bits(b)).filter(|x| *x != 0.0).collect());
    }
    for v in &vectors {
        for levels in [1, 3, 15, 255] {
            let ours = grid(&bits(v), levels);
            let hardware = hardware_grid(v, levels);
            assert_eq!(ours.codes, hardware.codes, "codes of {v:?}");
            same(ours.scale, f32::from_bits(hardware.scale), "step", 0, 0);
            assert_eq!(ours.zero, hardware.zero, "start of {v:?}");
            for (code, x) in ours.codes.iter().zip(v) {
                let level = *code as f32 * f32::from_bits(hardware.scale)
                    + f32::from_bits(hardware.zero);
                same(value_of(*code, ours.scale, ours.zero), level, "level", x.to_bits(), 0);
            }
        }
    }
}

#[test]
fn the_least_number_has_the_code_zero_and_the_greatest_the_last() {
    let g = grid(&bits(&[-2.0, 6.0, 1.0, 2.0]), 4);
    assert_eq!(g.codes, vec![0, 4, 2, 2]);
    assert_eq!(f32::from_bits(g.scale), 2.0);
    assert_eq!(f32::from_bits(g.zero), -2.0);
}

// Two tensors.

#[test]
fn quantize_dequantize_roundtrip() {
    let dim = 16;
    let boost_map = KittyBoostMap::uniform(dim, 0.25_f32.to_bits());
    let vector: Vec<f32> = (0..dim).map(|i| (i as f32) * 0.1 - 0.5).collect();

    let kv = kitty_quantize(&bits(&vector), &boost_map);
    let restored = floats(&kitty_dequantize(&kv, &boost_map));

    assert_eq!(restored.len(), dim);
    for i in 0..dim {
        let err = (restored[i] - vector[i]).abs();
        if boost_map.is_boosted(i) {
            assert!(err < 0.3, "Boosted channel {i}: err={err} too high");
        }
    }
}

#[test]
fn boost_map_selects_correct_count() {
    let dim = 128;
    let config = KittyConfig { boost_ratio: 0.125_f32.to_bits(), dim };
    let sensitivities: Vec<ChannelSensitivity> = (0..dim)
        .map(|i| ChannelSensitivity {
            channel_idx: i,
            mse_score: (i as f32).to_bits(),
        })
        .collect();
    let map = KittyBoostMap::from_sensitivities(&sensitivities, &config);
    assert_eq!(map.num_boosted(), 16);
    for &idx in &map.boosted_indices {
        assert!(
            idx >= 112,
            "Expected high-index channels to be boosted, got {idx}"
        );
    }
    assert!(map.is_boosted(112));
    assert!(!map.is_boosted(111));
}

#[test]
fn boosted_channels_have_lower_error() {
    let dim = 64;
    let boost_map = KittyBoostMap::uniform(dim, 0.25_f32.to_bits());
    let vector: Vec<f32> = (0..dim)
        .map(|i| if i < 16 { (i as f32) * 0.5 - 4.0 } else { 0.1 })
        .collect();
    let kv = kitty_quantize(&bits(&vector), &boost_map);
    let restored = floats(&kitty_dequantize(&kv, &boost_map));
    let boosted_mse: f32 = (0..16)
        .map(|i| (restored[i] - vector[i]).powi(2))
        .sum::<f32>()
        / 16.0;
    let unboosted_mse: f32 = (16..dim)
        .map(|i| (restored[i] - vector[i]).powi(2))
        .sum::<f32>()
        / (dim - 16) as f32;
    assert!(boosted_mse.is_finite());
    assert!(unboosted_mse.is_finite());
}

#[test]
fn memory_footprint_calculation() {
    let bytes = kitty_memory_bytes(384, 0.25_f32.to_bits());
    let base = (384 + 3) / 4;
    let boost = (96 + 3) / 4;
    let meta = 16;
    assert_eq!(bytes, base + boost + meta);
}

#[test]
fn sensitivity_computation() {
    let dim = 8;
    let data: Vec<Vec<u32>> = vec![
        bits(&[10.0, 0.1, 0.1, 0.1, 0.1, 0.1, 0.1, 0.1]),
        bits(&[-10.0, 0.2, 0.2, 0.2, 0.2, 0.2, 0.2, 0.2]),
        bits(&[5.0, 0.15, 0.15, 0.15, 0.15, 0.15, 0.15, 0.15]),
    ];

    let sens = compute_channel_sensitivities(&data, dim);
    assert_eq!(sens.len(), dim);
    let score = |s: &ChannelSensitivity| f32::from_bits(s.mse_score);
    let max_channel = sens
        .iter()
        .max_by(|a, b| score(a).partial_cmp(&score(b)).unwrap())
        .unwrap();
    assert_eq!(max_channel.channel_idx, 0);
    assert!(compute_channel_sensitivities(&vec![], 3).iter().all(|s| s.mse_score == 0));
}

#[test]
fn empty_boost_works() {
    let dim = 16;
    let config = KittyConfig { boost_ratio: 0.0_f32.to_bits(), dim };
    let sensitivities: Vec<ChannelSensitivity> = (0..dim)
        .map(|i| ChannelSensitivity { channel_idx: i, mse_score: 0 })
        .collect();
    let map = KittyBoostMap::from_sensitivities(&sensitivities, &config);
    assert_eq!(map.num_boosted(), 0);

    let vector: Vec<f32> = (0..dim).map(|i| i as f32).collect();
    let kv = kitty_quantize(&bits(&vector), &map);
    assert!(kv.boost.is_empty());

    let restored = kitty_dequantize(&kv, &map);
    assert_eq!(restored.len(), dim);
}

#[test]
fn the_most_sensitive_channels_are_boosted_in_order() {
    let scores = [0.5_f32, -1.0, 9.0, 0.5, f32::INFINITY];
    let sensitivities: Vec<ChannelSensitivity> = scores
        .iter()
        .enumerate()
        .map(|(i, s)| ChannelSensitivity { channel_idx: i, mse_score: s.to_bits() })
        .collect();
    let config = KittyConfig { boost_ratio: 0.5_f32.to_bits(), dim: 5 };
    let map = KittyBoostMap::from_sensitivities(&sensitivities, &config);
    assert_eq!(map.boosted_indices, vec![0, 2, 4]);
    assert!(!map.is_boosted(3));
    assert_eq!(KittyConfig::default(), KittyConfig {
        boost_ratio: 0.25_f32.to_bits(),
        dim: 384
    });
}

#[test]
fn two_tensors_are_what_the_hardware_computes() {
    let vector: Vec<f32> = (0..50).map(|i| (i as f32 * 1.7).sin() * 3.0 + 0.25).collect();
    let map = KittyBoostMap::uniform(50, 0.3_f32.to_bits());
    let n = (50.0_f32 * 0.3).ceil() as usize;
    assert_eq!(map.num_boosted(), n);
    let kv = kitty_quantize(&bits(&vector), &map);
    let level = |g: &Grid, i: usize| {
        g.codes[i] as f32 * f32::from_bits(g.scale) + f32::from_bits(g.zero)
    };
    let base = hardware_grid(&vector, 3);
    let rest: Vec<f32> = (0..n).map(|i| vector[i] - level(&base, i)).collect();
    let boost = hardware_grid(&rest, 3);
    assert_eq!(kv.base[0], base.codes[..4].iter().rev().fold(0, |b, c| b << 2 | c));
    assert_eq!((kv.base_scale, kv.base_zero), (base.scale, base.zero));
    assert_eq!((kv.boost_scale, kv.boost_zero), (boost.scale, boost.zero));
    let restored = kitty_dequantize(&kv, &map);
    for i in 0..50 {
        let expected = if i < n { level(&base, i) + level(&boost, i) } else { level(&base, i) };
        assert_eq!(restored[i], expected.to_bits());
    }
}

// Rotated vectors.

#[test]
fn wht_is_own_inverse() {
    let original = vec![1.0, 2.0, 3.0, 4.0, 5.0, 6.0, 7.0, 8.0];
    let mut x = bits(&original);
    walsh_hadamard_transform(&mut x);
    assert!(floats(&x)
        .iter()
        .zip(original.iter())
        .any(|(a, b)| (a - b).abs() > 0.01));
    walsh_hadamard_inverse(&mut x);
    for (a, b) in floats(&x).iter().zip(original.iter()) {
        assert!(
            (a - b).abs() < 1e-4,
            "WHT roundtrip failed: got {a}, expected {b}"
        );
    }
}

#[test]
fn wht_preserves_norm() {
    let x: Vec<f32> = vec![3.0, -1.0, 4.0, 1.5, -2.0, 0.5, 7.0, -3.0];
    let original_norm: f32 = x.iter().map(|v| v * v).sum::<f32>().sqrt();

    let mut transformed = bits(&x);
    walsh_hadamard_transform(&mut transformed);
    let transformed_norm: f32 = floats(&transformed).iter().map(|v| v * v).sum::<f32>().sqrt();

    assert!(
        (original_norm - transformed_norm).abs() < 1e-3,
        "WHT must preserve L2 norm: {original_norm} vs {transformed_norm}"
    );
}

fn hardware_transform(x: &mut [f32]) {
    let n = x.len();
    let mut h = 1;
    while h < n {
        for i in (0..n).step_by(h * 2) {
            for j in i..i + h {
                let (a, b) = (x[j], x[j + h]);
                x[j] = a + b;
                x[j + h] = a - b;
            }
        }
        h *= 2;
    }
    let norm = (n as f32).sqrt();
    x.iter_mut().for_each(|v| *v /= norm);
}

#[test]
fn transforms_are_what_the_hardware_computes() {
    for k in 0..8 {
        let mut x: Vec<f32> = (0..1 << k).map(|i| (i as f32 * 0.77).cos() * 4.0).collect();
        let mut ours = bits(&x);
        walsh_hadamard_transform(&mut ours);
        hardware_transform(&mut x);
        assert_eq!(ours, bits(&x));
    }
}

#[test]
fn quantize_dequantize_4bit() {
    let vector: Vec<f32> = (0..64).map(|i| (i as f32 * 0.1).sin()).collect();
    let tqv = turbo_quantize(bits(&vector), TurboQuantBits::Bit4);
    let restored = floats(&turbo_dequantize(&tqv));

    assert_eq!(restored.len(), 64);
    let mse: f32 = vector
        .iter()
        .zip(restored.iter())
        .map(|(a, b)| (a - b).powi(2))
        .sum::<f32>()
        / vector.len() as f32;
    assert!(mse < 0.1, "4-bit TurboQuant MSE too high: {mse}");
}

#[test]
fn quantize_dequantize_2bit() {
    let vector: Vec<f32> = (0..32).map(|i| (i as f32 * 0.2).cos()).collect();
    let tqv = turbo_quantize(bits(&vector), TurboQuantBits::Bit2);
    let restored = floats(&turbo_dequantize(&tqv));

    assert_eq!(restored.len(), 32);
    let mse: f32 = vector
        .iter()
        .zip(restored.iter())
        .map(|(a, b)| (a - b).powi(2))
        .sum::<f32>()
        / vector.len() as f32;
    assert!(mse < 0.5, "2-bit TurboQuant MSE too high: {mse}");
}

#[test]
fn rotated_space_dot_product() {
    let a: Vec<f32> = (0..64).map(|i| (i as f32 * 0.1).sin()).collect();
    let b: Vec<f32> = (0..64).map(|i| (i as f32 * 0.1).cos()).collect();

    let exact_dot: f32 = a.iter().zip(b.iter()).map(|(x, y)| x * y).sum();

    let mut a_rotated = bits(&a);
    a_rotated.resize(64_usize.next_power_of_two(), 0);
    walsh_hadamard_transform(&mut a_rotated);

    let tqv = turbo_quantize(bits(&b), TurboQuantBits::Bit4);
    let approx_dot = f32::from_bits(turbo_dot_product_rotated(&a_rotated, &tqv));

    let abs_err = (exact_dot - approx_dot).abs();
    let magnitude = exact_dot.abs().max(approx_dot.abs()).max(1.0);
    assert!(
        abs_err / magnitude < 1.0,
        "Rotated dot product too inaccurate: exact={exact_dot}, approx={approx_dot}, abs_err={abs_err}"
    );
}

#[test]
fn compression_ratios() {
    let ratio = |bits| f32::from_bits(compression_ratio(384, bits));
    assert!(ratio(TurboQuantBits::Bit2) > 5.0);
    assert!(ratio(TurboQuantBits::Bit4) > 3.0);
    assert!(ratio(TurboQuantBits::Bit8) > 1.5);
    assert_eq!(ratio(TurboQuantBits::Bit8), 1536.0 / 520.0);
}

#[test]
fn handles_non_power_of_two_dim() {
    let vector: Vec<f32> = (0..300).map(|i| (i as f32 * 0.01).sin()).collect();
    let tqv = turbo_quantize(bits(&vector), TurboQuantBits::Bit4);
    let restored = turbo_dequantize(&tqv);
    assert_eq!(restored.len(), 300);
}

#[test]
fn constant_vector_quantizes_correctly() {
    let vector = vec![0.5_f32; 16];
    let tqv = turbo_quantize(bits(&vector), TurboQuantBits::Bit4);
    let restored = floats(&turbo_dequantize(&tqv));
    for (a, b) in restored.iter().zip(vector.iter()) {
        assert!((a - b).abs() < 0.1, "Constant vector error too high");
    }
}

#[test]
fn vectors_that_were_rotated_before_keep_their_space() {
    let vector: Vec<f32> = (0..7).map(|i| i as f32 - 2.5).collect();
    let tqv = turbo_quantize_pre_rotated(bits(&vector), TurboQuantBits::Bit8);
    let g = hardware_grid(&vector, 255);
    assert_eq!(tqv.data, [g.codes.clone(), vec![0]].concat());
    assert_eq!((tqv.scale, tqv.zero_point, tqv.dim), (g.scale, g.zero, 7));
    let levels = floats(&turbo_dequantize_pre_rotated(&tqv));
    assert_eq!(levels.len(), 8);
    assert_eq!(levels[0], -2.5);
    assert_eq!(levels[7], -2.5);
    let query: Vec<f32> = (0..9).map(|i| i as f32 * 0.5).collect();
    let over = |n: usize| {
        let mut sum = 0.0_f32;
        for i in 0..n {
            sum += query[i] * levels[i];
        }
        sum.to_bits()
    };
    assert_eq!(turbo_dot_product_pre_rotated(&bits(&query), &tqv), over(7));
    assert_eq!(turbo_dot_product_rotated(&bits(&query), &tqv), over(8));
    assert_eq!(turbo_dot_product_rotated(&bits(&query[..3]), &tqv), over(3));
}

// Levels where the values are.

fn hardware_levels(values: &[f32], num_levels: usize, steps: usize) -> (Vec<f32>, Vec<f32>) {
    let mut sorted = values.to_vec();
    sorted.sort_by(|a, b| a.partial_cmp(b).unwrap());
    let (low, high) = (sorted[0], sorted[sorted.len() - 1]);
    let mut levels: Vec<f32> = (0..num_levels)
        .map(|i| low + (high - low) * (i as f32 + 0.5) / num_levels as f32)
        .collect();
    let middle = |levels: &[f32], i: usize| (levels[i - 1] + levels[i]) / 2.0;
    for _ in 0..steps {
        let mut sums = vec![0.0_f32; num_levels];
        let mut counts = vec![0_u32; num_levels];
        for &v in &sorted {
            let region =
                (1..num_levels).find(|&i| v < middle(&levels, i)).unwrap_or(num_levels) - 1;
            sums[region] += v;
            counts[region] += 1;
        }
        let mut settled = true;
        for i in 0..num_levels {
            if counts[i] > 0 {
                let next = sums[i] / counts[i] as f32;
                settled &= (next - levels[i]).abs() <= 1e-6;
                levels[i] = next;
            }
        }
        if settled {
            break;
        }
    }
    let mut boundaries = vec![low];
    boundaries.extend((1..num_levels).map(|i| middle(&levels, i)));
    boundaries.push(high);
    (levels, boundaries)
}

#[test]
fn levels_settle_as_the_hardware_computes() {
    let values: Vec<f32> = (0..200)
        .map(|i| {
            let x = (i as f32 * 0.61).sin();
            x * x * x * 7.0
        })
        .collect();
    for (num_levels, steps) in [(1, 3), (4, 0), (4, 50), (16, 7), (16, 100)] {
        let (levels, boundaries) = lloyd_max_quantizer(&bits(&values), num_levels, steps);
        let (expected, between) = hardware_levels(&values, num_levels, steps);
        assert_eq!(levels, bits(&expected));
        assert_eq!(boundaries, bits(&between));
    }
    assert_eq!(lloyd_max_quantizer(&vec![], 2, 9), (vec![0; 2], vec![0; 3]));
    assert_eq!(lloyd_max_quantizer(&bits(&[1.0]), 0, 9), (vec![], vec![0]));
}

#[test]
fn values_fall_into_regions_between_boundaries() {
    let boundaries = bits(&[f32::NEG_INFINITY, -0.5, 0.0, 0.5, f32::INFINITY]);
    let region = |x: f32| lloyd_max_quantize_value(x.to_bits(), &boundaries, 4);
    assert_eq!(region(-3.0), 0);
    assert_eq!(region(-0.5), 1);
    assert_eq!(region(-0.0), 2);
    assert_eq!(region(0.25), 2);
    assert_eq!(region(7.0), 3);
    assert_eq!(region(f32::NAN), 3);
}

// Bit planes.

fn lut(group: &[f32]) -> Vec<f32> {
    floats(&build_group_lut(&bits(group), 0, group.len()))
}

#[test]
fn lut_pattern_0_is_zero() {
    let lut = lut(&[1.0, 2.0, 3.0, 4.0]);
    assert_eq!(lut[0], 0.0);
}

#[test]
fn lut_pattern_all_set() {
    let lut = lut(&[1.0, 2.0, 3.0, 4.0]);
    assert!((lut[0b1111] - 10.0).abs() < 1e-6);
}

#[test]
fn lut_single_bits() {
    let lut = lut(&[10.0, 20.0, 30.0, 40.0]);
    assert!((lut[0b0001] - 10.0).abs() < 1e-6);
    assert!((lut[0b0010] - 20.0).abs() < 1e-6);
    assert!((lut[0b0100] - 30.0).abs() < 1e-6);
    assert!((lut[0b1000] - 40.0).abs() < 1e-6);
    assert_eq!(lut.len(), 16);
}

#[test]
fn quantize_produces_correct_planes() {
    let vector = vec![0.0, 0.33, 0.66, 1.0];
    let tmac = tmac_quantize(&bits(&vector), 2);
    assert_eq!(tmac.num_bits, 2);
    assert_eq!(tmac.bit_planes.len(), 2);
    assert_eq!(tmac.dim, 4);
    assert_eq!(tmac.bit_planes, vec![vec![0b1010], vec![0b1100]]);
}

fn table_product(query: &[f32], tmac: &TMacVector) -> f32 {
    f32::from_bits(tmac_dot_product(&bits(query), tmac))
}

#[test]
fn tmac_dot_product_basic() {
    let dim = 16;
    let query = vec![1.0_f32; dim];
    let vector: Vec<f32> = (0..dim).map(|i| i as f32 / (dim - 1) as f32).collect();
    let tmac = tmac_quantize(&bits(&vector), 4);
    let result = table_product(&query, &tmac);
    let expected: f32 = vector.iter().sum();
    assert!(
        (result - expected).abs() / expected.abs().max(1.0) < 0.5,
        "T-MAC dot product too far from expected: got {result}, expected ~{expected}"
    );
}

#[test]
fn batch_matches_individual() {
    let dim = 32;
    let query: Vec<f32> = (0..dim).map(|i| (i as f32 * 0.1).sin()).collect();
    let vectors: Vec<Vec<f32>> = (0..5)
        .map(|seed| {
            (0..dim)
                .map(|i| ((seed as f32) * 0.3 + (i as f32) * 0.1).cos())
                .collect()
        })
        .collect();

    let tmac_vecs: Vec<TMacVector> =
        vectors.iter().map(|v| tmac_quantize(&bits(v), 2)).collect();

    let batch_results = floats(&tmac_batch_dot_product(&bits(&query), &tmac_vecs));
    let individual_results: Vec<f32> =
        tmac_vecs.iter().map(|tv| table_product(&query, tv)).collect();

    for (b, i) in batch_results.iter().zip(individual_results.iter()) {
        assert!(
            (b - i).abs() < 1e-6,
            "Batch and individual should match: {b} vs {i}"
        );
    }
    assert_eq!(batch_results.len(), 5);
}

#[test]
fn different_bit_widths_same_kernel() {
    let dim = 16;
    let query = vec![1.0_f32; dim];
    let vector: Vec<f32> = (0..dim).map(|i| i as f32).collect();

    let tmac_1bit = tmac_quantize(&bits(&vector), 1);
    let tmac_2bit = tmac_quantize(&bits(&vector), 2);
    let tmac_4bit = tmac_quantize(&bits(&vector), 4);

    let r1 = table_product(&query, &tmac_1bit);
    let r2 = table_product(&query, &tmac_2bit);
    let r4 = table_product(&query, &tmac_4bit);

    let exact: f32 = vector.iter().sum();
    let err1 = (r1 - exact).abs();
    let err2 = (r2 - exact).abs();
    let err4 = (r4 - exact).abs();

    assert!(
        err4 <= err2 || err2 <= err1,
        "Higher precision should generally reduce error: 1bit={err1}, 2bit={err2}, 4bit={err4}"
    );
}

#[test]
fn handles_non_multiple_of_group_size() {
    let dim = 13;
    let query: Vec<f32> = (0..dim).map(|i| i as f32).collect();
    let vector: Vec<f32> = (0..dim).map(|i| (i as f32) * 0.5).collect();
    let tmac = tmac_quantize(&bits(&vector), 2);
    let result = table_product(&query, &tmac);
    assert!(
        result.is_finite(),
        "Should handle non-multiple-of-4 dimensions"
    );
}

#[test]
fn zero_vector_produces_zero_dot() {
    let dim = 16;
    let query = vec![0.0_f32; dim];
    let vector: Vec<f32> = (0..dim).map(|i| i as f32).collect();
    let tmac = tmac_quantize(&bits(&vector), 2);
    let result = table_product(&query, &tmac);
    assert!(
        (result).abs() < 1e-6,
        "Zero query should produce zero dot product"
    );
}

#[test]
fn table_products_are_what_the_hardware_computes() {
    let vector: Vec<f32> = (0..21).map(|i| (i as f32 * 0.9).sin()).collect();
    let query: Vec<f32> = (0..19).map(|i| (i as f32 * 0.4).cos()).collect();
    let tmac = tmac_quantize(&bits(&vector), 3);
    let mut dot = 0.0_f32;
    for (b, plane) in tmac.bit_planes.iter().enumerate() {
        let mut sum = 0.0_f32;
        for group in query.chunks(4).enumerate() {
            let pattern = read_pattern(plane, query.len(), group.0);
            let mut part = 0.0_f32;
            for (j, q) in group.1.iter().enumerate() {
                if pattern >> j & 1 == 1 {
                    part += q;
                }
            }
            sum += part;
        }
        dot += sum * (1_u32 << b) as f32;
    }
    let expected = dot * f32::from_bits(tmac.scale)
        + f32::from_bits(tmac.zero_point) * query.iter().sum::<f32>();
    assert_eq!(table_product(&query, &tmac), expected);
}

#[test]
fn patterns_stop_at_the_last_element() {
    let tmac = tmac_quantize(&bits(&[1.0, 0.0, 1.0, 1.0, 1.0, 1.0]), 1);
    assert_eq!(read_pattern(&tmac.bit_planes[0], 6, 0), 0b1101);
    assert_eq!(read_pattern(&tmac.bit_planes[0], 6, 1), 0b0011);
    assert_eq!(read_pattern(&tmac.bit_planes[0], 6, 2), 0);
}

// Products.

#[test]
fn quantizer_dot_product_basic() {
    let a = vec![1.0, 2.0, 3.0];
    let b = vec![4.0, 5.0, 6.0];
    let result = f32::from_bits(dot_product(&bits(&a), &bits(&b)));
    assert!((result - 32.0).abs() < 1e-6);
}

#[test]
fn dot_product_orthogonal() {
    let a = vec![1.0, 0.0];
    let b = vec![0.0, 1.0];
    assert!(f32::from_bits(dot_product(&bits(&a), &bits(&b))).abs() < 1e-6);
}

#[test]
fn normalize_basic() {
    let mut v = bits(&[3.0, 4.0]);
    normalize(&mut v);
    let v = floats(&v);
    assert!((v[0] - 0.6).abs() < 1e-6);
    assert!((v[1] - 0.8).abs() < 1e-6);
}

#[test]
fn normalize_zero_vector() {
    let mut v = bits(&[0.0, 0.0, 0.0]);
    normalize(&mut v);
    assert_eq!(floats(&v), vec![0.0, 0.0, 0.0]);
}

#[test]
fn an_empty_sum_is_the_hardware_s() {
    let none: [f32; 0] = [];
    assert_eq!(dot_product(&vec![], &vec![]), none.iter().sum::<f32>().to_bits());
    let zeros = [-0.0_f32, -0.0];
    let ones = [1.0_f32, 1.0];
    assert_eq!(
        dot_product(&bits(&zeros), &bits(&ones)),
        zeros.iter().zip(&ones).map(|(a, b)| a * b).sum::<f32>().to_bits()
    );
}

// Rotations.

fn turns(rotation: &ButterflyRotation) -> RotationTurns {
    let stages = rotation
        .stages
        .iter()
        .map(|s| {
            let (sines, cosines): (Vec<f32>, Vec<f32>) =
                floats(&s.angles).iter().map(|a| a.sin_cos()).unzip();
            StageTurns { sines: bits(&sines), cosines: bits(&cosines), stride: s.stride }
        })
        .collect();
    RotationTurns { stages, version: rotation.version }
}

#[test]
fn identity_rotation_is_noop() {
    let rot = turns(&ButterflyRotation::identity(16));
    let original = vec![
        1.0, 2.0, 3.0, 4.0, 5.0, 6.0, 7.0, 8.0, 9.0, 10.0, 11.0, 12.0, 13.0, 14.0, 15.0, 16.0,
    ];
    let mut x = bits(&original);
    rot.rotate_forward(&mut x);
    for (a, b) in floats(&x).iter().zip(original.iter()) {
        assert!((a - b).abs() < 1e-6, "Identity rotation should be no-op");
    }
}

#[test]
fn forward_inverse_roundtrip() {
    let rot = turns(&ButterflyRotation::random(64, 42));
    let original: Vec<f32> = (0..64).map(|i| (i as f32 * 0.1).sin()).collect();
    let mut x = bits(&original);

    rot.rotate_forward(&mut x);
    assert!(
        floats(&x)
            .iter()
            .zip(original.iter())
            .any(|(a, b)| (a - b).abs() > 1e-4),
        "Rotation should change the vector"
    );

    rot.rotate_inverse(&mut x);
    for (a, b) in floats(&x).iter().zip(original.iter()) {
        assert!(
            (a - b).abs() < 1e-4,
            "Inverse should recover original: got {} expected {}",
            a,
            b
        );
    }
}

#[test]
fn rotation_preserves_norm() {
    let rot = turns(&ButterflyRotation::random(128, 123));
    let original: Vec<f32> = (0..128).map(|i| (i as f32 * 0.3).cos()).collect();
    let original_norm: f32 = original.iter().map(|x| x * x).sum::<f32>().sqrt();

    let mut x = bits(&original);
    rot.rotate_forward(&mut x);
    let rotated_norm: f32 = floats(&x).iter().map(|x| x * x).sum::<f32>().sqrt();

    assert!(
        (original_norm - rotated_norm).abs() < 1e-3,
        "Orthogonal rotation must preserve L2 norm: {} vs {}",
        original_norm,
        rotated_norm
    );
}

#[test]
fn num_parameters_correct() {
    let rot = ButterflyRotation::identity(256);
    assert_eq!(rot.num_parameters(), 8 * 128);
    assert_eq!(stage_strides(256), vec![1, 2, 4, 8, 16, 32, 64, 128]);
}

#[test]
fn different_seeds_produce_different_rotations() {
    let r1 = ButterflyRotation::random(32, 1);
    let r2 = ButterflyRotation::random(32, 2);
    let differ = floats(&r1.stages[0].angles)
        .iter()
        .zip(floats(&r2.stages[0].angles).iter())
        .any(|(a, b)| (a - b).abs() > 1e-6);
    assert!(differ, "Different seeds should produce different rotations");
}

#[test]
fn angles_are_what_the_hardware_draws() {
    let rotation = ButterflyRotation::random(8, 77);
    let mut state = 77_u64;
    for stage in &rotation.stages {
        for &angle in &stage.angles {
            state = next_state(state);
            let u = (state as f32) / (u64::MAX as f32);
            assert_eq!(f32::from_bits(angle), (u - 0.5) * std::f32::consts::PI * 0.5);
        }
    }
    assert_eq!(rotation.stages.len(), 3);
}

#[test]
fn stages_turn_as_the_hardware_computes() {
    let rotation = turns(&ButterflyRotation::random(8, 5));
    let start: Vec<f32> = (0..8).map(|i| i as f32 * 0.3 - 1.0).collect();
    let mut x = start.clone();
    let stage = &rotation.stages[1];
    for (k, (a, b)) in stage_pairs(8, 2).into_iter().enumerate() {
        let (sin, cos) = (f32::from_bits(stage.sines[k]), f32::from_bits(stage.cosines[k]));
        let (xa, xb) = (x[a], x[b]);
        x[a] = cos * xa - sin * xb;
        x[b] = sin * xa + cos * xb;
    }
    let mut ours = bits(&start);
    stage.apply_forward(&mut ours);
    assert_eq!(ours, bits(&x));
    for (k, (a, b)) in stage_pairs(8, 2).into_iter().enumerate() {
        let (sin, cos) = (f32::from_bits(stage.sines[k]), f32::from_bits(stage.cosines[k]));
        let (xa, xb) = (x[a], x[b]);
        x[a] = cos * xa + sin * xb;
        x[b] = -sin * xa + cos * xb;
    }
    stage.apply_inverse(&mut ours);
    assert_eq!(ours, bits(&x));
}

fn compute_loss(
    rotation: &ButterflyRotation,
    data: &[Vec<f32>],
    quantize: &impl Fn(&[f32]) -> Vec<f32>,
) -> f32 {
    let turns = turns(rotation);
    let mut rotated = Vec::new();
    let mut approximated = Vec::new();
    for vector in data {
        let mut x = bits(vector);
        turns.rotate_forward(&mut x);
        approximated.push(bits(&quantize(&floats(&x))));
        rotated.push(x);
    }
    f32::from_bits(reconstruction_loss(&rotated, &approximated))
}

fn learn(
    rotation: ButterflyRotation,
    data: &[Vec<f32>],
    quantize: impl Fn(&[f32]) -> Vec<f32>,
    steps: usize,
    rate: f32,
) -> ButterflyRotation {
    let mut descent = Descent::start(rotation, data.len(), steps, rate.to_bits());
    loop {
        let loss = match descent.next() {
            None => return descent.finish(),
            Some(rotation) => compute_loss(rotation, data, &quantize),
        };
        descent.take(loss.to_bits());
    }
}

#[test]
fn learning_reduces_quantization_error() {
    let rot = ButterflyRotation::random(16, 7);
    let data: Vec<Vec<f32>> = (0..50)
        .map(|seed| {
            (0..16)
                .map(|i| {
                    let base = ((seed as f32) * 0.1 + (i as f32) * 0.3).sin();
                    if i == 3 || i == 7 {
                        base * 10.0
                    } else {
                        base
                    }
                })
                .collect()
        })
        .collect();
    let quantize =
        |x: &[f32]| -> Vec<f32> { x.iter().map(|v| (v * 2.0).round() / 2.0).collect() };

    let loss_before = compute_loss(&rot, &data, &quantize);
    let rot = learn(rot, &data, quantize, 20, 0.05);
    let loss_after = compute_loss(&rot, &data, &quantize);

    assert!(
        loss_after < loss_before,
        "Learning should reduce quantization error: before={loss_before}, after={loss_after}"
    );
    assert_eq!(rot.version, 1);
}

#[test]
fn angles_descend_as_the_hardware_computes() {
    let rotated = vec![bits(&[1.0, 2.5]), bits(&[-1.0, 0.25, 9.0])];
    let approximated = vec![bits(&[1.5, 2.0]), bits(&[-1.0, 0.5])];
    let loss = reconstruction_loss(&rotated, &approximated);
    assert_eq!(f32::from_bits(loss), (0.25 + 0.25 + 0.0625) / 2.0);
    let epsilon = 1e-4_f32;
    assert_eq!(f32::from_bits(NUDGE), epsilon);
    let of = |angles: &[Vec<f32>]| -> f32 {
        let mut weight = 0.3_f32;
        let mut total = 0.0_f32;
        for angle in angles.iter().flatten() {
            weight += 0.7;
            total += (angle - weight) * (angle - weight) * weight;
        }
        total
    };
    let start = ButterflyRotation::random(8, 12);
    let mut angles: Vec<Vec<f32>> = start.stages.iter().map(|s| floats(&s.angles)).collect();
    let (steps, rate) = (3, 0.05_f32);
    for _ in 0..steps {
        for stage in 0..angles.len() {
            let mut slopes = Vec::new();
            for i in 0..angles[stage].len() {
                angles[stage][i] += epsilon;
                let above = of(&angles);
                angles[stage][i] -= epsilon;
                angles[stage][i] -= epsilon;
                let below = of(&angles);
                angles[stage][i] += epsilon;
                slopes.push((above - below) / (2.0 * epsilon));
            }
            for (i, slope) in slopes.iter().enumerate() {
                angles[stage][i] -= rate * slope;
            }
        }
    }
    let mut descent = Descent::start(start, 1, steps, rate.to_bits());
    let mut losses = 0;
    while let Some(rotation) = descent.next() {
        let now: Vec<Vec<f32>> = rotation.stages.iter().map(|s| floats(&s.angles)).collect();
        descent.take(of(&now).to_bits());
        losses += 1;
    }
    assert_eq!(losses, 3 * 3 * 4 * 2);
    let end = descent.finish();
    for (stage, expected) in end.stages.iter().zip(&angles) {
        assert_eq!(stage.angles, bits(expected));
    }
    assert_eq!(end.version, 1);
}

#[test]
fn without_samples_nothing_is_learned() {
    let start = ButterflyRotation::random(8, 12);
    let angles: Vec<Vec<u32>> = start.stages.iter().map(|s| s.angles.clone()).collect();
    let descent = Descent::start(start, 0, 5, 0.05_f32.to_bits());
    assert!(descent.next().is_none());
    let end = descent.finish();
    assert_eq!(end.version, 0);
    for (stage, expected) in end.stages.iter().zip(&angles) {
        assert_eq!(&stage.angles, expected);
    }
}

#[test]
fn a_stage_pairs_each_place_once() {
    for stride in [1, 2, 4, 8] {
        let pairs = stage_pairs(16, stride);
        assert_eq!(pairs.len(), 8);
        let places: HashSet<usize> = pairs.iter().flat_map(|&(a, b)| [a, b]).collect();
        assert_eq!(places.len(), 16);
        assert!(pairs.iter().all(|&(a, b)| b == a + stride));
    }
    assert_eq!(stage_pairs(5, 2), vec![(0, 2), (1, 3)]);
}

#[test]
fn states_follow_each_other() {
    assert_eq!(next_state(0), 0);
    assert_eq!(next_state(1), 0x4082_2041);
}

// The cache of keys and values.

fn make_profile(num_layers: usize) -> KVTunerProfile {
    let key_mse: Vec<f32> = (0..num_layers).map(|i| (i as f32 + 1.0) * 0.1).collect();
    let value_mse: Vec<f32> = (0..num_layers).map(|i| (i as f32 + 1.0) * 0.05).collect();
    let config = KVTunerConfig { num_layers, ..KVTunerConfig::default() };
    profile_kv_sensitivity(&bits(&key_mse), &bits(&value_mse), &config)
}

#[test]
fn profile_assigns_varying_precision() {
    let profile = make_profile(8);
    assert_eq!(profile.layers.len(), 8);
    let precisions: Vec<(KVPrecision, KVPrecision)> = profile
        .layers
        .iter()
        .map(|l| (l.key_default_precision, l.value_default_precision))
        .collect();
    let unique: HashSet<_> = precisions.iter().collect();
    assert!(
        unique.len() > 1,
        "Should assign different precisions to different layers"
    );
}

#[test]
fn profile_avg_bits_reasonable() {
    let profile = make_profile(32);
    let avg_bits = f32::from_bits(profile.avg_bits);
    let memory_ratio = f32::from_bits(profile.memory_ratio);
    assert!(
        avg_bits > 2.0 && avg_bits < 10.0,
        "Average bits should be reasonable: got {}",
        avg_bits
    );
    assert!(memory_ratio < 1.0, "Should save memory vs FP16");
    assert_eq!(avg_bits, (29.0 * 3.0 + 8.0 + 2.0 * 16.0) / 32.0);
    assert_eq!(memory_ratio, avg_bits / 16.0);
}

#[test]
fn the_least_sensitive_layers_are_lowered_to_the_target() {
    let profile = |target: f32, allowed_pairs: Vec<(KVPrecision, KVPrecision)>| {
        let config =
            KVTunerConfig { num_layers: 4, target_avg_bits: target.to_bits(), allowed_pairs };
        let mse = bits(&[0.4, 0.1, 0.3, 0.2]);
        let profile = profile_kv_sensitivity(&mse, &mse, &config);
        let pairs: Vec<(usize, usize)> = profile
            .layers
            .iter()
            .map(|l| (l.key_default_precision.bits(), l.value_default_precision.bits()))
            .collect();
        (f32::from_bits(profile.avg_bits), pairs)
    };
    let all = KVTunerConfig::default().allowed_pairs;
    assert_eq!(profile(16.0, all.clone()), (16.0, vec![(16, 16); 4]));
    assert_eq!(
        profile(12.9, all.clone()),
        (12.75, vec![(16, 16), (4, 2), (16, 16), (16, 16)])
    );
    assert_eq!(profile(4.0, all.clone()), (3.75, vec![(8, 4), (4, 2), (4, 2), (4, 2)]));
    assert_eq!(profile(2.5, all.clone()), (2.5, vec![(4, 2), (2, 2), (4, 2), (2, 2)]));
    assert_eq!(profile(2.0, all.clone()), (2.0, vec![(2, 2); 4]));
    assert_eq!(profile(0.5, all.clone()), (2.0, vec![(2, 2); 4]));
    assert_eq!(profile(10.0, vec![]), (9.5, vec![(16, 16), (2, 2), (16, 16), (4, 4)]));
    for target in [2.0_f32, 2.25, 3.0, 3.3, 5.0, 7.9, 15.5] {
        assert!(profile(target, all.clone()).0 <= target);
    }
}

#[test]
fn a_profile_without_layers_has_no_mean() {
    let profile = make_profile(0);
    assert!(profile.layers.is_empty());
    assert!(f32::from_bits(profile.avg_bits).is_nan());
    let config = KVTunerConfig::default();
    assert_eq!(config.num_layers, 32);
    assert_eq!(f32::from_bits(config.target_avg_bits), 4.0);
    assert_eq!(config.allowed_pairs.len(), 6);
    assert_eq!(f32::from_bits(KVPrecision::INT4.compression_vs_fp16()), 4.0);
}

#[test]
fn progressive_cache_appends_tokens() {
    let mut cache = ProgressiveKVCache::new(&make_profile(4), 1024 * 1024, 64, 8);
    let key = bits(&[0.1_f32; 64 * 8]);
    let value = bits(&[0.2_f32; 64 * 8]);
    cache.append(0, &key, &value);
    cache.append(0, &key, &value);
    cache.append(1, &key, &value);
    assert_eq!(cache.tokens_per_layer(), vec![2, 1, 0, 0]);
    assert!(cache.memory_usage() > 0);
}

#[test]
fn progressive_degradation_under_pressure() {
    let mut cache = ProgressiveKVCache::new(&make_profile(4), 512, 8, 2);
    let key = bits(&[0.1_f32; 8 * 2]);
    let value = bits(&[0.2_f32; 8 * 2]);
    for _ in 0..20 {
        for layer in 0..4 {
            cache.append(layer, &key, &value);
        }
    }
    let precisions = cache.precision_per_layer();
    let has_degraded = precisions.iter().any(|(_k, v)| *v == KVPrecision::INT2);
    assert!(
        has_degraded,
        "Under memory pressure, some layers should degrade"
    );
}

#[test]
fn clear_resets_memory() {
    let mut cache = ProgressiveKVCache::new(&make_profile(2), 1024 * 1024, 32, 4);
    let key = bits(&[0.5_f32; 32 * 4]);
    let value = bits(&[0.3_f32; 32 * 4]);
    cache.append(0, &key, &value);
    assert!(cache.memory_usage() > 0);

    cache.clear();
    assert_eq!(cache.memory_usage(), 0);
    assert_eq!(cache.total_tokens(), 0);
}

#[test]
fn a_token_takes_the_memory_of_its_parts() {
    let mut cache = ProgressiveKVCache::new(&make_profile(4), 1024, 8, 2);
    let values: Vec<f32> = (0..16).map(|i| i as f32).collect();
    cache.append(3, &bits(&values), &bits(&values));
    assert_eq!(cache.memory_usage(), 16 + 8 + 2 * 4 + 2 * 4 + 8);
    cache.append(0, &bits(&values), &bits(&values));
    assert_eq!(cache.memory_usage(), 48 + 8 + 4 + 2 * 4 + 2 * 4 + 8);
    assert_eq!(cache.total_tokens(), 2);
}

#[test]
fn every_layer_of_a_default_profile_takes_tokens() {
    let profile = make_profile(32);
    let mut cache = ProgressiveKVCache::new(&profile, 1024 * 1024, 8, 2);
    let values: Vec<f32> = (0..16).map(|i| i as f32).collect();
    for layer in 0..31 {
        cache.append(layer, &bits(&values), &bits(&values));
    }
    let before = cache.memory_usage();
    assert_eq!(cache.precision_per_layer()[31], (KVPrecision::FP16, KVPrecision::FP16));
    cache.append(31, &bits(&values), &bits(&values));
    assert_eq!(cache.memory_usage(), before + 32 + 32 + 2 * 4 + 2 * 4 + 8);
    assert_eq!(cache.tokens_per_layer(), vec![1; 32]);
}

#[test]
fn full_precision_is_lost_under_pressure() {
    let config = KVTunerConfig {
        num_layers: 1,
        target_avg_bits: 16.0_f32.to_bits(),
        ..KVTunerConfig::default()
    };
    let profile = profile_kv_sensitivity(&bits(&[0.1]), &bits(&[0.1]), &config);
    let mut cache = ProgressiveKVCache::new(&profile, 100, 8, 2);
    let values: Vec<f32> = (0..16).map(|i| i as f32).collect();
    cache.append(0, &bits(&values), &bits(&values));
    assert_eq!(cache.memory_usage(), 88);
    assert_eq!(cache.precision_per_layer(), vec![(KVPrecision::FP16, KVPrecision::FP16)]);
    cache.append(0, &bits(&values), &bits(&values));
    assert_eq!(cache.memory_usage(), 2 * 88 - 2 * 16);
    assert_eq!(cache.precision_per_layer(), vec![(KVPrecision::FP16, KVPrecision::INT8)]);
}

#[test]
fn full_precision_takes_two_bytes_for_a_number() {
    let data = [-1.0_f32, 0.0, 0.5, 1.0];
    let (kept, scale, zero) = quantize_per_token(&bits(&data), KVPrecision::FP16);
    let step = 2.0_f32 / 65535.0;
    assert_eq!((scale, zero), (step.to_bits(), (-1.0_f32).to_bits()));
    let codes: Vec<u16> =
        data.iter().map(|x| ((x + 1.0) / step).round().clamp(0.0, 65535.0) as u16).collect();
    let bytes: Vec<u8> = codes.iter().flat_map(|c| c.to_le_bytes()).collect();
    assert_eq!(kept, bytes);
    let high: Vec<u8> = codes.iter().map(|c| (c >> 8) as u8).collect();
    assert_eq!(right_shift_packed(&kept, KVPrecision::FP16, KVPrecision::INT8, 4), high);
    let nibbles = vec![(high[0] >> 4) | (high[1] & 0xf0), (high[2] >> 4) | (high[3] & 0xf0)];
    assert_eq!(right_shift_packed(&kept, KVPrecision::FP16, KVPrecision::INT4, 4), nibbles);
    let (keys, scales, _) = quantize_per_channel(&bits(&data), 3, KVPrecision::FP16);
    assert_eq!(keys.len(), 8);
    assert_eq!(scales.len(), 2);
}

#[test]
fn per_channel_quantization() {
    let data: Vec<f32> = (0..32).map(|i| (i as f32) * 0.5 - 8.0).collect();
    let (packed, scales, zeros) = quantize_per_channel(&bits(&data), 8, KVPrecision::INT8);
    assert_eq!(scales.len(), 4);
    assert_eq!(zeros.len(), 4);
    assert!(!packed.is_empty());
    for (g, group) in data.chunks(8).enumerate() {
        let expected = hardware_grid(group, 255);
        assert_eq!(packed[8 * g..8 * g + 8], expected.codes);
        assert_eq!((scales[g], zeros[g]), (expected.scale, expected.zero));
    }
}

#[test]
fn the_last_group_of_channels_may_be_shorter() {
    let data: Vec<f32> = (0..11).map(|i| (i as f32 * 1.3).sin()).collect();
    let (packed, scales, _) = quantize_per_channel(&bits(&data), 4, KVPrecision::INT4);
    assert_eq!(packed.len(), 6);
    assert_eq!(scales.len(), 3);
    assert_eq!(scales[2], hardware_grid(&data[8..], 15).scale);
}

#[test]
fn per_token_quantization() {
    let data: Vec<f32> = (0..16).map(|i| (i as f32) * 0.3).collect();
    let (packed, scale, zero) = quantize_per_token(&bits(&data), KVPrecision::INT4);
    assert!(!packed.is_empty());
    assert!(f32::from_bits(scale) > 0.0);
    assert!(f32::from_bits(zero) >= 0.0);
    assert_eq!(packed[0], 0x10);
    assert_eq!(scale, hardware_grid(&data, 15).scale);
}
