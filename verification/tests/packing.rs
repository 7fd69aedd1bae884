//! Packed codes, binary signatures, precisions and buffers.

use epistemos_recall::quant::binary::{hamming_distance, quantize_to_binary};
use epistemos_recall::quant::metal::{
    build_kitty_boost_prefix_sum, compute_buffer_sizes_2bit, compute_buffer_sizes_4bit,
    next_power_of_two, pack_for_metal_2bit, read_scores_from_metal_buffer,
    write_query_to_metal_buffer, MetalDispatchConfig,
};
use epistemos_recall::quant::packing::{pack_codes, read_code, unpack_codes};
use epistemos_recall::quant::precision::{right_shift_packed, KVPrecision};
use epistemos_recall::quant::tmac::tmac_memory_bytes;

fn bits(values: &[f32]) -> Vec<u32> {
    values.iter().map(|v| v.to_bits()).collect()
}

#[test]
fn right_shift_int8_to_int4() {
    let data = vec![0xAB_u8];
    let result = right_shift_packed(&data, KVPrecision::INT8, KVPrecision::INT4, 1);
    let byte_idx = 0;
    let val = result[byte_idx] & 0x0F;
    assert_eq!(val, 10);
}

#[test]
fn right_shift_int4_to_int2() {
    let data = vec![0x3F_u8];
    let result = right_shift_packed(&data, KVPrecision::INT4, KVPrecision::INT2, 2);
    let val0 = result[0] & 0x03;
    let val1 = (result[0] >> 2) & 0x03;
    assert_eq!(val0, 3);
    assert_eq!(val1, 0);
}

#[test]
fn precision_degrade_chain() {
    assert_eq!(KVPrecision::FP16.degrade(), Some(KVPrecision::INT8));
    assert_eq!(KVPrecision::INT8.degrade(), Some(KVPrecision::INT4));
    assert_eq!(KVPrecision::INT4.degrade(), Some(KVPrecision::INT2));
    assert_eq!(KVPrecision::INT2.degrade(), None);
}

#[test]
fn dispatch_config_2bit() {
    let config = MetalDispatchConfig::for_2bit(1000, 384);
    assert_eq!(config.kernel_name, "dequantize_dot_product_2bit");
    assert_eq!(config.threadgroups, 1000);
    assert!(config.threads_per_group.is_power_of_two());
    assert!(config.threads_per_group <= 256);
}

#[test]
fn dispatch_config_4bit() {
    let config = MetalDispatchConfig::for_4bit(500, 384);
    assert_eq!(config.kernel_name, "dequantize_dot_product_4bit");
    assert_eq!(config.threadgroups, 500);
}

#[test]
fn dispatch_config_kitty_is_bounded() {
    let small = MetalDispatchConfig::for_kitty(7, 8);
    assert_eq!(small.kernel_name, "dequantize_dot_product_kitty");
    assert_eq!(small.threads_per_group, 32);
    assert_eq!(MetalDispatchConfig::for_kitty(7, 1_000_000).threads_per_group, 256);
}

#[test]
fn buffer_sizes_2bit() {
    let (q, data, s, z, o) = compute_buffer_sizes_2bit(384, 1000);
    assert_eq!(q, 384 * 4);
    assert_eq!(data, 96 * 1000);
    assert_eq!(s, 1000 * 4);
    assert_eq!(z, 1000 * 4);
    assert_eq!(o, 1000 * 4);
}

#[test]
fn buffer_sizes_4bit() {
    let (q, data, s, z, o) = compute_buffer_sizes_4bit(384, 1000);
    assert_eq!(q, 384 * 4);
    assert_eq!(data, 192 * 1000);
    assert_eq!(s, 1000 * 4);
    assert_eq!(z, 1000 * 4);
    assert_eq!(o, 1000 * 4);
}

#[test]
fn pack_for_metal() {
    let v1 = vec![0xAA_u8; 48];
    let v2 = vec![0x55_u8; 48];
    let scales = bits(&[0.1, 0.2]);
    let zeros = bits(&[-1.0, -2.0]);

    let (packed, s, z) = pack_for_metal_2bit(&vec![v1, v2], &scales, &zeros);
    assert_eq!(packed.len(), 96);
    assert_eq!(s, scales);
    assert_eq!(z, zeros);
}

#[test]
fn zero_copy_roundtrip() {
    let query = vec![1.0_f32, 2.0, 3.0, 4.0];
    let mut buffer = vec![0u8; query.len() * 4];

    write_query_to_metal_buffer(&bits(&query), &mut buffer);
    assert_eq!(buffer[0..4], 1.0_f32.to_le_bytes());

    let scores = read_scores_from_metal_buffer(&buffer, query.len());
    for (a, b) in query.iter().zip(scores.iter()) {
        assert_eq!(*a, f32::from_bits(*b), "Zero-copy roundtrip should preserve values");
    }
}

#[test]
fn prefix_sum_counts_marked_channels() {
    assert_eq!(build_kitty_boost_prefix_sum(&[0b0000_0101], 4), vec![0, 1, 1, 2, 2]);
}

#[test]
fn powers_of_two_are_rounded_up() {
    assert_eq!(next_power_of_two(0), 1);
    assert_eq!(next_power_of_two(1), 1);
    assert_eq!(next_power_of_two(5), 8);
    assert_eq!(next_power_of_two(64), 64);
}

#[test]
fn memory_footprint() {
    assert_eq!(tmac_memory_bytes(384, 2), 96);
    assert_eq!(tmac_memory_bytes(384, 4), 192);
}

#[test]
fn binary_quantization_basic() {
    let embedding = bits(&[1.0, -2.0, 0.5, -0.1, 3.0, 0.0, -1.0, 0.7]);
    let binary = quantize_to_binary(&embedding);
    assert_eq!(binary.len(), 1);
    assert_eq!(binary[0], 0b10010101);
}

#[test]
fn binary_quantization_multi_byte() {
    let embedding = bits(&[1.0; 16]);
    let binary = quantize_to_binary(&embedding);
    assert_eq!(binary.len(), 2);
    assert_eq!(binary[0], 0xFF);
    assert_eq!(binary[1], 0xFF);
}

#[test]
fn binary_quantization_partial_byte() {
    let embedding = bits(&[1.0, -1.0, 1.0]);
    let binary = quantize_to_binary(&embedding);
    assert_eq!(binary.len(), 1);
    assert_eq!(binary[0], 0b00000101);
}

#[test]
fn hamming_distance_identical() {
    let a = vec![0xFF, 0x00, 0xAA];
    let b = vec![0xFF, 0x00, 0xAA];
    assert_eq!(hamming_distance(&a, &b), 0);
}

#[test]
fn hamming_distance_opposite() {
    let a = vec![0xFF];
    let b = vec![0x00];
    assert_eq!(hamming_distance(&a, &b), 8);
}

#[test]
fn hamming_distance_one_bit() {
    let a = vec![0b00000001];
    let b = vec![0b00000000];
    assert_eq!(hamming_distance(&a, &b), 1);
}

#[test]
fn binary_quantization_roundtrip_preserves_sign() {
    let embedding: Vec<f32> = (0..1024)
        .map(|i| if i % 3 == 0 { -1.0 } else { 1.0 })
        .collect();
    let binary = quantize_to_binary(&bits(&embedding));
    assert_eq!(binary.len(), 128);

    for (i, &val) in embedding.iter().enumerate() {
        let byte_idx = i / 8;
        let bit_idx = i % 8;
        let bit_set = (binary[byte_idx] >> bit_idx) & 1 == 1;
        assert_eq!(bit_set, val > 0.0, "Mismatch at index {}", i);
    }
}

#[test]
fn hamming_distance_large_vectors() {
    let a = vec![0xAA; 128];
    let b = vec![0x55; 128];
    assert_eq!(hamming_distance(&a, &b), 128 * 8);
}

#[test]
fn not_a_number_is_not_positive() {
    assert_eq!(quantize_to_binary(&bits(&[f32::NAN, f32::INFINITY, -0.0])), vec![0b010]);
}

#[test]
fn packed_codes_come_back() {
    let codes: Vec<u8> = vec![3, 0, 2, 1, 1];
    let packed = pack_codes(&codes, 2, 5);
    assert_eq!(packed, vec![0b01_10_00_11, 0b01]);
    assert_eq!(unpack_codes(&packed, 2, 5), codes);
    assert_eq!(read_code(&packed, 2, 2), 2);
}
