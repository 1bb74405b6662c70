use gguf_core::codec::encode_f32;
use gguf_core::decoder::{
    check_scale, count_elements, try_decode_f32, try_decode_q4_0, try_decode_q5_1, unpack_q5,
    DecodeError, Sample,
};
use gguf_core::quantize::{
    encode_q4_0, encode_q5_1, quantize_tensor_q4_0, quantize_tensor_q5_1, QuantBlock,
};

fn quantize_block(chunk: Vec<u32>, top: u8) -> QuantBlock {
    let floats: Vec<f32> = chunk.iter().map(|bits| f32::from_bits(*bits)).collect();
    let min = floats.iter().copied().fold(f32::INFINITY, f32::min);
    let max = floats.iter().copied().fold(f32::NEG_INFINITY, f32::max);
    let scale = (max - min).max(1e-6) / top as f32;
    let levels = floats
        .iter()
        .map(|v| ((*v - min) / scale).round().clamp(0.0, top as f32) as u8)
        .collect();
    QuantBlock { scale: scale.to_bits(), zero: min.to_bits(), levels }
}

fn bits_of(values: &[f32]) -> Vec<u32> {
    values.iter().map(|v| v.to_bits()).collect()
}

fn value_of(sample: &Sample) -> f32 {
    f32::from_bits(sample.scale) * sample.level as f32 + f32::from_bits(sample.zero)
}

fn block(scale: f32, zero: f32, levels: Vec<u8>) -> QuantBlock {
    QuantBlock { scale: scale.to_bits(), zero: zero.to_bits(), levels }
}

fn ramp() -> Vec<f32> {
    (0..32).map(|i| i as f32).collect()
}

#[test]
fn raw_floats_survive_bit_for_bit() {
    let values = vec![0.0f32, -0.0, 1.5, f32::MAX, f32::MIN_POSITIVE, f32::INFINITY, f32::NAN];
    let bits = bits_of(&values);
    let bytes = encode_f32(&bits);
    assert_eq!(bytes.len(), 4 * values.len());
    assert_eq!(try_decode_f32(&bytes, &[values.len() as u64]).unwrap(), bits);
}

#[test]
fn raw_floats_are_little_endian() {
    assert_eq!(encode_f32(&[0x0403_0201]), vec![1, 2, 3, 4]);
    assert_eq!(encode_f32(&[1.0f32.to_bits()]), 1.0f32.to_le_bytes().to_vec());
    assert_eq!(try_decode_f32(&[1, 2, 3, 4], &[1]).unwrap(), vec![0x0403_0201]);
}

#[test]
fn one_raw_float_takes_four_bytes() {
    let bytes = encode_f32(&bits_of(&[7.0]));
    assert_eq!(bytes.len(), 4);
    assert_eq!(try_decode_f32(&bytes, &[]).unwrap(), bits_of(&[7.0]));
    assert_eq!(try_decode_f32(&bytes, &[1]).unwrap(), bits_of(&[7.0]));
}

#[test]
fn raw_decoding_stops_at_the_declared_count() {
    let bytes = encode_f32(&bits_of(&[1.0, 2.0, 3.0]));
    assert_eq!(try_decode_f32(&bytes, &[2]).unwrap(), bits_of(&[1.0, 2.0]));
    assert_eq!(try_decode_f32(&bytes, &[0]).unwrap(), Vec::<u32>::new());
    assert_eq!(try_decode_f32(&bytes, &[5, 0]).unwrap(), Vec::<u32>::new());
}

#[test]
fn raw_decoding_rejects_a_ragged_payload() {
    assert_eq!(try_decode_f32(&[0; 5], &[1]).err(), Some(DecodeError::InvalidBlock));
    assert_eq!(try_decode_f32(&[0; 3], &[0]).err(), Some(DecodeError::InvalidBlock));
}

#[test]
fn raw_decoding_rejects_a_short_payload() {
    assert_eq!(try_decode_f32(&[0; 8], &[3]).err(), Some(DecodeError::UnexpectedEOF));
    assert_eq!(try_decode_f32(&[], &[]).err(), Some(DecodeError::UnexpectedEOF));
    assert_eq!(
        try_decode_f32(&[0; 8], &[u64::MAX, u64::MAX]).err(),
        Some(DecodeError::UnexpectedEOF)
    );
}

#[test]
fn elements_are_the_product_of_the_axes() {
    assert_eq!(count_elements(&[]), Some(1));
    assert_eq!(count_elements(&[2, 3, 4]), Some(24));
    assert_eq!(count_elements(&[7, 0, 9]), Some(0));
    assert_eq!(count_elements(&[u64::MAX, 2, 0]), Some(0));
    assert_eq!(count_elements(&[u64::MAX, 1]), Some(u64::MAX));
    assert_eq!(count_elements(&[1 << 32, 1 << 32]), None);
}

#[test]
fn a_full_block_of_four_bit_levels_takes_24_bytes() {
    let payload = quantize_tensor_q4_0(&bits_of(&ramp()), &quantize_block);
    assert_eq!(payload.len(), 8 + 16);
}

#[test]
fn a_full_block_of_five_bit_levels_takes_28_bytes() {
    let payload = quantize_tensor_q5_1(&bits_of(&ramp()), &quantize_block);
    assert_eq!(payload.len(), 28);
}

#[test]
fn a_second_block_of_one_element_carries_one_nibble() {
    let values: Vec<f32> = (0..33).map(|i| i as f32).collect();
    let payload = quantize_tensor_q4_0(&bits_of(&values), &quantize_block);
    assert_eq!(payload.len(), 24 + 8 + 1);
    let decoded = try_decode_q4_0(&payload, &[33]).unwrap();
    assert_eq!(decoded.len(), 33);
    assert_eq!(decoded[32].level, 0);
    assert_eq!(f32::from_bits(decoded[32].zero), 32.0);
}

#[test]
fn short_blocks_of_five_bit_levels_take_what_their_bits_need() {
    let cases = [(1usize, 1usize), (2, 2), (3, 2), (5, 4), (8, 5), (13, 9), (31, 20), (32, 20)];
    for (count, bytes) in cases {
        let values: Vec<f32> = (0..count).map(|i| i as f32).collect();
        let payload = quantize_tensor_q5_1(&bits_of(&values), &quantize_block);
        assert_eq!(payload.len(), 8 + bytes);
        assert_eq!(try_decode_q5_1(&payload, &[count as u64]).unwrap().len(), count);
    }
}

#[test]
fn four_bit_levels_of_a_ramp() {
    let values = ramp();
    let payload = quantize_tensor_q4_0(&bits_of(&values), &quantize_block);
    let scale = f32::from_le_bytes([payload[0], payload[1], payload[2], payload[3]]);
    let zero = f32::from_le_bytes([payload[4], payload[5], payload[6], payload[7]]);
    assert_eq!(scale, 31.0 / 15.0);
    assert_eq!(zero, 0.0);
    let decoded = try_decode_q4_0(&payload, &[32]).unwrap();
    assert_eq!(decoded.len(), 32);
    for (sample, original) in decoded.iter().zip(&values) {
        assert!((value_of(sample) - original).abs() <= scale / 2.0 + 1e-5);
    }
}

#[test]
fn five_bit_levels_of_a_ramp() {
    let values = ramp();
    let payload = quantize_tensor_q5_1(&bits_of(&values), &quantize_block);
    let scale = f32::from_le_bytes([payload[0], payload[1], payload[2], payload[3]]);
    assert_eq!(scale, 1.0);
    let decoded = try_decode_q5_1(&payload, &[32]).unwrap();
    let levels: Vec<u8> = decoded.iter().map(|s| s.level).collect();
    assert_eq!(levels, (0..32).collect::<Vec<u8>>());
    for (sample, original) in decoded.iter().zip(&values) {
        assert!((value_of(sample) - original).abs() <= 1e-6);
    }
}

#[test]
fn the_error_of_four_bit_levels_is_half_a_step() {
    let values: Vec<f32> = (0..100).map(|i| ((i * 37) % 101) as f32 * 0.25 - 7.0).collect();
    let payload = quantize_tensor_q4_0(&bits_of(&values), &quantize_block);
    let decoded = try_decode_q4_0(&payload, &[100]).unwrap();
    for (block, chunk) in values.chunks(32).enumerate() {
        let min = chunk.iter().copied().fold(f32::INFINITY, f32::min);
        let max = chunk.iter().copied().fold(f32::NEG_INFINITY, f32::max);
        for (k, original) in chunk.iter().enumerate() {
            let got = value_of(&decoded[32 * block + k]);
            assert!((got - original).abs() <= (max - min) / 30.0 + 1e-4);
        }
    }
}

#[test]
fn the_error_of_five_bit_levels_is_half_a_step() {
    let values: Vec<f32> = (0..100).map(|i| ((i * 37) % 101) as f32 * 0.25 - 7.0).collect();
    let payload = quantize_tensor_q5_1(&bits_of(&values), &quantize_block);
    let decoded = try_decode_q5_1(&payload, &[10, 10]).unwrap();
    for (block, chunk) in values.chunks(32).enumerate() {
        let min = chunk.iter().copied().fold(f32::INFINITY, f32::min);
        let max = chunk.iter().copied().fold(f32::NEG_INFINITY, f32::max);
        for (k, original) in chunk.iter().enumerate() {
            let got = value_of(&decoded[32 * block + k]);
            assert!((got - original).abs() <= (max - min) / 62.0 + 1e-4);
        }
    }
}

#[test]
fn a_constant_tensor_decodes_to_the_constant() {
    let values = vec![3.25f32; 40];
    for decoded in [
        try_decode_q4_0(&quantize_tensor_q4_0(&bits_of(&values), &quantize_block), &[40]).unwrap(),
        try_decode_q5_1(&quantize_tensor_q5_1(&bits_of(&values), &quantize_block), &[40]).unwrap(),
    ] {
        assert_eq!(decoded.len(), 40);
        for sample in &decoded {
            assert!((value_of(sample) - 3.25).abs() <= 1e-6);
        }
    }
}

#[test]
fn nibbles_are_packed_low_half_first() {
    let block = QuantBlock { scale: 1.0f32.to_bits(), zero: 0, levels: vec![1, 2, 3, 0xf, 0x15] };
    let payload = encode_q4_0(&[block]);
    assert_eq!(&payload[..4], &1.0f32.to_le_bytes());
    assert_eq!(&payload[4..8], &[0, 0, 0, 0]);
    assert_eq!(&payload[8..], &[0x21, 0xf3, 0x05]);
}

#[test]
fn five_bit_levels_are_packed_lowest_bit_first() {
    let block = QuantBlock { scale: 1.0f32.to_bits(), zero: 0, levels: vec![1, 2, 3] };
    let payload = encode_q5_1(&[block]);
    // 00001 00010 00011, the first level lowest: bits 0..15 = 0x0c41
    assert_eq!(&payload[8..], &[0x41, 0x0c]);
    let all_ones = QuantBlock { scale: 1.0f32.to_bits(), zero: 0, levels: vec![31; 8] };
    assert_eq!(&encode_q5_1(&[all_ones])[8..], &[0xff; 5]);
    let masked = QuantBlock { scale: 1.0f32.to_bits(), zero: 0, levels: vec![0xe1] };
    assert_eq!(&encode_q5_1(&[masked])[8..], &[0x01]);
}

#[test]
fn unpacking_undoes_packing() {
    let levels: Vec<u8> = (0..32).map(|i| (i * 7 + 3) % 32).collect();
    let block = QuantBlock { scale: 1.0f32.to_bits(), zero: 0, levels: levels.clone() };
    let payload = encode_q5_1(&[block]);
    assert_eq!(unpack_q5(&payload[8..]), levels);
    assert_eq!(unpack_q5(&[0x41, 0x0c]), vec![1, 2, 3]);
    assert_eq!(unpack_q5(&[]), Vec::<u8>::new());
}

#[test]
fn blocks_keep_their_own_scale_and_zero() {
    let blocks = vec![
        block(2.0, 1.0, (0..32).map(|i| i % 16).collect()),
        block(0.5, -1.0, vec![15, 0, 7]),
    ];
    let decoded = try_decode_q4_0(&encode_q4_0(&blocks), &[35]).unwrap();
    assert_eq!(decoded.len(), 35);
    for (k, sample) in decoded.iter().enumerate() {
        let from = &blocks[k / 32];
        let level = from.levels[k % 32];
        assert_eq!(*sample, Sample { scale: from.scale, zero: from.zero, level });
    }
    let blocks5 = vec![
        block(2.0, 1.0, (0..32).collect()),
        block(0.5, -1.0, vec![31, 0, 17, 9, 30]),
    ];
    let decoded = try_decode_q5_1(&encode_q5_1(&blocks5), &[37]).unwrap();
    assert_eq!(decoded.len(), 37);
    for (k, sample) in decoded.iter().enumerate() {
        let from = &blocks5[k / 32];
        let level = from.levels[k % 32];
        assert_eq!(*sample, Sample { scale: from.scale, zero: from.zero, level });
    }
}

#[test]
fn decoding_stops_at_the_declared_count() {
    let payload = quantize_tensor_q4_0(&bits_of(&ramp()), &quantize_block);
    assert_eq!(try_decode_q4_0(&payload, &[5]).unwrap().len(), 5);
    assert_eq!(try_decode_q4_0(&payload, &[0]).unwrap().len(), 0);
    assert_eq!(try_decode_q4_0(&[], &[0]).unwrap().len(), 0);
    let payload = quantize_tensor_q5_1(&bits_of(&ramp()), &quantize_block);
    assert_eq!(try_decode_q5_1(&payload, &[5]).unwrap().len(), 5);
    assert_eq!(try_decode_q5_1(&[1, 2, 3], &[3, 0]).unwrap().len(), 0);
}

#[test]
fn decoding_rejects_a_short_payload() {
    let payload = quantize_tensor_q4_0(&bits_of(&ramp()), &quantize_block);
    assert_eq!(try_decode_q4_0(&payload, &[33]).err(), Some(DecodeError::UnexpectedEOF));
    assert_eq!(try_decode_q4_0(&payload[..7], &[1]).err(), Some(DecodeError::UnexpectedEOF));
    assert_eq!(try_decode_q4_0(&payload[..8], &[1]).err(), Some(DecodeError::UnexpectedEOF));
    assert_eq!(try_decode_q4_0(&payload, &[u64::MAX, 3]).err(), Some(DecodeError::UnexpectedEOF));
    let payload = quantize_tensor_q5_1(&bits_of(&ramp()), &quantize_block);
    assert_eq!(try_decode_q5_1(&payload, &[33]).err(), Some(DecodeError::UnexpectedEOF));
    assert_eq!(try_decode_q5_1(&[], &[]).err(), Some(DecodeError::UnexpectedEOF));
}

#[test]
fn decoding_rejects_a_bad_scale() {
    for scale in [0.0f32, -0.0, f32::INFINITY, f32::NEG_INFINITY, f32::NAN] {
        let block = QuantBlock { scale: scale.to_bits(), zero: 0, levels: vec![1, 2] };
        assert_eq!(
            try_decode_q4_0(&encode_q4_0(&[block.clone()]), &[2]).err(),
            Some(DecodeError::InvalidScale)
        );
        assert_eq!(
            try_decode_q5_1(&encode_q5_1(&[block]), &[2]).err(),
            Some(DecodeError::InvalidScale)
        );
        assert!(!check_scale(scale.to_bits()));
    }
    for scale in [1.0f32, -1e-30, f32::MIN_POSITIVE / 2.0, f32::MAX] {
        assert!(check_scale(scale.to_bits()));
    }
}

#[test]
fn errors_have_their_names() {
    assert_eq!(DecodeError::InvalidScale.as_str(), "InvalidScale");
    assert_eq!(DecodeError::InvalidBlock.as_str(), "InvalidBlock");
    assert_eq!(DecodeError::UnexpectedEOF.as_str(), "UnexpectedEOF");
}
