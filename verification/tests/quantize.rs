use gguf_core::codec::encode_f32;
use gguf_core::decoder::{try_decode_q4_0, DecodeError};
use gguf_core::metadata::Metadata;
use gguf_core::quantize::{
    mark_quantized, quantize_blocks, quantize_container, quantize_tensor, QuantBlock,
    QuantizationType, QuantizeError,
};
use gguf_core::reader::read_gguf_file;
use gguf_core::types::{GGUFTensor, GGUFValue};
use gguf_core::writer::write_gguf_file;

fn quantize_block(chunk: Vec<u32>, top: u8) -> QuantBlock {
    let floats: Vec<f32> = chunk.iter().map(|bits| f32::from_bits(*bits)).collect();
    let min = floats.iter().copied().fold(f32::INFINITY, f32::min);
    let max = floats.iter().copied().fold(f32::NEG_INFINITY, f32::max);
    let scale = (max - min).max(1e-6) / top as f32;
    let levels = floats
        .iter()
        .map(|v| ((*v - min) / scale).round().clamp(0.0, top as f32) as u8)
        .collect();
    QuantBlock { scale: scale.to_bits(), zero: min.to_bits(), levels }
}

fn lengths(chunk: Vec<u32>, top: u8) -> QuantBlock {
    QuantBlock { scale: chunk.len() as u32, zero: top as u32, levels: Vec::new() }
}

fn tensor(name: &str, type_id: u32, dims: Vec<u64>, values: Vec<u8>) -> GGUFTensor {
    GGUFTensor { name: name.to_string(), type_id, dims, offset: 0, values }
}

#[test]
fn formats_are_named_in_any_case() {
    assert_eq!(QuantizationType::from("q4_0".to_string()), QuantizationType::Q4_0);
    assert_eq!(QuantizationType::from("Q4_0".to_string()), QuantizationType::Q4_0);
    assert_eq!(QuantizationType::from("Q5_1".to_string()), QuantizationType::Q5_1);
    assert_eq!(QuantizationType::from("q5_1".to_string()), QuantizationType::Q5_1);
    assert_eq!(
        QuantizationType::from("Q8_0".to_string()),
        QuantizationType::Unknown("Q8_0".to_string())
    );
    assert_eq!(
        QuantizationType::classify("q4_0", "whatever".to_string()),
        QuantizationType::Q4_0
    );
    assert_eq!(
        QuantizationType::classify("Q4_0", "Q4_0".to_string()),
        QuantizationType::Unknown("Q4_0".to_string())
    );
}

#[test]
fn formats_have_their_names() {
    assert_eq!(QuantizationType::Q4_0.as_str(), "Q4_0");
    assert_eq!(QuantizationType::Q5_1.as_str(), "Q5_1");
    assert_eq!(QuantizationType::Unknown("x".to_string()).as_str(), "Unknown");
}

#[test]
fn floats_are_cut_into_chunks_of_32() {
    let values: Vec<u32> = (0..70).collect();
    let q4 = quantize_blocks(&values, 15, &lengths);
    assert_eq!(q4.iter().map(|b| b.scale).collect::<Vec<u32>>(), vec![32, 32, 6]);
    assert_eq!(q4.iter().map(|b| b.zero).collect::<Vec<u32>>(), vec![15, 15, 15]);
    assert_eq!(quantize_blocks(&values[..64], 31, &lengths).len(), 2);
    assert_eq!(quantize_blocks(&values[..1], 31, &lengths).len(), 1);
    assert!(quantize_blocks(&[], 31, &lengths).is_empty());
}

#[test]
fn each_format_has_its_type_code() {
    let values: Vec<u32> = (0..32).map(|i| (i as f32).to_bits()).collect();
    let (payload, code) =
        quantize_tensor(&values, &QuantizationType::Q4_0, &quantize_block).unwrap();
    assert_eq!((payload.len(), code), (24, 100));
    let (payload, code) =
        quantize_tensor(&values, &QuantizationType::Q5_1, &quantize_block).unwrap();
    assert_eq!((payload.len(), code), (28, 101));
    assert_eq!(
        quantize_tensor(&values, &QuantizationType::Unknown("x".into()), &quantize_block),
        None
    );
}

#[test]
fn a_container_of_zeros_is_quantized() {
    let tensor = GGUFTensor {
        name: "w".into(),
        type_id: 0,
        dims: vec![64],
        offset: 0,
        values: encode_f32(&[0.0f32.to_bits(); 64]),
    };
    let mut metadata = Metadata::new();
    metadata.insert("name".into(), GGUFValue::String("m".into()));
    let source = write_gguf_file(&metadata, &[tensor]);

    let (mut metadata, tensors) = read_gguf_file(&source).unwrap();
    let format = QuantizationType::Q4_0;
    let quantized =
        quantize_container(&mut metadata, &tensors, &format, &quantize_block).unwrap();
    let written = write_gguf_file(&metadata, &quantized);

    let (metadata, tensors) = read_gguf_file(&written).unwrap();
    assert_eq!(tensors.len(), 1);
    assert_eq!(tensors[0].name, "w");
    assert_eq!(tensors[0].type_id, 100);
    assert_eq!(tensors[0].dims, vec![64]);
    assert_eq!(tensors[0].values.len(), 2 * 24);
    assert_eq!(metadata.get("quantization_format"), Some(&GGUFValue::String("Q4_0".into())));
    assert_eq!(metadata.get("quantized"), Some(&GGUFValue::Bool(true)));
    assert_eq!(metadata.get("name"), Some(&GGUFValue::String("m".into())));
    assert_eq!(metadata.get("precision"), None);
    let decoded = try_decode_q4_0(&tensors[0].values, &tensors[0].dims).unwrap();
    assert_eq!(decoded.len(), 64);
    for sample in decoded {
        let value =
            f32::from_bits(sample.scale) * sample.level as f32 + f32::from_bits(sample.zero);
        assert_eq!(value, 0.0);
    }
}

#[test]
fn an_unknown_format_changes_nothing() {
    let mut metadata = Metadata::new();
    let format = QuantizationType::Unknown("x".into());
    let r = quantize_container(&mut metadata, &[], &format, &quantize_block);
    assert_eq!(r.err(), Some(QuantizeError::UnsupportedFormat));
    assert!(metadata.is_empty());
}

#[test]
fn an_undecodable_tensor_is_named() {
    let good = tensor("a", 0, vec![1], vec![0; 4]);
    let bad = tensor("b", 0, vec![2], vec![0; 4]);
    let mut metadata = Metadata::new();
    let format = QuantizationType::Q5_1;
    let r = quantize_container(&mut metadata, &[good, bad], &format, &quantize_block);
    assert_eq!(
        r.err(),
        Some(QuantizeError::Undecodable { tensor: 1, error: DecodeError::UnexpectedEOF })
    );
    assert!(metadata.is_empty());
}

#[test]
fn the_format_is_recorded_in_the_metadata() {
    let mut metadata = Metadata::new();
    metadata.insert("quantized".into(), GGUFValue::Bool(false));
    mark_quantized(&mut metadata, &QuantizationType::Q5_1);
    assert_eq!(metadata.len(), 2);
    assert_eq!(metadata.get("quantized"), Some(&GGUFValue::Bool(true)));
    assert_eq!(metadata.get("quantization_format"), Some(&GGUFValue::String("Q5_1".into())));
}
