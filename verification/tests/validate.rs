use gguf_core::codec::encode_f32;
use gguf_core::decoder::DecodeError;
use gguf_core::metadata::Metadata;
use gguf_core::quantize::{encode_q4_0, QuantBlock};
use gguf_core::reader::read_gguf_file;
use gguf_core::types::GGUFTensor;
use gguf_core::validate::{exit_status, validate_tensor, validate_tensors, Verdict};
use gguf_core::writer::write_gguf_file;

fn two_tensors() -> Vec<GGUFTensor> {
    let floats: Vec<u32> = [1.0f32, 2.0, 3.0, 4.0].iter().map(|v| v.to_bits()).collect();
    let block = QuantBlock {
        scale: 1.0f32.to_bits(),
        zero: 0.0f32.to_bits(),
        levels: (0..32).map(|i| i % 16).collect(),
    };
    vec![
        tensor("raw", 0, vec![4], encode_f32(&floats)),
        tensor("blocks", 100, vec![32], encode_q4_0(&[block])),
    ]
}

fn tensor(name: &str, type_id: u32, dims: Vec<u64>, values: Vec<u8>) -> GGUFTensor {
    GGUFTensor { name: name.to_string(), type_id, dims, offset: 0, values }
}

#[test]
fn a_sound_file_passes() {
    let bytes = write_gguf_file(&Metadata::new(), &two_tensors());
    let (_, tensors) = read_gguf_file(&bytes).unwrap();
    let report = validate_tensors(&tensors);
    assert_eq!(
        report.verdicts,
        vec![Verdict::Passed { elements: 4 }, Verdict::Passed { elements: 32 }]
    );
    assert_eq!(report.failed, 0);
    assert_eq!(exit_status(&report), 0);
}

#[test]
fn a_broken_scale_fails_its_tensor_alone() {
    let bytes = write_gguf_file(&Metadata::new(), &two_tensors());
    let (_, tensors) = read_gguf_file(&bytes).unwrap();
    let mut broken = bytes.clone();
    let scale_at = tensors[1].offset as usize;
    // one byte changed: the exponent of the scale is all ones, the scale infinite
    assert_eq!(broken[scale_at + 3], 0x3f);
    broken[scale_at + 3] = 0x7f;
    let (_, tensors) = read_gguf_file(&broken).unwrap();
    let report = validate_tensors(&tensors);
    assert_eq!(
        report.verdicts,
        vec![Verdict::Passed { elements: 4 }, Verdict::Failed(DecodeError::InvalidScale)]
    );
    assert_eq!(report.failed, 1);
    assert_eq!(exit_status(&report), 1);
}

#[test]
fn other_type_codes_are_skipped() {
    let tensor = tensor("x", 42, vec![9], vec![]);
    assert_eq!(validate_tensor(&tensor), Verdict::Skipped);
    let report = validate_tensors(&[tensor]);
    assert_eq!(report.failed, 0);
    assert_eq!(exit_status(&report), 0);
}

#[test]
fn each_codec_is_chosen_by_its_type_code() {
    let values = vec![0u8; 28];
    let raw = tensor("a", 0, vec![7], values.clone());
    assert_eq!(validate_tensor(&raw), Verdict::Passed { elements: 7 });
    let four = tensor("a", 100, vec![7], values.clone());
    assert_eq!(validate_tensor(&four), Verdict::Failed(DecodeError::InvalidScale));
    let five = GGUFTensor { name: "a".into(), type_id: 101, dims: vec![7], offset: 0, values };
    assert_eq!(validate_tensor(&five), Verdict::Failed(DecodeError::InvalidScale));
    let short = tensor("a", 0, vec![7], vec![0; 24]);
    assert_eq!(validate_tensor(&short), Verdict::Failed(DecodeError::UnexpectedEOF));
    let ragged = tensor("a", 0, vec![7], vec![0; 30]);
    assert_eq!(validate_tensor(&ragged), Verdict::Failed(DecodeError::InvalidBlock));
}

#[test]
fn failures_are_counted() {
    let bad = tensor("a", 0, vec![7], vec![0; 3]);
    let good = tensor("b", 0, vec![1], vec![0; 4]);
    let report = validate_tensors(&[bad.clone(), good, bad]);
    assert_eq!(report.failed, 2);
    assert_eq!(report.verdicts.len(), 3);
    assert_eq!(exit_status(&report), 1);
}
