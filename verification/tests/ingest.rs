use gguf_core::ingest::{
    check_numbers, convert_tensor, convert_tensors, load_tensors_from_safetensors,
    read_safetensors, sources_or_error, widen_brain, IngestError, SourceDtype, SourceTensor,
};

fn widen(bits: u16) -> u32 {
    half::f16::from_bits(bits).to_f32().to_bits()
}

fn blob(header: &str, data: &[u8]) -> Vec<u8> {
    let mut out = (header.len() as u64).to_le_bytes().to_vec();
    out.extend_from_slice(header.as_bytes());
    out.extend_from_slice(data);
    out
}

fn source(name: &str, dtype: SourceDtype, shape: Vec<u64>, data: Vec<u8>) -> SourceTensor {
    SourceTensor { name: name.to_string(), dtype, shape, data }
}

#[test]
fn raw_floats_are_copied_through() {
    let data = 1.5f32.to_le_bytes().to_vec();
    let raw = source("a", SourceDtype::F32, vec![1], data.clone());
    let tensor = convert_tensor(&raw, &widen).unwrap();
    assert_eq!(tensor.name, "a");
    assert_eq!(tensor.type_id, 0);
    assert_eq!(tensor.dims, vec![1]);
    assert_eq!(tensor.offset, 0);
    assert_eq!(tensor.values, data);
}

#[test]
fn brain_floats_become_the_high_half() {
    assert_eq!(widen_brain(0x80, 0x3f), 1.0f32.to_bits());
    assert_eq!(widen_brain(0x12, 0x34), 0x3412_0000);
    let brain = source("b", SourceDtype::BF16, vec![2], vec![0x80, 0x3f, 0x00, 0xc0, 0xee]);
    let tensor = convert_tensor(&brain, &widen).unwrap();
    let mut expected = 1.0f32.to_le_bytes().to_vec();
    expected.extend_from_slice(&(-2.0f32).to_le_bytes());
    assert_eq!(tensor.values, expected);
    assert_eq!(tensor.dims, vec![2]);
}

#[test]
fn half_floats_are_widened() {
    // 1.0, -2.0 and the smallest subnormal in half precision
    let data = vec![0x00, 0x3c, 0x00, 0xc0, 0x01, 0x00];
    let tensor = convert_tensor(&source("h", SourceDtype::F16, vec![3], data), &widen).unwrap();
    let mut expected = 1.0f32.to_le_bytes().to_vec();
    expected.extend_from_slice(&(-2.0f32).to_le_bytes());
    expected.extend_from_slice(&(2.0f32.powi(-24)).to_le_bytes());
    assert_eq!(tensor.values, expected);
}

#[test]
fn half_words_are_little_endian() {
    let echo = |bits: u16| bits as u32;
    let half = source("h", SourceDtype::F16, vec![2], vec![0x34, 0x12, 0xcd, 0xab]);
    let tensor = convert_tensor(&half, &echo).unwrap();
    assert_eq!(tensor.values, vec![0x34, 0x12, 0, 0, 0xcd, 0xab, 0, 0]);
}

#[test]
fn other_types_are_left_out() {
    assert_eq!(convert_tensor(&source("i", SourceDtype::Other, vec![1], vec![0; 4]), &widen), None);
    let sources = vec![
        source("a", SourceDtype::F32, vec![1], vec![0; 4]),
        source("i", SourceDtype::Other, vec![1], vec![0; 4]),
        source("c", SourceDtype::F32, vec![], vec![1; 4]),
    ];
    let (tensors, all_f32) = convert_tensors(&sources, &widen);
    assert_eq!(tensors.iter().map(|t| t.name.as_str()).collect::<Vec<&str>>(), vec!["a", "c"]);
    assert!(all_f32);
}

#[test]
fn the_flag_tells_of_widening() {
    let raw = source("a", SourceDtype::F32, vec![1], vec![0; 4]);
    let half = source("h", SourceDtype::F16, vec![1], vec![0; 2]);
    let brain = source("b", SourceDtype::BF16, vec![1], vec![0; 2]);
    assert!(convert_tensors(&[], &widen).1);
    assert!(convert_tensors(&[raw.clone()], &widen).1);
    assert!(!convert_tensors(&[raw.clone(), half], &widen).1);
    assert!(!convert_tensors(&[brain, raw], &widen).1);
}

#[test]
fn a_blob_is_read() {
    let header = [
        r#"{"a":{"dtype":"F32","shape":[2],"data_offsets":[0,8]},"#,
        r#""b":{"dtype":"BF16","shape":[1,2],"data_offsets":[8,12]},"#,
        r#""c":{"dtype":"F16","shape":[1],"data_offsets":[12,14]},"#,
        r#""d":{"dtype":"I32","shape":[1],"data_offsets":[14,18]}}"#,
    ]
    .concat();
    let header = header.as_str();
    let mut data = Vec::new();
    data.extend_from_slice(&1.0f32.to_le_bytes());
    data.extend_from_slice(&2.0f32.to_le_bytes());
    data.extend_from_slice(&[0x80, 0x3f, 0x00, 0x40]);
    data.extend_from_slice(&[0x00, 0x3c]);
    data.extend_from_slice(&[9, 9, 9, 9]);
    let bytes = blob(header, &data);

    let mut sources = read_safetensors(&bytes).unwrap();
    sources.sort_by(|x, y| x.name.cmp(&y.name));
    assert_eq!(sources.len(), 4);
    assert_eq!(sources[0], source("a", SourceDtype::F32, vec![2], data[0..8].to_vec()));
    assert_eq!(sources[1], source("b", SourceDtype::BF16, vec![1, 2], data[8..12].to_vec()));
    assert_eq!(sources[2], source("c", SourceDtype::F16, vec![1], data[12..14].to_vec()));
    assert_eq!(sources[3], source("d", SourceDtype::Other, vec![1], data[14..18].to_vec()));

    let (mut tensors, all_f32) = load_tensors_from_safetensors(&bytes, &widen).unwrap();
    tensors.sort_by(|x, y| x.name.cmp(&y.name));
    assert!(!all_f32);
    assert_eq!(tensors.len(), 3);
    assert_eq!(tensors[0].values, data[0..8].to_vec());
    let mut brain = 1.0f32.to_le_bytes().to_vec();
    brain.extend_from_slice(&2.0f32.to_le_bytes());
    assert_eq!(tensors[1].values, brain);
    assert_eq!(tensors[1].dims, vec![1, 2]);
    assert_eq!(tensors[2].values, 1.0f32.to_le_bytes().to_vec());
    for tensor in &tensors {
        assert_eq!(tensor.type_id, 0);
        assert_eq!(tensor.offset, 0);
    }
}

#[test]
fn a_blob_of_raw_floats_alone_needs_no_widening() {
    let header = r#"{"a":{"dtype":"F32","shape":[1],"data_offsets":[0,4]}}"#;
    let bytes = blob(header, &[1, 2, 3, 4]);
    let (tensors, all_f32) = load_tensors_from_safetensors(&bytes, &widen).unwrap();
    assert!(all_f32);
    assert_eq!(tensors.len(), 1);
    assert_eq!(tensors[0].values, vec![1, 2, 3, 4]);
}

#[test]
fn a_broken_blob_is_an_error() {
    assert!(matches!(read_safetensors(&[1, 2, 3]), Err(IngestError::InvalidData(_))));
    let header = r#"{"a":{"dtype":"F32","shape":[2],"data_offsets":[0,8]}}"#;
    let r = load_tensors_from_safetensors(&blob(header, &[0; 4]), &widen);
    assert!(matches!(r, Err(IngestError::InvalidData(_))));
    match read_safetensors(b"\xff\xff\xff\xff\xff\xff\xff\xff") {
        Err(IngestError::InvalidData(text)) => assert!(!text.is_empty()),
        other => panic!("unexpected: {:?}", other),
    }
}

#[test]
fn a_header_with_a_huge_number_is_refused() {
    let header = r#"{"a":{"dtype":"F32","shape":[1],"data_offsets":[0,18446744073709551615]}}"#;
    let bytes = blob(header, &[0; 4]);
    assert!(!check_numbers(&bytes));
    match read_safetensors(&bytes) {
        Err(IngestError::InvalidData(text)) => {
            assert_eq!(text, "the header declares a number too large")
        }
        other => panic!("unexpected: {:?}", other),
    }
    let header = r#"{"a":{"dtype":"F32","shape":[99999999999999999999999],"data_offsets":[0,4]}}"#;
    assert!(!check_numbers(&blob(header, &[0; 4])));
}

#[test]
fn digits_in_strings_are_no_numbers() {
    let header = concat_header();
    let bytes = blob(&header, &[1, 2, 3, 4]);
    assert!(check_numbers(&bytes));
    let (tensors, _) = load_tensors_from_safetensors(&bytes, &widen).unwrap();
    assert_eq!(tensors.len(), 1);
    assert_eq!(tensors[0].values, vec![1, 2, 3, 4]);
}

fn concat_header() -> String {
    let mut header = String::from(r#"{"__metadata__":{"id":"99999999999999999999999","q":"\"#);
    header.push_str(r#""18446744073709551615"},"#);
    header.push_str(r#""a":{"dtype":"F32","shape":[1],"data_offsets":[0,4]}}"#);
    header
}

#[test]
fn numbers_up_to_the_limit_pass() {
    let limit = usize::MAX - 100_000_008;
    let header = format!("[{}, 0, 12]", limit);
    assert!(check_numbers(&blob(&header, &[])));
    let header = format!("[{}]", limit as u128 + 1);
    assert!(!check_numbers(&blob(&header, &[])));
    assert!(check_numbers(&[]));
    assert!(check_numbers(&[9, 0, 0, 0, 0, 0, 0, 0, b'1']));
    // the payload behind the header is not looked at
    assert!(check_numbers(&blob("{}", b"99999999999999999999999")));
}

#[test]
fn the_outcome_of_the_crate_is_taken_over() {
    let sources = vec![
        source("b", SourceDtype::F16, vec![1], vec![0, 0x3c]),
        source("a", SourceDtype::F32, vec![1], vec![1, 2, 3, 4]),
    ];
    assert_eq!(sources_or_error(Ok(sources.clone())), Ok(sources));
    assert_eq!(sources_or_error(Ok(Vec::new())), Ok(Vec::new()));
    let refused = safetensors::SafeTensorError::HeaderTooSmall;
    let text = refused.to_string();
    assert_eq!(sources_or_error(Err(refused)), Err(IngestError::InvalidData(text)));
}
