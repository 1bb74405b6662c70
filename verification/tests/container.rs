use gguf_core::metadata::Metadata;
use gguf_core::reader::{read_gguf_file, unread_entry, ReadError};
use gguf_core::types::{GGUFTensor, GGUFValue};
use gguf_core::writer::write_gguf_file;

fn floats_le(values: &[f32]) -> Vec<u8> {
    let mut out = Vec::new();
    for v in values {
        out.extend_from_slice(&v.to_le_bytes());
    }
    out
}

fn sample_metadata() -> Metadata {
    let mut metadata = Metadata::new();
    metadata.insert("name".to_string(), GGUFValue::String("t".to_string()));
    metadata.insert("n".to_string(), GGUFValue::U64(3));
    metadata
}

fn sample_tensor() -> GGUFTensor {
    GGUFTensor {
        name: "v".to_string(),
        type_id: 0,
        dims: vec![3],
        offset: 0,
        values: floats_le(&[1.0, 2.0, 3.0]),
    }
}

fn string_wire(text: &str) -> Vec<u8> {
    let mut out = (text.len() as u64).to_le_bytes().to_vec();
    out.extend_from_slice(text.as_bytes());
    out
}

fn preamble(tensors: u64, entries: u64) -> Vec<u8> {
    let mut out = b"GGUF".to_vec();
    out.extend_from_slice(&2u32.to_le_bytes());
    out.extend_from_slice(&tensors.to_le_bytes());
    out.extend_from_slice(&entries.to_le_bytes());
    out
}

fn tensor(name: &str, type_id: u32, dims: Vec<u64>, values: Vec<u8>) -> GGUFTensor {
    GGUFTensor { name: name.to_string(), type_id, dims, offset: 0, values }
}

#[test]
fn writes_the_documented_layout() {
    let bytes = write_gguf_file(&sample_metadata(), &[sample_tensor()]);

    let mut expected = preamble(1, 2);
    // the entries stand in key order: "n" before "name"
    expected.extend_from_slice(&string_wire("n"));
    expected.push(9);
    expected.extend_from_slice(&3u64.to_le_bytes());
    expected.extend_from_slice(&string_wire("name"));
    expected.push(1);
    expected.extend_from_slice(&string_wire("t"));
    expected.extend_from_slice(&string_wire("v"));
    expected.extend_from_slice(&0u32.to_le_bytes());
    expected.extend_from_slice(&1u32.to_le_bytes());
    expected.extend_from_slice(&3u64.to_le_bytes());
    let offset = (expected.len() + 8) as u64;
    expected.extend_from_slice(&offset.to_le_bytes());
    expected.extend_from_slice(&floats_le(&[1.0, 2.0, 3.0]));
    assert_eq!(bytes, expected);
    assert_eq!(bytes.len(), 4 + 4 + 16 + (9 + 1 + 8) + (12 + 1 + 9) + (9 + 4 + 4 + 8 + 8) + 12);
}

#[test]
fn reads_back_what_was_written() {
    let metadata = sample_metadata();
    let tensor = sample_tensor();
    let bytes = write_gguf_file(&metadata, &[tensor.clone()]);
    let (read_metadata, read_tensors) = read_gguf_file(&bytes).unwrap();
    assert_eq!(read_metadata.len(), 2);
    assert_eq!(read_metadata.get("name"), Some(&GGUFValue::String("t".to_string())));
    assert_eq!(read_metadata.get("n"), Some(&GGUFValue::U64(3)));
    assert_eq!(read_metadata.get("absent"), None);
    assert_eq!(read_tensors.len(), 1);
    assert_eq!(read_tensors[0].name, "v");
    assert_eq!(read_tensors[0].type_id, 0);
    assert_eq!(read_tensors[0].dims, vec![3]);
    assert_eq!(read_tensors[0].values, tensor.values);
    assert_eq!(read_tensors[0].offset as usize, bytes.len() - 12);
}

#[test]
fn writing_again_gives_the_same_bytes() {
    let bytes = write_gguf_file(&sample_metadata(), &[sample_tensor()]);
    let (metadata, tensors) = read_gguf_file(&bytes).unwrap();
    assert_eq!(write_gguf_file(&metadata, &tensors), bytes);
}

#[test]
fn every_kind_of_value_survives() {
    let values = vec![
        ("a", GGUFValue::String("héllo".to_string())),
        ("b", GGUFValue::Bool(true)),
        ("c", GGUFValue::U8(200)),
        ("d", GGUFValue::I8(-100)),
        ("e", GGUFValue::U16(60000)),
        ("f", GGUFValue::I16(-30000)),
        ("g", GGUFValue::U32(4_000_000_000)),
        ("h", GGUFValue::I32(-2_000_000_000)),
        ("i", GGUFValue::U64(u64::MAX)),
        ("j", GGUFValue::I64(i64::MIN)),
        ("k", GGUFValue::F32(1.5f32.to_bits())),
        ("l", GGUFValue::F64((-2.25f64).to_bits())),
        ("m", GGUFValue::StringArray(vec!["x".to_string(), String::new(), "yz".to_string()])),
        ("n", GGUFValue::Binary(vec![0, 255, 7])),
        ("o", GGUFValue::Bool(false)),
    ];
    let mut metadata = Metadata::new();
    for (key, value) in &values {
        metadata.insert(key.to_string(), value.clone());
    }
    let bytes = write_gguf_file(&metadata, &[]);
    let (read, tensors) = read_gguf_file(&bytes).unwrap();
    assert!(tensors.is_empty());
    assert_eq!(read.len(), values.len());
    for (key, value) in &values {
        assert_eq!(read.get(key), Some(value));
    }
}

#[test]
fn kind_codes_on_the_wire_follow_the_table() {
    let cases: Vec<(GGUFValue, u8)> = vec![
        (GGUFValue::String(String::new()), 1),
        (GGUFValue::U8(0), 3),
        (GGUFValue::I8(0), 4),
        (GGUFValue::U16(0), 5),
        (GGUFValue::I16(0), 6),
        (GGUFValue::U32(0), 7),
        (GGUFValue::I32(0), 8),
        (GGUFValue::U64(0), 9),
        (GGUFValue::Bool(false), 10),
        (GGUFValue::I64(0), 11),
        (GGUFValue::F64(0), 12),
        (GGUFValue::F32(0), 13),
        (GGUFValue::StringArray(Vec::new()), 14),
        (GGUFValue::Binary(Vec::new()), 15),
        (GGUFValue::Unknown(77), 77),
    ];
    for (value, code) in cases {
        let mut metadata = Metadata::new();
        metadata.insert("k".to_string(), value);
        let bytes = write_gguf_file(&metadata, &[]);
        assert_eq!(bytes[24 + 9], code);
    }
}

#[test]
fn a_tensor_without_axes_survives() {
    let tensor = GGUFTensor {
        name: "scalar".to_string(),
        type_id: 0,
        dims: vec![],
        offset: 0,
        values: floats_le(&[42.0]),
    };
    let bytes = write_gguf_file(&Metadata::new(), &[tensor]);
    let (_, tensors) = read_gguf_file(&bytes).unwrap();
    assert_eq!(tensors.len(), 1);
    assert!(tensors[0].dims.is_empty());
    assert_eq!(tensors[0].values, floats_le(&[42.0]));
}

#[test]
fn payloads_follow_the_directory_without_gaps() {
    let a = tensor("a", 0, vec![1], vec![1, 2, 3, 4]);
    let b = tensor("b", 7, vec![], vec![]);
    let mut c = tensor("c", 100, vec![2, 1], vec![5; 9]);
    // what the offset field holds before writing plays no part
    c.offset = 9;
    let bytes = write_gguf_file(&Metadata::new(), &[a, b, c]);
    let (_, tensors) = read_gguf_file(&bytes).unwrap();
    let directory_end = 24 + (9 + 8 + 8 + 8) + (9 + 8 + 8) + (9 + 8 + 16 + 8);
    assert_eq!(tensors[0].offset, directory_end as u64);
    assert_eq!(tensors[1].offset, tensors[0].offset + 4);
    assert_eq!(tensors[2].offset, tensors[1].offset);
    assert_eq!(tensors[2].offset as usize + 9, bytes.len());
    assert_eq!(tensors[0].values, vec![1, 2, 3, 4]);
    assert!(tensors[1].values.is_empty());
    assert_eq!(tensors[2].values, vec![5; 9]);
    assert_eq!(tensors[1].type_id, 7);
}

#[test]
fn rejects_a_wrong_magic() {
    let mut bytes = write_gguf_file(&sample_metadata(), &[sample_tensor()]);
    bytes[3] = b'X';
    assert_eq!(read_gguf_file(&bytes).err(), Some(ReadError::BadMagic));
    assert_eq!(read_gguf_file(b"GGUX").err(), Some(ReadError::BadMagic));
}

#[test]
fn rejects_a_short_preamble() {
    assert_eq!(read_gguf_file(b"").err(), Some(ReadError::ShortRead));
    assert_eq!(read_gguf_file(b"GG").err(), Some(ReadError::ShortRead));
    assert_eq!(read_gguf_file(b"GGUF\x02\x00\x00\x00").err(), Some(ReadError::ShortRead));
}

#[test]
fn rejects_every_truncation_of_the_headers() {
    let bytes = write_gguf_file(&sample_metadata(), &[sample_tensor()]);
    let headers_end = bytes.len() - 12;
    for cut in 4..headers_end {
        assert_eq!(read_gguf_file(&bytes[..cut]).err(), Some(ReadError::ShortRead));
    }
}

#[test]
fn rejects_a_payload_behind_the_end() {
    let bytes = write_gguf_file(&sample_metadata(), &[sample_tensor()]);
    let field = bytes.len() - 12 - 8;
    let mut moved = bytes.clone();
    moved[field..field + 8].copy_from_slice(&(bytes.len() as u64 + 1).to_le_bytes());
    assert_eq!(read_gguf_file(&moved).err(), Some(ReadError::ShortRead));
}

#[test]
fn rejects_offsets_that_descend() {
    let a = tensor("a", 0, vec![1], vec![1, 2, 3, 4]);
    let b = tensor("b", 0, vec![1], vec![5, 6, 7, 8]);
    let mut bytes = write_gguf_file(&Metadata::new(), &[a, b]);
    let second_field = bytes.len() - 8 - 8;
    bytes[second_field..second_field + 8].copy_from_slice(&30u64.to_le_bytes());
    assert_eq!(read_gguf_file(&bytes).err(), Some(ReadError::ShortRead));
}

#[test]
fn a_payload_runs_to_the_next_offset() {
    let a = tensor("a", 0, vec![1], vec![1, 2, 3, 4]);
    let mut bytes = write_gguf_file(&Metadata::new(), &[a]);
    bytes.extend_from_slice(&[9, 9]);
    let (_, tensors) = read_gguf_file(&bytes).unwrap();
    assert_eq!(tensors[0].values, vec![1, 2, 3, 4, 9, 9]);
}

#[test]
fn a_later_value_replaces_an_earlier_one() {
    let mut bytes = preamble(0, 2);
    for v in [1u8, 2u8] {
        bytes.extend_from_slice(&string_wire("k"));
        bytes.push(3);
        bytes.push(v);
    }
    let (metadata, _) = read_gguf_file(&bytes).unwrap();
    assert_eq!(metadata.len(), 1);
    assert_eq!(metadata.get("k"), Some(&GGUFValue::U8(2)));
}

#[test]
fn the_reader_hands_out_metadata_in_key_order() {
    let mut bytes = preamble(0, 3);
    for key in ["zeta", "alpha", "mid"] {
        bytes.extend_from_slice(&string_wire(key));
        bytes.push(10);
        bytes.push(1);
    }
    let (metadata, _) = read_gguf_file(&bytes).unwrap();
    let keys: Vec<String> = (0..metadata.len()).map(|i| metadata.key_at(i).clone()).collect();
    assert_eq!(keys, vec!["alpha", "mid", "zeta"]);
    assert_eq!(metadata.value_at(0), &GGUFValue::Bool(true));
}

#[test]
fn an_entry_of_unknown_length_ends_the_metadata() {
    let mut bytes = preamble(1, 3);
    bytes.extend_from_slice(&string_wire("kept"));
    bytes.push(3);
    bytes.push(7);
    bytes.extend_from_slice(&string_wire("array"));
    bytes.push(2);
    // the directory follows the kind byte at once
    bytes.extend_from_slice(&string_wire("t"));
    bytes.extend_from_slice(&0u32.to_le_bytes());
    bytes.extend_from_slice(&0u32.to_le_bytes());
    let offset = bytes.len() as u64 + 8;
    bytes.extend_from_slice(&offset.to_le_bytes());
    bytes.extend_from_slice(&[1, 2, 3, 4]);
    assert_eq!(unread_entry(&bytes), Some(("array".to_string(), 2)));
    let (metadata, tensors) = read_gguf_file(&bytes).unwrap();
    assert_eq!(metadata.len(), 1);
    assert_eq!(metadata.get("kept"), Some(&GGUFValue::U8(7)));
    assert_eq!(tensors.len(), 1);
    assert_eq!(tensors[0].name, "t");
    assert_eq!(tensors[0].values, vec![1, 2, 3, 4]);
}

#[test]
fn a_code_outside_the_table_ends_the_metadata_too() {
    let mut bytes = preamble(0, 2);
    bytes.extend_from_slice(&string_wire("odd"));
    bytes.push(200);
    assert_eq!(unread_entry(&bytes), Some(("odd".to_string(), 200)));
    let (metadata, tensors) = read_gguf_file(&bytes).unwrap();
    assert!(metadata.is_empty());
    assert!(tensors.is_empty());
}

#[test]
fn a_file_that_is_read_whole_has_no_unread_entry() {
    let bytes = write_gguf_file(&sample_metadata(), &[sample_tensor()]);
    assert_eq!(unread_entry(&bytes), None);
    assert_eq!(unread_entry(b"GGUF"), None);
    assert_eq!(unread_entry(&bytes[..40]), None);
}

#[test]
fn a_value_of_unknown_kind_is_written_as_its_code_alone() {
    let mut metadata = Metadata::new();
    metadata.insert("k".to_string(), GGUFValue::Unknown(99));
    let bytes = write_gguf_file(&metadata, &[]);
    let mut expected = preamble(0, 1);
    expected.extend_from_slice(&string_wire("k"));
    expected.push(99);
    assert_eq!(bytes, expected);
    let (read, _) = read_gguf_file(&bytes).unwrap();
    assert!(read.is_empty());
}

#[test]
fn invalid_text_is_read_with_replacement_characters() {
    let mut bytes = preamble(0, 1);
    bytes.extend_from_slice(&2u64.to_le_bytes());
    bytes.extend_from_slice(&[b'a', 0xff]);
    bytes.push(10);
    bytes.push(0);
    let (metadata, _) = read_gguf_file(&bytes).unwrap();
    assert_eq!(metadata.key_at(0), "a\u{fffd}");
    assert_eq!(metadata.get("a\u{fffd}"), Some(&GGUFValue::Bool(false)));
}

#[test]
fn any_version_is_read() {
    let mut bytes = write_gguf_file(&sample_metadata(), &[sample_tensor()]);
    bytes[4] = 9;
    assert!(read_gguf_file(&bytes).is_ok());
}

#[test]
fn keys_are_ordered_by_their_bytes() {
    let mut metadata = Metadata::new();
    for key in ["b", "a", "ab", "", "B", "é", "a"] {
        metadata.insert(key.to_string(), GGUFValue::U8(0));
    }
    let keys: Vec<String> = (0..metadata.len()).map(|i| metadata.key_at(i).clone()).collect();
    assert_eq!(keys, vec!["", "B", "a", "ab", "b", "é"]);
    assert!(metadata.contains_key("ab"));
    assert!(!metadata.contains_key("c"));
}

#[test]
fn read_errors_have_their_names() {
    assert_eq!(ReadError::BadMagic.as_str(), "BadMagic");
    assert_eq!(ReadError::ShortRead.as_str(), "ShortRead");
}
