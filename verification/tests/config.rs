use gguf_core::config::{
    build_default_metadata, clone_value, convert_config_to_metadata, get_field, parse_metadata,
    to_bool, to_f64, to_string, to_typed, to_u64, JsonField, JsonNumber, JsonValue,
};
use gguf_core::reader::read_gguf_file;
use gguf_core::types::{GGUFValue, TensorDef};
use gguf_core::writer::{dummy_defs, load_tensors_from_defs, write_gguf_with_tensor};

fn unsigned(v: u64) -> JsonValue {
    JsonValue::Number(JsonNumber {
        as_u64: Some(v),
        as_i64: i64::try_from(v).ok(),
        as_f64: Some((v as f64).to_bits()),
    })
}

fn negative(v: i64) -> JsonValue {
    JsonValue::Number(JsonNumber {
        as_u64: None,
        as_i64: Some(v),
        as_f64: Some((v as f64).to_bits()),
    })
}

fn float(v: f64) -> JsonValue {
    JsonValue::Number(JsonNumber { as_u64: None, as_i64: None, as_f64: Some(v.to_bits()) })
}

fn text(s: &str) -> JsonValue {
    JsonValue::String(s.to_string())
}

fn fields(list: Vec<(&str, JsonValue)>) -> Vec<JsonField> {
    list.into_iter().map(|(k, v)| (k.to_string(), v)).collect()
}

#[test]
fn json_values_are_read_by_their_kind() {
    assert_eq!(to_u64(&unsigned(7)), Some(GGUFValue::U64(7)));
    assert_eq!(to_u64(&negative(-7)), None);
    assert_eq!(to_u64(&text("7")), None);
    assert_eq!(to_f64(&unsigned(2)), Some(GGUFValue::F64(2.0f64.to_bits())));
    assert_eq!(to_f64(&float(0.5)), Some(GGUFValue::F64(0.5f64.to_bits())));
    assert_eq!(to_f64(&JsonValue::Bool(true)), None);
    assert_eq!(to_bool(&JsonValue::Bool(true)), Some(GGUFValue::Bool(true)));
    assert_eq!(to_bool(&unsigned(1)), None);
    assert_eq!(to_string(&text("x")), Some(GGUFValue::String("x".into())));
    assert_eq!(to_string(&JsonValue::Null), None);
}

#[test]
fn a_number_is_the_first_kind_that_it_is() {
    assert_eq!(to_typed(&unsigned(7)), Some(GGUFValue::U64(7)));
    assert_eq!(to_typed(&negative(-7)), Some(GGUFValue::I64(-7)));
    assert_eq!(to_typed(&float(1.5)), Some(GGUFValue::F64(1.5f64.to_bits())));
    assert_eq!(
        to_typed(&JsonValue::Number(JsonNumber { as_u64: None, as_i64: None, as_f64: None })),
        None
    );
    assert_eq!(to_typed(&JsonValue::Array(vec![])), None);
    assert_eq!(to_typed(&JsonValue::Object), None);
    assert_eq!(to_typed(&JsonValue::Null), None);
}

#[test]
fn a_metadata_file_becomes_typed_metadata() {
    let raw = fields(vec![
        ("name", text("model")),
        ("layers", unsigned(12)),
        ("shift", negative(-3)),
        ("eps", float(1e-5)),
        ("tied", JsonValue::Bool(false)),
        ("nothing", JsonValue::Null),
        ("list", JsonValue::Array(vec![Some("a".to_string())])),
        ("nested", JsonValue::Object),
        ("layers", unsigned(24)),
    ]);
    let metadata = parse_metadata(&raw);
    assert_eq!(metadata.len(), 5);
    assert_eq!(metadata.get("name"), Some(&GGUFValue::String("model".into())));
    assert_eq!(metadata.get("layers"), Some(&GGUFValue::U64(24)));
    assert_eq!(metadata.get("shift"), Some(&GGUFValue::I64(-3)));
    assert_eq!(metadata.get("eps"), Some(&GGUFValue::F64(1e-5f64.to_bits())));
    assert_eq!(metadata.get("tied"), Some(&GGUFValue::Bool(false)));
    assert_eq!(metadata.get("nothing"), None);
}

#[test]
fn the_first_field_of_a_name_is_found() {
    let config = fields(vec![("a", unsigned(1)), ("b", unsigned(2)), ("a", unsigned(3))]);
    assert_eq!(get_field(&config, "a"), Some(&unsigned(1)));
    assert_eq!(get_field(&config, "b"), Some(&unsigned(2)));
    assert_eq!(get_field(&config, "c"), None);
    assert_eq!(get_field(&[], "a"), None);
}

#[test]
fn a_configuration_is_promoted_in_its_order() {
    let config = fields(vec![
        ("learning_rate", unsigned(1)),
        ("vocab_size", unsigned(32000)),
        ("hidden_size", unsigned(768)),
        ("unk_token", text("<unk>")),
        ("kv_cache", JsonValue::Bool(true)),
        ("layer_norm_eps", float(1e-5)),
        ("num_hidden_layers", text("twelve")),
        ("unrelated", unsigned(1)),
    ]);
    let promoted = convert_config_to_metadata(&config);
    assert_eq!(
        promoted,
        vec![
            ("hidden_size".to_string(), GGUFValue::U64(768)),
            ("layer_norm_eps".to_string(), GGUFValue::F64(1e-5f64.to_bits())),
            ("kv_cache".to_string(), GGUFValue::Bool(true)),
            ("vocab_size".to_string(), GGUFValue::U64(32000)),
            ("unk_token".to_string(), GGUFValue::String("<unk>".into())),
            ("learning_rate".to_string(), GGUFValue::F64(1.0f64.to_bits())),
        ]
    );
    assert!(convert_config_to_metadata(&[]).is_empty());
}

#[test]
fn every_promoted_field_is_known() {
    let unsigned_keys = [
        "hidden_size", "intermediate_size", "num_attention_heads", "num_hidden_layers",
        "rotary_dim", "vocab_size", "pad_token_id", "bos_token_id", "eos_token_id",
        "training_steps",
    ];
    let float_keys = ["layer_norm_eps", "learning_rate"];
    let bool_keys = ["tie_word_embeddings", "kv_cache", "add_prefix_space"];
    let string_keys = [
        "unk_token", "cls_token", "sep_token", "mask_token", "fine_tuned_from",
        "fine_tune_dataset",
    ];
    let mut config = Vec::new();
    for key in unsigned_keys {
        config.push((key, unsigned(1)));
    }
    for key in float_keys {
        config.push((key, float(0.5)));
    }
    for key in bool_keys {
        config.push((key, JsonValue::Bool(true)));
    }
    for key in string_keys {
        config.push((key, text("s")));
    }
    let keys: Vec<String> =
        convert_config_to_metadata(&fields(config)).into_iter().map(|(key, _)| key).collect();
    assert_eq!(
        keys,
        vec![
            "hidden_size", "intermediate_size", "num_attention_heads", "num_hidden_layers",
            "layer_norm_eps", "tie_word_embeddings", "kv_cache", "rotary_dim", "vocab_size",
            "pad_token_id", "bos_token_id", "eos_token_id", "unk_token", "cls_token", "sep_token",
            "mask_token", "add_prefix_space", "fine_tuned_from", "fine_tune_dataset",
            "training_steps", "learning_rate",
        ]
    );
}

#[test]
fn default_metadata_without_a_configuration() {
    let metadata = build_default_metadata(None, true, "UNKNOWN");
    assert_eq!(metadata.len(), 4);
    assert_eq!(metadata.get("gguf_version"), Some(&GGUFValue::String("2".into())));
    assert_eq!(
        metadata.get("description"),
        Some(&GGUFValue::String("Model converted from HuggingFace format".into()))
    );
    assert_eq!(metadata.get("is_quantized"), Some(&GGUFValue::Bool(true)));
    assert_eq!(metadata.get("quantization_format"), Some(&GGUFValue::String("UNKNOWN".into())));
    assert_eq!(metadata.get("precision"), None);

    let metadata = build_default_metadata(None, false, "NA");
    assert_eq!(metadata.len(), 3);
    assert_eq!(metadata.get("is_quantized"), Some(&GGUFValue::Bool(false)));
    assert_eq!(metadata.get("quantization_format"), None);
}

#[test]
fn default_metadata_with_a_configuration() {
    let config = fields(vec![
        ("max_position_embeddings", unsigned(2048)),
        ("hidden_size", unsigned(768)),
        ("architectures", JsonValue::Array(vec![Some("GPT2".to_string()), None])),
        ("vocab_size", unsigned(50257)),
        ("description", text("ignored")),
    ]);
    let metadata = build_default_metadata(Some(&config), false, "NA");
    assert_eq!(metadata.get("context_length"), Some(&GGUFValue::U64(2048)));
    assert_eq!(metadata.get("embedding_size"), Some(&GGUFValue::U64(768)));
    assert_eq!(metadata.get("name"), Some(&GGUFValue::String("GPT2".into())));
    assert_eq!(metadata.get("hidden_size"), Some(&GGUFValue::U64(768)));
    assert_eq!(metadata.get("vocab_size"), Some(&GGUFValue::U64(50257)));
    assert_eq!(
        metadata.get("description"),
        Some(&GGUFValue::String("Model converted from HuggingFace format".into()))
    );
    assert_eq!(metadata.len(), 3 + 3 + 2);
}

#[test]
fn a_configuration_without_a_named_architecture() {
    let unnamed =
        [JsonValue::Array(vec![]), JsonValue::Array(vec![None]), text("GPT2"), JsonValue::Null];
    for architectures in unnamed {
        let config = fields(vec![("architectures", architectures)]);
        let metadata = build_default_metadata(Some(&config), false, "NA");
        assert_eq!(metadata.get("name"), None);
        assert_eq!(metadata.len(), 3);
    }
}

#[test]
fn values_are_copied() {
    for value in [
        GGUFValue::String("s".into()),
        GGUFValue::StringArray(vec!["a".into(), "b".into()]),
        GGUFValue::Binary(vec![1, 2]),
        GGUFValue::I16(-5),
        GGUFValue::Unknown(3),
    ] {
        assert_eq!(clone_value(&value), value);
    }
}

#[test]
fn definitions_become_tensors_of_raw_floats() {
    let def = TensorDef {
        name: "t".into(),
        type_id: 0,
        dims: vec![2],
        values: vec![1.0f32.to_bits(), 2.0f32.to_bits()],
    };
    let tensors = load_tensors_from_defs(&[def]);
    assert_eq!(tensors.len(), 1);
    assert_eq!(tensors[0].name, "t");
    assert_eq!(tensors[0].dims, vec![2]);
    assert_eq!(tensors[0].offset, 0);
    let mut expected = 1.0f32.to_le_bytes().to_vec();
    expected.extend_from_slice(&2.0f32.to_le_bytes());
    assert_eq!(tensors[0].values, expected);
}

#[test]
fn dummy_tensors_stand_in_for_missing_definitions() {
    let metadata = fields(vec![("name", text("m")), ("skipped", JsonValue::Null)]);
    let bytes = write_gguf_with_tensor(&metadata, None);
    let (read, tensors) = read_gguf_file(&bytes).unwrap();
    assert_eq!(read.len(), 1);
    assert_eq!(read.get("name"), Some(&GGUFValue::String("m".into())));
    assert_eq!(tensors.len(), 2);
    assert_eq!(tensors[0].name, "dummy_tensor_1");
    assert_eq!(tensors[0].dims, vec![3]);
    let floats: Vec<u8> = [1.0f32, 2.0, 3.0].iter().flat_map(|v| v.to_le_bytes()).collect();
    assert_eq!(tensors[0].values, floats);
    assert_eq!(tensors[1].name, "dummy_tensor_2");
    assert_eq!(tensors[1].dims, vec![2, 2]);
    let floats: Vec<u8> = [4.0f32, 5.0, 6.0, 7.0].iter().flat_map(|v| v.to_le_bytes()).collect();
    assert_eq!(tensors[1].values, floats);
    assert_eq!(dummy_defs().len(), 2);
}

#[test]
fn given_definitions_are_written() {
    let def =
        TensorDef { name: "t".into(), type_id: 0, dims: vec![1], values: vec![7.0f32.to_bits()] };
    let bytes = write_gguf_with_tensor(&[], Some(&[def]));
    let (read, tensors) = read_gguf_file(&bytes).unwrap();
    assert!(read.is_empty());
    assert_eq!(tensors.len(), 1);
    assert_eq!(tensors[0].values, 7.0f32.to_le_bytes().to_vec());
}
