use gguf_core::types::{GGUFValue, GGUFValueType};

#[test]
fn every_code_names_its_kind() {
    let table = [
        (1u8, GGUFValueType::String),
        (2, GGUFValueType::Array),
        (3, GGUFValueType::U8),
        (4, GGUFValueType::I8),
        (5, GGUFValueType::U16),
        (6, GGUFValueType::I16),
        (7, GGUFValueType::U32),
        (8, GGUFValueType::I32),
        (9, GGUFValueType::U64),
        (10, GGUFValueType::Bool),
        (11, GGUFValueType::I64),
        (12, GGUFValueType::F64),
        (13, GGUFValueType::F32),
        (14, GGUFValueType::StringArray),
        (15, GGUFValueType::Binary),
    ];
    for (code, kind) in table {
        assert_eq!(GGUFValueType::from_u8(code), kind);
        assert_eq!(kind.to_u8(), code);
    }
}

#[test]
fn codes_outside_the_table_are_unknown() {
    assert_eq!(GGUFValueType::from_u8(0), GGUFValueType::Unknown(0));
    assert_eq!(GGUFValueType::from_u8(16), GGUFValueType::Unknown(16));
    assert_eq!(GGUFValueType::from_u8(255), GGUFValueType::Unknown(255));
    assert_eq!(GGUFValueType::Unknown(3).to_u8(), 3);
}

#[test]
fn codes_come_back_from_their_kinds() {
    for code in 0..=255u8 {
        assert_eq!(GGUFValueType::from_u8(code).to_u8(), code);
    }
}

#[test]
fn a_value_knows_its_kind() {
    assert_eq!(GGUFValue::F32(0).value_type(), GGUFValueType::F32);
    assert_eq!(GGUFValue::Binary(vec![]).value_type(), GGUFValueType::Binary);
    assert_eq!(GGUFValue::Unknown(9).value_type(), GGUFValueType::Unknown(9));
}
