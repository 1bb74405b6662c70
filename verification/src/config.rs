//! Metadata from JSON: typed metadata files and model configurations.
//!
//! JSON is parsed elsewhere. A JSON value comes here as what a reader of it
//! can ask of it: whether it is a string, a boolean, an array, and for a
//! number, whether it is one of the unsigned, of the signed and of the
//! floating-point numbers.

use crate::metadata::{EntryView, Metadata};
use crate::text::{compare_keys, Order};
use crate::types::{GGUFValue, ValueView};
use vstd::prelude::*;

verus! {

/// A JSON number: what it is as an unsigned and as a signed 64-bit number,
/// if it is one, and the bits of the double-precision float that it is, if
/// it is one.
#[derive(Debug, Clone, Copy, PartialEq, Eq)]
pub struct JsonNumber {
    pub as_u64: Option<u64>,
    pub as_i64: Option<i64>,
    pub as_f64: Option<u64>,
}

/// A JSON value.
#[derive(Debug, Clone, PartialEq, Eq)]
pub enum JsonValue {
    Null,
    Bool(bool),
    Number(JsonNumber),
    String(String),
    /// An array: each element as the string that it is, if it is one.
    Array(Vec<Option<String>>),
    /// An object; its fields are not looked at.
    Object,
}

/// A field of a JSON object.
pub type JsonField = (String, JsonValue);

/// The value of the first field named `key`.
pub open spec fn field(fields: Seq<JsonField>, key: Seq<char>) -> Option<JsonValue>
    decreases fields.len(),
{
    if fields.len() == 0 {
        None
    } else if fields[0].0@ == key {
        Some(fields[0].1)
    } else {
        field(fields.drop_first(), key)
    }
}

/// Looks a field up by its name.
pub fn get_field<'a>(fields: &'a [JsonField], key: &str) -> (found: Option<&'a JsonValue>)
    ensures
        match found {
            Some(value) => field(fields@, key@) == Some(*value),
            None => field(fields@, key@) is None,
        },
{
    let mut i: usize = 0;
    assert(fields@.skip(0) =~= fields@);
    while i < fields.len()
        invariant
            i <= fields@.len(),
            field(fields@, key@) == field(fields@.skip(i as int), key@),
        decreases fields@.len() - i,
    {
        proof {
            assert(fields@.skip(i as int)[0] == fields@[i as int]);
            assert(fields@.skip(i as int).drop_first() =~= fields@.skip(i + 1));
        }
        if compare_keys(fields[i].0.as_str(), key) == Order::Same {
            return Some(&fields[i].1);
        }
        i += 1;
    }
    None
}

/// The metadata value of a JSON value that is an unsigned number.
pub open spec fn u64_value(value: JsonValue) -> Option<ValueView> {
    match value {
        JsonValue::Number(n) => match n.as_u64 {
            Some(v) => Some(ValueView::U64(v)),
            None => None,
        },
        _ => None,
    }
}

/// The metadata value of a JSON value that is a number.
pub open spec fn f64_value(value: JsonValue) -> Option<ValueView> {
    match value {
        JsonValue::Number(n) => match n.as_f64 {
            Some(bits) => Some(ValueView::F64(bits)),
            None => None,
        },
        _ => None,
    }
}

/// The metadata value of a JSON value that is a boolean.
pub open spec fn bool_value(value: JsonValue) -> Option<ValueView> {
    match value {
        JsonValue::Bool(b) => Some(ValueView::Bool(b)),
        _ => None,
    }
}

/// The metadata value of a JSON value that is a string.
pub open spec fn string_value(value: JsonValue) -> Option<ValueView> {
    match value {
        JsonValue::String(s) => Some(ValueView::String(s@)),
        _ => None,
    }
}

/// A value and its view, or neither.
pub open spec fn same_value(made: Option<GGUFValue>, meant: Option<ValueView>) -> bool {
    match made {
        Some(value) => meant == Some(value@),
        None => meant is None,
    }
}

/// The metadata value of a JSON value that is an unsigned number.
pub fn to_u64(value: &JsonValue) -> (r: Option<GGUFValue>)
    ensures
        same_value(r, u64_value(*value)),
{
    match value {
        JsonValue::Number(n) => match n.as_u64 {
            Some(v) => Some(GGUFValue::U64(v)),
            None => None,
        },
        _ => None,
    }
}

/// The metadata value of a JSON value that is a number: the float that it
/// is.
pub fn to_f64(value: &JsonValue) -> (r: Option<GGUFValue>)
    ensures
        same_value(r, f64_value(*value)),
{
    match value {
        JsonValue::Number(n) => match n.as_f64 {
            Some(bits) => Some(GGUFValue::F64(bits)),
            None => None,
        },
        _ => None,
    }
}

/// The metadata value of a JSON value that is a boolean.
pub fn to_bool(value: &JsonValue) -> (r: Option<GGUFValue>)
    ensures
        same_value(r, bool_value(*value)),
{
    match value {
        JsonValue::Bool(b) => Some(GGUFValue::Bool(*b)),
        _ => None,
    }
}

/// The metadata value of a JSON value that is a string.
pub fn to_string(value: &JsonValue) -> (r: Option<GGUFValue>)
    ensures
        same_value(r, string_value(*value)),
{
    match value {
        JsonValue::String(s) => Some(GGUFValue::String(s.clone())),
        _ => None,
    }
}

/// The metadata value that a JSON value of a metadata file stands for: a
/// string, a boolean, or a number as the first of unsigned, signed and
/// float that it is. Other values stand for none.
pub open spec fn typed_value(value: JsonValue) -> Option<ValueView> {
    match value {
        JsonValue::String(s) => Some(ValueView::String(s@)),
        JsonValue::Bool(b) => Some(ValueView::Bool(b)),
        JsonValue::Number(n) => match n.as_u64 {
            Some(v) => Some(ValueView::U64(v)),
            None => match n.as_i64 {
                Some(v) => Some(ValueView::I64(v)),
                None => match n.as_f64 {
                    Some(bits) => Some(ValueView::F64(bits)),
                    None => None,
                },
            },
        },
        _ => None,
    }
}

/// The metadata value that a JSON value of a metadata file stands for.
pub fn to_typed(value: &JsonValue) -> (r: Option<GGUFValue>)
    ensures
        same_value(r, typed_value(*value)),
{
    match value {
        JsonValue::String(s) => Some(GGUFValue::String(s.clone())),
        JsonValue::Bool(b) => Some(GGUFValue::Bool(*b)),
        JsonValue::Number(n) => match n.as_u64 {
            Some(v) => Some(GGUFValue::U64(v)),
            None => match n.as_i64 {
                Some(v) => Some(GGUFValue::I64(v)),
                None => match n.as_f64 {
                    Some(bits) => Some(GGUFValue::F64(bits)),
                    None => None,
                },
            },
        },
        _ => None,
    }
}

/// The metadata that the fields of a metadata file spell: each field that
/// stands for a metadata value, under its name. Of two fields with one
/// name the later stands.
pub open spec fn typed_metadata(fields: Seq<JsonField>) -> Map<Seq<char>, ValueView>
    decreases fields.len(),
{
    if fields.len() == 0 {
        Map::empty()
    } else {
        let before = typed_metadata(fields.drop_last());
        match typed_value(fields.last().1) {
            Some(value) => before.insert(fields.last().0@, value),
            None => before,
        }
    }
}

/// Makes metadata of the fields of a metadata file. Fields that are
/// neither strings nor numbers nor booleans are left out.
pub fn parse_metadata(raw: &[JsonField]) -> (metadata: Metadata)
    ensures
        metadata.wf(),
        metadata@ == typed_metadata(raw@),
{
    let mut metadata = Metadata::new();
    let mut i: usize = 0;
    proof {
        assert(raw@.take(0) =~= Seq::<JsonField>::empty());
    }
    while i < raw.len()
        invariant
            i <= raw@.len(),
            metadata.wf(),
            metadata@ == typed_metadata(raw@.take(i as int)),
        decreases raw@.len() - i,
    {
        proof {
            assert(raw@.take(i + 1).drop_last() =~= raw@.take(i as int));
            assert(raw@.take(i + 1).last() == raw@[i as int]);
        }
        match to_typed(&raw[i].1) {
            Some(value) => {
                metadata.insert(raw[i].0.clone(), value);
            },
            None => {},
        }
        i += 1;
    }
    proof {
        assert(raw@.take(i as int) =~= raw@);
    }
    metadata
}

/// How a field of a model configuration is promoted to metadata.
#[derive(Debug, Clone, Copy, PartialEq, Eq, Structural)]
pub enum Promotion {
    U64,
    F64,
    Bool,
    String,
}

/// The metadata value that a promoted JSON value stands for.
pub open spec fn promoted_value(how: Promotion, value: JsonValue) -> Option<ValueView> {
    match how {
        Promotion::U64 => u64_value(value),
        Promotion::F64 => f64_value(value),
        Promotion::Bool => bool_value(value),
        Promotion::String => string_value(value),
    }
}

/// The entries so far, with the field `key` promoted where the
/// configuration has it in the form asked for.
pub open spec fn with_promoted(
    entries: Seq<EntryView>,
    config: Seq<JsonField>,
    key: Seq<char>,
    how: Promotion,
) -> Seq<EntryView> {
    match field(config, key) {
        Some(value) => match promoted_value(how, value) {
            Some(promoted) => entries.push((key, promoted)),
            None => entries,
        },
        None => entries,
    }
}

/// The views of a list of entries.
pub open spec fn entry_views(entries: Seq<(String, GGUFValue)>) -> Seq<EntryView> {
    Seq::new(entries.len(), |i: int| (entries[i].0@, entries[i].1@))
}

/// Appends the field `key` of a configuration where it has the form asked
/// for.
fn promote(out: &mut Vec<(String, GGUFValue)>, config: &[JsonField], key: &str, how: Promotion)
    ensures
        entry_views(final(out)@) == with_promoted(entry_views(old(out)@), config@, key@, how),
{
    let converted = match get_field(config, key) {
        Some(value) => match how {
            Promotion::U64 => to_u64(value),
            Promotion::F64 => to_f64(value),
            Promotion::Bool => to_bool(value),
            Promotion::String => to_string(value),
        },
        None => None,
    };
    match converted {
        Some(value) => {
            out.push((key.to_owned(), value));
            assert(entry_views(out@) =~= entry_views(old(out)@).push((key@, value@)));
        },
        None => {},
    }
}

/// The entries that a model configuration gives: the fields on the model's
/// architecture, then those on its tokenizer, then those on its
/// fine-tuning, each where the configuration has it in the right form.
pub open spec fn promoted_entries(config: Seq<JsonField>) -> Seq<EntryView> {
    let e = Seq::<EntryView>::empty();
    let e = with_promoted(e, config, "hidden_size"@, Promotion::U64);
    let e = with_promoted(e, config, "intermediate_size"@, Promotion::U64);
    let e = with_promoted(e, config, "num_attention_heads"@, Promotion::U64);
    let e = with_promoted(e, config, "num_hidden_layers"@, Promotion::U64);
    let e = with_promoted(e, config, "layer_norm_eps"@, Promotion::F64);
    let e = with_promoted(e, config, "tie_word_embeddings"@, Promotion::Bool);
    let e = with_promoted(e, config, "kv_cache"@, Promotion::Bool);
    let e = with_promoted(e, config, "rotary_dim"@, Promotion::U64);
    let e = with_promoted(e, config, "vocab_size"@, Promotion::U64);
    let e = with_promoted(e, config, "pad_token_id"@, Promotion::U64);
    let e = with_promoted(e, config, "bos_token_id"@, Promotion::U64);
    let e = with_promoted(e, config, "eos_token_id"@, Promotion::U64);
    let e = with_promoted(e, config, "unk_token"@, Promotion::String);
    let e = with_promoted(e, config, "cls_token"@, Promotion::String);
    let e = with_promoted(e, config, "sep_token"@, Promotion::String);
    let e = with_promoted(e, config, "mask_token"@, Promotion::String);
    let e = with_promoted(e, config, "add_prefix_space"@, Promotion::Bool);
    let e = with_promoted(e, config, "fine_tuned_from"@, Promotion::String);
    let e = with_promoted(e, config, "fine_tune_dataset"@, Promotion::String);
    let e = with_promoted(e, config, "training_steps"@, Promotion::U64);
    let e = with_promoted(e, config, "learning_rate"@, Promotion::F64);
    e
}

/// Promotes the fields of a model configuration to metadata entries.
pub fn convert_config_to_metadata(config: &[JsonField]) -> (out: Vec<(String, GGUFValue)>)
    ensures
        entry_views(out@) == promoted_entries(config@),
{
    let mut out: Vec<(String, GGUFValue)> = Vec::new();
    assert(entry_views(out@) =~= Seq::<EntryView>::empty());
    promote(&mut out, config, "hidden_size", Promotion::U64);
    promote(&mut out, config, "intermediate_size", Promotion::U64);
    promote(&mut out, config, "num_attention_heads", Promotion::U64);
    promote(&mut out, config, "num_hidden_layers", Promotion::U64);
    promote(&mut out, config, "layer_norm_eps", Promotion::F64);
    promote(&mut out, config, "tie_word_embeddings", Promotion::Bool);
    promote(&mut out, config, "kv_cache", Promotion::Bool);
    promote(&mut out, config, "rotary_dim", Promotion::U64);
    promote(&mut out, config, "vocab_size", Promotion::U64);
    promote(&mut out, config, "pad_token_id", Promotion::U64);
    promote(&mut out, config, "bos_token_id", Promotion::U64);
    promote(&mut out, config, "eos_token_id", Promotion::U64);
    promote(&mut out, config, "unk_token", Promotion::String);
    promote(&mut out, config, "cls_token", Promotion::String);
    promote(&mut out, config, "sep_token", Promotion::String);
    promote(&mut out, config, "mask_token", Promotion::String);
    promote(&mut out, config, "add_prefix_space", Promotion::Bool);
    promote(&mut out, config, "fine_tuned_from", Promotion::String);
    promote(&mut out, config, "fine_tune_dataset", Promotion::String);
    promote(&mut out, config, "training_steps", Promotion::U64);
    promote(&mut out, config, "learning_rate", Promotion::F64);
    out
}

/// The mapping `m` with each of `extra` put under its key where the key is
/// still free, one after the other.
pub open spec fn with_absent(m: Map<Seq<char>, ValueView>, extra: Seq<EntryView>) -> Map<
    Seq<char>,
    ValueView,
>
    decreases extra.len(),
{
    if extra.len() == 0 {
        m
    } else if m.contains_key(extra[0].0) {
        with_absent(m, extra.drop_first())
    } else {
        with_absent(m.insert(extra[0].0, extra[0].1), extra.drop_first())
    }
}

/// The mapping `m` with `value` under `key` where there is a value.
pub open spec fn with_some(
    m: Map<Seq<char>, ValueView>,
    key: Seq<char>,
    value: Option<ValueView>,
) -> Map<Seq<char>, ValueView> {
    match value {
        Some(v) => m.insert(key, v),
        None => m,
    }
}

/// The name of the first architecture of a model configuration.
pub open spec fn first_architecture(config: Seq<JsonField>) -> Option<ValueView> {
    match field(config, "architectures"@) {
        Some(JsonValue::Array(items)) => if items@.len() > 0 {
            match items@[0] {
                Some(name) => Some(ValueView::String(name@)),
                None => None,
            }
        } else {
            None
        },
        _ => None,
    }
}

/// The unsigned number in the field `key` of a model configuration.
pub open spec fn u64_field(config: Seq<JsonField>, key: Seq<char>) -> Option<ValueView> {
    match field(config, key) {
        Some(value) => u64_value(value),
        None => None,
    }
}

/// The metadata that every written model gets.
pub open spec fn core_metadata(is_quantized: bool, quant_fmt: Seq<char>) -> Map<
    Seq<char>,
    ValueView,
> {
    let m = Map::<Seq<char>, ValueView>::empty().insert(
        "gguf_version"@,
        ValueView::String("2"@),
    ).insert(
        "description"@,
        ValueView::String("Model converted from HuggingFace format"@),
    ).insert("is_quantized"@, ValueView::Bool(is_quantized));
    if is_quantized {
        m.insert("quantization_format"@, ValueView::String(quant_fmt))
    } else {
        m
    }
}

/// The default metadata of a model: the core metadata; with a model
/// configuration also its context length, embedding size and name, and
/// then each promoted field whose key is still free.
pub open spec fn default_metadata(
    config: Option<Seq<JsonField>>,
    is_quantized: bool,
    quant_fmt: Seq<char>,
) -> Map<Seq<char>, ValueView> {
    let core = core_metadata(is_quantized, quant_fmt);
    match config {
        None => core,
        Some(fields) => {
            let m = with_some(
                core,
                "context_length"@,
                u64_field(fields, "max_position_embeddings"@),
            );
            let m = with_some(m, "embedding_size"@, u64_field(fields, "hidden_size"@));
            let m = with_some(m, "name"@, first_architecture(fields));
            with_absent(m, promoted_entries(fields))
        },
    }
}

/// Puts a value under `key` where there is one.
fn insert_some(metadata: &mut Metadata, key: &str, value: Option<GGUFValue>)
    requires
        old(metadata).wf(),
    ensures
        final(metadata).wf(),
        final(metadata)@ == with_some(
            old(metadata)@,
            key@,
            match value {
                Some(v) => Some(v@),
                None => None,
            },
        ),
{
    match value {
        Some(v) => {
            metadata.insert(key.to_owned(), v);
        },
        None => {},
    }
}

/// The unsigned number in the field `key` of a configuration.
fn u64_of_field(config: &[JsonField], key: &str) -> (r: Option<GGUFValue>)
    ensures
        same_value(r, u64_field(config@, key@)),
{
    match get_field(config, key) {
        Some(value) => to_u64(value),
        None => None,
    }
}

/// The name of the first architecture of a configuration.
fn architecture_name(config: &[JsonField]) -> (r: Option<GGUFValue>)
    ensures
        same_value(r, first_architecture(config@)),
{
    match get_field(config, "architectures") {
        Some(JsonValue::Array(items)) => {
            if items.len() > 0 {
                match &items[0] {
                    Some(name) => Some(GGUFValue::String(name.clone())),
                    None => None,
                }
            } else {
                None
            }
        },
        _ => None,
    }
}

/// Builds the default metadata of a model, from its configuration where
/// there is one.
pub fn build_default_metadata(
    config: Option<&[JsonField]>,
    is_quantized: bool,
    quant_fmt: &str,
) -> (metadata: Metadata)
    ensures
        metadata.wf(),
        metadata@ == default_metadata(
            match config {
                Some(fields) => Some(fields@),
                None => None,
            },
            is_quantized,
            quant_fmt@,
        ),
{
    let mut metadata = Metadata::new();
    metadata.insert("gguf_version".to_owned(), GGUFValue::String("2".to_owned()));
    metadata.insert(
        "description".to_owned(),
        GGUFValue::String("Model converted from HuggingFace format".to_owned()),
    );
    metadata.insert("is_quantized".to_owned(), GGUFValue::Bool(is_quantized));
    if is_quantized {
        metadata.insert("quantization_format".to_owned(), GGUFValue::String(quant_fmt.to_owned()));
    }
    match config {
        None => {},
        Some(fields) => {
            insert_some(
                &mut metadata,
                "context_length",
                u64_of_field(fields, "max_position_embeddings"),
            );
            insert_some(&mut metadata, "embedding_size", u64_of_field(fields, "hidden_size"));
            insert_some(&mut metadata, "name", architecture_name(fields));
            let extra = convert_config_to_metadata(fields);
            let ghost start = metadata@;
            let ghost views = entry_views(extra@);
            let mut i: usize = 0;
            assert(views.skip(0) =~= views);
            while i < extra.len()
                invariant
                    i <= extra@.len(),
                    metadata.wf(),
                    views == entry_views(extra@),
                    with_absent(start, views) == with_absent(metadata@, views.skip(i as int)),
                decreases extra@.len() - i,
            {
                proof {
                    assert(views.skip(i as int)[0] == views[i as int]);
                    assert(views.skip(i as int).drop_first() =~= views.skip(i + 1));
                }
                if !metadata.contains_key(extra[i].0.as_str()) {
                    metadata.insert(extra[i].0.clone(), clone_value(&extra[i].1));
                }
                i += 1;
            }
        },
    }
    metadata
}

/// A copy of a value.
pub fn clone_value(value: &GGUFValue) -> (copy: GGUFValue)
    ensures
        copy@ == value@,
{
    match value {
        GGUFValue::String(s) => GGUFValue::String(s.clone()),
        GGUFValue::Bool(v) => GGUFValue::Bool(*v),
        GGUFValue::U8(v) => GGUFValue::U8(*v),
        GGUFValue::I8(v) => GGUFValue::I8(*v),
        GGUFValue::U16(v) => GGUFValue::U16(*v),
        GGUFValue::I16(v) => GGUFValue::I16(*v),
        GGUFValue::U32(v) => GGUFValue::U32(*v),
        GGUFValue::I32(v) => GGUFValue::I32(*v),
        GGUFValue::U64(v) => GGUFValue::U64(*v),
        GGUFValue::I64(v) => GGUFValue::I64(*v),
        GGUFValue::F32(v) => GGUFValue::F32(*v),
        GGUFValue::F64(v) => GGUFValue::F64(*v),
        GGUFValue::StringArray(items) => {
            let mut copy: Vec<String> = Vec::new();
            let mut i: usize = 0;
            while i < items.len()
                invariant
                    i <= items@.len(),
                    copy@.len() == i,
                    forall|k: int| 0 <= k < i ==> copy@[k]@ == items@[k]@,
                decreases items@.len() - i,
            {
                copy.push(items[i].clone());
                i += 1;
            }
            assert(crate::types::texts(copy@) =~= crate::types::texts(items@));
            GGUFValue::StringArray(copy)
        },
        GGUFValue::Binary(data) => {
            let copy = data.clone();
            assert(copy@ =~= data@);
            GGUFValue::Binary(copy)
        },
        GGUFValue::Unknown(code) => GGUFValue::Unknown(*code),
    }
}

} // verus!
