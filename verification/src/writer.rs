//! Writing a container.

use crate::codec::{encode_f32, f32_encoded};
use crate::config::{parse_metadata, typed_metadata, JsonField};
use crate::le::{
    patch_u64, put_bytes, put_i16, put_i32, put_i64, put_u16, put_u32, put_u64, u64_le,
};
use crate::metadata::{entries_map, keys_ascend, EntryView, Metadata};
use crate::types::{tensor_views, texts, GGUFTensor, GGUFValue, TensorDef, TensorView, TYPE_F32};
use crate::wire::{
    container_wire, count64, data_offset, data_offsets, dims_wire, directory_len, directory_wire,
    entries_wire, entry_wire, header_front, header_wire, lemma_directory_len,
    lemma_directory_none, lemma_directory_patch, lemma_directory_push, lemma_flatten_take,
    lemma_payloads_none, lemma_payloads_push, lemma_preamble_len, payloads_wire, preamble_wire,
    string_wire, strings_wire, value_wire, VERSION,
};
use vstd::prelude::*;

verus! {

/// Appends a string: its length in bytes, then its bytes.
pub fn put_string(out: &mut Vec<u8>, text: &str)
    ensures
        final(out)@ == old(out)@ + string_wire(text@),
{
    let bytes = text.as_bytes();
    put_u64(out, bytes.len() as u64);
    put_bytes(out, bytes);
    assert(out@ =~= old(out)@ + string_wire(text@));
}

/// Appends the strings of a list.
fn put_strings(out: &mut Vec<u8>, items: &Vec<String>)
    ensures
        final(out)@ == old(out)@ + strings_wire(texts(items@)),
{
    let ghost parts = Seq::new(items@.len(), |i: int| string_wire(texts(items@)[i]));
    proof {
        assert(parts.take(0) =~= Seq::<Seq<u8>>::empty());
    }
    let mut i: usize = 0;
    while i < items.len()
        invariant
            i <= items@.len(),
            parts == Seq::new(items@.len(), |i: int| string_wire(texts(items@)[i])),
            out@ == old(out)@ + parts.take(i as int).flatten(),
        decreases items@.len() - i,
    {
        proof {
            lemma_flatten_take(parts, i as int);
        }
        put_string(out, items[i].as_str());
        assert(out@ =~= old(out)@ + parts.take(i + 1).flatten());
        i += 1;
    }
    proof {
        reveal(strings_wire);
        assert(parts.take(i as int) =~= parts);
        assert(texts(items@).len() == items@.len());
    }
}

/// Appends the kind byte of a value and what follows it.
pub fn put_value(out: &mut Vec<u8>, value: &GGUFValue)
    ensures
        final(out)@ == old(out)@ + seq![value@.kind().code()] + value_wire(value@),
{
    out.push(value.value_type().to_u8());
    match value {
        GGUFValue::String(text) => {
            put_string(out, text.as_str());
        },
        GGUFValue::Bool(b) => {
            out.push(if *b { 1 } else { 0 });
        },
        GGUFValue::U8(v) => {
            out.push(*v);
        },
        GGUFValue::I8(v) => {
            out.push(#[verifier::truncate] (*v as u8));
        },
        GGUFValue::U16(v) => {
            put_u16(out, *v);
        },
        GGUFValue::I16(v) => {
            put_i16(out, *v);
        },
        GGUFValue::U32(v) => {
            put_u32(out, *v);
        },
        GGUFValue::I32(v) => {
            put_i32(out, *v);
        },
        GGUFValue::U64(v) => {
            put_u64(out, *v);
        },
        GGUFValue::I64(v) => {
            put_i64(out, *v);
        },
        GGUFValue::F32(bits) => {
            put_u32(out, *bits);
        },
        GGUFValue::F64(bits) => {
            put_u64(out, *bits);
        },
        GGUFValue::StringArray(items) => {
            put_u64(out, items.len() as u64);
            put_strings(out, items);
        },
        GGUFValue::Binary(data) => {
            put_u64(out, data.len() as u64);
            put_bytes(out, data.as_slice());
        },
        GGUFValue::Unknown(_) => {},
    }
    assert(out@ =~= old(out)@ + seq![value@.kind().code()] + value_wire(value@));
}

/// Appends the metadata entries in the order in which they stand.
fn put_entries(out: &mut Vec<u8>, metadata: &Metadata)
    ensures
        final(out)@ == old(out)@ + entries_wire(metadata.entries()),
{
    let ghost entries = metadata.entries();
    let ghost parts = Seq::new(entries.len(), |i: int| entry_wire(entries[i]));
    proof {
        assert(parts.take(0) =~= Seq::<Seq<u8>>::empty());
    }
    let n = metadata.len();
    let mut i: usize = 0;
    while i < n
        invariant
            i <= n,
            n == entries.len(),
            entries == metadata.entries(),
            parts == Seq::new(entries.len(), |i: int| entry_wire(entries[i])),
            out@ == old(out)@ + parts.take(i as int).flatten(),
        decreases n - i,
    {
        proof {
            lemma_flatten_take(parts, i as int);
        }
        put_string(out, metadata.key_at(i).as_str());
        put_value(out, metadata.value_at(i));
        assert(out@ =~= old(out)@ + parts.take(i + 1).flatten());
        i += 1;
    }
    proof {
        reveal(entries_wire);
        assert(parts.take(i as int) =~= parts);
    }
}

/// Appends the axis lengths of a tensor.
fn put_dims(out: &mut Vec<u8>, dims: &Vec<u64>)
    ensures
        final(out)@ == old(out)@ + dims_wire(dims@),
{
    let ghost parts = Seq::new(dims@.len(), |i: int| u64_le(dims@[i]));
    proof {
        assert(parts.take(0) =~= Seq::<Seq<u8>>::empty());
    }
    let mut i: usize = 0;
    while i < dims.len()
        invariant
            i <= dims@.len(),
            parts == Seq::new(dims@.len(), |i: int| u64_le(dims@[i])),
            out@ == old(out)@ + parts.take(i as int).flatten(),
        decreases dims@.len() - i,
    {
        proof {
            lemma_flatten_take(parts, i as int);
        }
        put_u64(out, dims[i]);
        assert(out@ =~= old(out)@ + parts.take(i + 1).flatten());
        i += 1;
    }
    proof {
        reveal(dims_wire);
        assert(parts.take(i as int) =~= parts);
    }
}

/// Appends the directory entry of `tensor` with a zero in the offset field,
/// and returns where that field lies.
fn put_header(out: &mut Vec<u8>, tensor: &GGUFTensor) -> (field: usize)
    ensures
        final(out)@ == old(out)@ + header_wire(tensor@, 0),
        field == old(out)@.len() + header_front(tensor@).len(),
{
    put_string(out, tensor.name.as_str());
    put_u32(out, tensor.type_id);
    put_u32(out, (tensor.dims.len() as u64 % 0x1_0000_0000u64) as u32);
    put_dims(out, &tensor.dims);
    let field = out.len();
    assert(out@ =~= old(out)@ + header_front(tensor@));
    put_u64(out, 0);
    assert(out@ =~= old(out)@ + header_wire(tensor@, 0));
    field
}

/// The offsets in the directory while the payloads are written: those of
/// the first `done` tensors are in place, the others are still zero.
spec fn offsets_so_far(entries: Seq<EntryView>, tensors: Seq<TensorView>, done: int) -> Seq<
    u64,
> {
    Seq::new(
        tensors.len(),
        |i: int| if i < done { count64(data_offset(entries, tensors, i)) } else { 0u64 },
    )
}

/// Writes the container that holds `metadata` and `tensors`: preamble,
/// metadata entries in their order, directory, payloads in the order of the
/// tensors. It declares version 2. Each directory entry is first written
/// with a zero offset and patched once its payload has been placed; the
/// `offset` fields of `tensors` are not read.
pub fn write_gguf_file(metadata: &Metadata, tensors: &[GGUFTensor]) -> (out: Vec<u8>)
    ensures
        out@ == container_wire(metadata.entries(), tensor_views(tensors@)),
{
    let ghost entries = metadata.entries();
    let ghost views = tensor_views(tensors@);
    let ghost zeros = Seq::new(views.len(), |i: int| 0u64);
    let mut out: Vec<u8> = Vec::new();
    out.push(0x47);
    out.push(0x47);
    out.push(0x55);
    out.push(0x46);
    put_u32(&mut out, VERSION);
    put_u64(&mut out, tensors.len() as u64);
    put_u64(&mut out, metadata.len() as u64);
    assert(out@ =~= preamble_wire(views.len(), entries.len()));
    proof {
        lemma_preamble_len(views.len(), entries.len());
    }
    put_entries(&mut out, metadata);
    let ghost base = out@;
    assert(base.len() == 24 + entries_wire(entries).len());

    let mut fields: Vec<usize> = Vec::new();
    let mut i: usize = 0;
    proof {
        lemma_directory_none(views, zeros);
        assert(out@ =~= base + directory_wire(views.take(0), zeros.take(0)));
    }
    while i < tensors.len()
        invariant
            i <= tensors@.len(),
            views == tensor_views(tensors@),
            zeros.len() == views.len(),
            forall|j: int| 0 <= j < zeros.len() ==> zeros[j] == 0,
            out@ == base + directory_wire(views.take(i as int), zeros.take(i as int)),
            fields@.len() == i,
            forall|j: int|
                0 <= j < i ==> #[trigger] fields@[j] == base.len() + directory_len(views.take(j))
                    + header_front(views[j]).len(),
        decreases tensors@.len() - i,
    {
        proof {
            lemma_directory_push(views, zeros, i as int);
            lemma_directory_len(views.take(i as int), zeros.take(i as int));
        }
        let field = put_header(&mut out, &tensors[i]);
        fields.push(field);
        assert(out@ =~= base + directory_wire(views.take(i + 1), zeros.take(i + 1)));
        i += 1;
    }
    proof {
        assert(views.take(i as int) =~= views);
        assert(zeros.take(i as int) =~= zeros);
        assert(zeros =~= offsets_so_far(entries, views, 0));
        lemma_directory_len(views, zeros);
        lemma_payloads_none(views);
    }

    let mut i: usize = 0;
    while i < tensors.len()
        invariant
            i <= tensors@.len(),
            views == tensor_views(tensors@),
            entries == metadata.entries(),
            base.len() == 24 + entries_wire(entries).len(),
            out@ == base + directory_wire(views, offsets_so_far(entries, views, i as int))
                + payloads_wire(views.take(i as int)),
            fields@.len() == tensors@.len(),
            forall|j: int|
                0 <= j < fields@.len() ==> #[trigger] fields@[j] == base.len() + directory_len(
                    views.take(j),
                ) + header_front(views[j]).len(),
        decreases tensors@.len() - i,
    {
        let ghost offsets = offsets_so_far(entries, views, i as int);
        let ghost directory = directory_wire(views, offsets);
        let ghost placed = payloads_wire(views.take(i as int));
        proof {
            lemma_directory_len(views, offsets);
            lemma_directory_patch(
                views,
                offsets,
                i as int,
                count64(data_offset(entries, views, i as int)),
            );
            lemma_payloads_push(views, i as int);
        }
        let data_offset = out.len() as u64;
        assert(data_offset == count64(crate::wire::data_offset(entries, views, i as int)));
        put_bytes(&mut out, tensors[i].values.as_slice());
        let ghost grown = placed + views[i as int].values;
        assert(out@ =~= base + directory + grown);
        let at = fields[i];
        patch_u64(&mut out, at, data_offset);
        proof {
            let rel = at - base.len();
            let next = offsets.update(i as int, data_offset);
            assert(next =~= offsets_so_far(entries, views, i + 1));
            let patched = directory.subrange(0, rel) + u64_le(data_offset) + directory.subrange(
                rel + 8,
                directory.len() as int,
            );
            assert(out@ =~= base + patched + grown);
        }
        i += 1;
    }
    proof {
        assert(views.take(i as int) =~= views);
        assert(offsets_so_far(entries, views, i as int) =~= data_offsets(entries, views));
    }
    out
}

/// The tensor that a definition stands for: its values as a raw payload,
/// and no offset yet.
pub open spec fn tensor_of_def(def: TensorDef) -> TensorView {
    TensorView {
        name: def.name@,
        type_id: def.type_id,
        dims: def.dims@,
        offset: 0,
        values: f32_encoded(def.values@),
    }
}

/// The tensors that a list of definitions stands for.
pub open spec fn tensors_of_defs(defs: Seq<TensorDef>) -> Seq<TensorView> {
    Seq::new(defs.len(), |i: int| tensor_of_def(defs[i]))
}

/// Makes tensors of definitions: the values of each become its payload.
pub fn load_tensors_from_defs(defs: &[TensorDef]) -> (tensors: Vec<GGUFTensor>)
    ensures
        tensor_views(tensors@) == tensors_of_defs(defs@),
{
    let mut tensors: Vec<GGUFTensor> = Vec::new();
    let mut i: usize = 0;
    while i < defs.len()
        invariant
            i <= defs@.len(),
            tensors@.len() == i,
            forall|k: int| 0 <= k < i ==> (#[trigger] tensors@[k])@ == tensor_of_def(defs@[k]),
        decreases defs@.len() - i,
    {
        let def = &defs[i];
        let dims = def.dims.clone();
        tensors.push(
            GGUFTensor {
                name: def.name.clone(),
                type_id: def.type_id,
                dims,
                offset: 0,
                values: encode_f32(def.values.as_slice()),
            },
        );
        i += 1;
    }
    assert(tensor_views(tensors@) =~= tensors_of_defs(defs@));
    tensors
}

/// The two tensors that are written where none are given: the floats 1, 2,
/// 3 on one axis, and the floats 4, 5, 6, 7 on two axes of length 2.
pub open spec fn dummy_tensors() -> Seq<TensorView> {
    seq![
        TensorView {
            name: "dummy_tensor_1"@,
            type_id: TYPE_F32,
            dims: seq![3u64],
            offset: 0,
            values: f32_encoded(seq![0x3f80_0000u32, 0x4000_0000u32, 0x4040_0000u32]),
        },
        TensorView {
            name: "dummy_tensor_2"@,
            type_id: TYPE_F32,
            dims: seq![2u64, 2u64],
            offset: 0,
            values: f32_encoded(
                seq![0x4080_0000u32, 0x40a0_0000u32, 0x40c0_0000u32, 0x40e0_0000u32],
            ),
        },
    ]
}

/// The definitions of the two tensors that are written where none are
/// given.
pub fn dummy_defs() -> (defs: Vec<TensorDef>)
    ensures
        tensors_of_defs(defs@) == dummy_tensors(),
{
    let mut first_dims: Vec<u64> = Vec::new();
    first_dims.push(3);
    let mut first_values: Vec<u32> = Vec::new();
    first_values.push(0x3f80_0000);
    first_values.push(0x4000_0000);
    first_values.push(0x4040_0000);
    let mut second_dims: Vec<u64> = Vec::new();
    second_dims.push(2);
    second_dims.push(2);
    let mut second_values: Vec<u32> = Vec::new();
    second_values.push(0x4080_0000);
    second_values.push(0x40a0_0000);
    second_values.push(0x40c0_0000);
    second_values.push(0x40e0_0000);
    let mut defs: Vec<TensorDef> = Vec::new();
    defs.push(
        TensorDef {
            name: "dummy_tensor_1".to_owned(),
            type_id: TYPE_F32,
            dims: first_dims,
            values: first_values,
        },
    );
    defs.push(
        TensorDef {
            name: "dummy_tensor_2".to_owned(),
            type_id: TYPE_F32,
            dims: second_dims,
            values: second_values,
        },
    );
    assert(defs@[0].dims@ =~= seq![3u64]);
    assert(defs@[1].dims@ =~= seq![2u64, 2u64]);
    assert(defs@[0].values@ =~= seq![0x3f80_0000u32, 0x4000_0000u32, 0x4040_0000u32]);
    assert(defs@[1].values@ =~= seq![
        0x4080_0000u32,
        0x40a0_0000u32,
        0x40c0_0000u32,
        0x40e0_0000u32,
    ]);
    assert(tensors_of_defs(defs@) =~= dummy_tensors());
    defs
}

/// The tensors that are written: those of the definitions, or the two
/// dummy tensors where no definitions are given.
pub open spec fn given_or_dummy(tensors: Option<&[TensorDef]>) -> Seq<TensorView> {
    match tensors {
        Some(defs) => tensors_of_defs(defs@),
        None => dummy_tensors(),
    }
}

/// Writes a container from the fields of a metadata file and from tensor
/// definitions; where no definitions are given, two dummy tensors are
/// written. The metadata stands in the order of its keys.
pub fn write_gguf_with_tensor(metadata: &[JsonField], tensors: Option<&[TensorDef]>) -> (out: Vec<
    u8,
>)
    ensures
        exists|entries: Seq<EntryView>|
            #[trigger] keys_ascend(entries) && entries_map(entries) == typed_metadata(metadata@)
                && out@ == container_wire(entries, given_or_dummy(tensors)),
{
    let parsed = parse_metadata(metadata);
    proof {
        parsed.lemma_view();
    }
    let loaded = match tensors {
        Some(defs) => load_tensors_from_defs(defs),
        None => load_tensors_from_defs(dummy_defs().as_slice()),
    };
    let out = write_gguf_file(&parsed, loaded.as_slice());
    assert(keys_ascend(parsed.entries()) && out@ == container_wire(
        parsed.entries(),
        given_or_dummy(tensors),
    ));
    out
}

} // verus!
