//! What is written can be read again.

use crate::le::{
    lemma_u16_le_inverse, lemma_u32_le_inverse, lemma_u64_le_inverse, u16_le, u32_le, u64_le,
};
use crate::metadata::{entries_map, lemma_ascending_entries_unique, EntryView, Metadata};
use crate::reader::{
    blob_at, dims_at, entries_at, header_at, headers_at, parse_container, payload_at, payload_end,
    payload_fits, string_at, strings_at, u16_at, u32_at, u64_at, u8_at, value_at,
    with_payloads, ReadError,
};
use crate::text::{lemma_text_round_trip, text_bytes};
use crate::types::{GGUFValueType, TensorView, ValueView};
use crate::wire::{
    container_wire, count32, count64, data_offset, data_offsets, dims_wire,
    directory_wire, entries_wire, entry_wire, header_wire, holds_at,
    lemma_holds_split,
    lemma_dims_wire_front, lemma_directory_len, lemma_directory_wire_front,
    lemma_entries_wire_front, lemma_payloads_none, lemma_payloads_split, lemma_preamble_len,
    lemma_strings_wire_front, magic, payload_start, payloads_wire, preamble_wire, string_wire,
    strings_wire, value_wire, VERSION,
};
use vstd::prelude::*;

verus! {

/// Whether the length of a string fits its length field.
pub open spec fn text_fits(text: Seq<char>) -> bool {
    text_bytes(text).len() <= u64::MAX
}

/// Whether a value can be written and read again: it is of a kind of the
/// table, and each of its lengths fits its field.
pub open spec fn value_fits(value: ValueView) -> bool {
    match value {
        ValueView::String(text) => text_fits(text),
        ValueView::StringArray(items) => items.len() <= u64::MAX && forall|i: int|
            0 <= i < items.len() ==> text_fits(#[trigger] items[i]),
        ValueView::Binary(data) => data.len() <= u64::MAX,
        ValueView::Unknown(_) => false,
        _ => true,
    }
}

/// Whether a tensor's directory entry can be written and read again.
pub open spec fn tensor_fits(tensor: TensorView) -> bool {
    text_fits(tensor.name) && tensor.dims.len() <= u32::MAX
}

/// Whether a container can be written and read again: every value is of a
/// kind of the table, and every count, length and offset fits its field.
pub open spec fn fits(entries: Seq<EntryView>, tensors: Seq<TensorView>) -> bool {
    &&& entries.len() <= u64::MAX
    &&& tensors.len() <= u64::MAX
    &&& forall|i: int|
        0 <= i < entries.len() ==> text_fits((#[trigger] entries[i]).0) && value_fits(entries[i].1)
    &&& forall|i: int| 0 <= i < tensors.len() ==> tensor_fits(#[trigger] tensors[i])
    &&& container_wire(entries, tensors).len() <= u64::MAX
}

/// The tensors as a reader finds them: each with the offset at which its
/// payload was placed.
pub open spec fn placed(entries: Seq<EntryView>, tensors: Seq<TensorView>) -> Seq<TensorView> {
    Seq::new(
        tensors.len(),
        |i: int|
            TensorView {
                name: tensors[i].name,
                type_id: tensors[i].type_id,
                dims: tensors[i].dims,
                offset: count64(data_offset(entries, tensors, i)),
                values: tensors[i].values,
            },
    )
}

/// A byte that stands at `pos` is read there.
proof fn lemma_u8_at(bytes: Seq<u8>, pos: int, v: u8)
    requires
        holds_at(bytes, pos, seq![v]),
    ensures
        u8_at(bytes, pos) == Some((v, pos + 1)),
{
    assert(bytes.subrange(pos, pos + 1)[0] == v);
}

/// A 16-bit number that stands at `pos` is read there.
proof fn lemma_u16_at(bytes: Seq<u8>, pos: int, v: u16)
    requires
        holds_at(bytes, pos, u16_le(v)),
    ensures
        u16_at(bytes, pos) == Some((v, pos + 2)),
{
    lemma_u16_le_inverse(v);
}

/// A 32-bit number that stands at `pos` is read there.
proof fn lemma_u32_at(bytes: Seq<u8>, pos: int, v: u32)
    requires
        holds_at(bytes, pos, u32_le(v)),
    ensures
        u32_at(bytes, pos) == Some((v, pos + 4)),
{
    lemma_u32_le_inverse(v);
}

/// A 64-bit number that stands at `pos` is read there.
proof fn lemma_u64_at(bytes: Seq<u8>, pos: int, v: u64)
    requires
        holds_at(bytes, pos, u64_le(v)),
    ensures
        u64_at(bytes, pos) == Some((v, pos + 8)),
{
    lemma_u64_le_inverse(v);
}

/// Bytes that stand behind their length at `pos` are read there.
proof fn lemma_blob_at(bytes: Seq<u8>, pos: int, data: Seq<u8>)
    requires
        data.len() <= u64::MAX,
        holds_at(bytes, pos, u64_le(count64(data.len())) + data),
    ensures
        blob_at(bytes, pos) == Some((data, pos + 8 + data.len())),
{
    let len = count64(data.len());
    lemma_u64_le_inverse(len);
    lemma_holds_split(bytes, pos, u64_le(len), data);
    lemma_u64_at(bytes, pos, len);
}

/// A string that stands at `pos` is read there.
proof fn lemma_string_at(bytes: Seq<u8>, pos: int, text: Seq<char>)
    requires
        text_fits(text),
        holds_at(bytes, pos, string_wire(text)),
    ensures
        string_at(bytes, pos) == Some((text, pos + string_wire(text).len())),
        string_wire(text).len() == 8 + text_bytes(text).len(),
{
    lemma_u64_le_inverse(count64(text_bytes(text).len()));
    lemma_blob_at(bytes, pos, text_bytes(text));
    lemma_text_round_trip(text);
}

/// Strings that stand at `pos` are read there.
proof fn lemma_strings_at(bytes: Seq<u8>, pos: int, items: Seq<Seq<char>>)
    requires
        forall|i: int| 0 <= i < items.len() ==> text_fits(#[trigger] items[i]),
        holds_at(bytes, pos, strings_wire(items)),
    ensures
        strings_at(bytes, pos, items.len()) == Some((items, pos + strings_wire(items).len())),
    decreases items.len(),
{
    lemma_strings_wire_front(items);
    if items.len() > 0 {
        let first = items[0];
        let rest = items.drop_first();
        lemma_holds_split(bytes, pos, string_wire(first), strings_wire(rest));
        lemma_string_at(bytes, pos, first);
        assert forall|i: int| 0 <= i < rest.len() implies text_fits(#[trigger] rest[i]) by {
            assert(rest[i] == items[i + 1]);
        }
        lemma_strings_at(bytes, pos + string_wire(first).len(), rest);
        assert(seq![first] + rest =~= items);
        assert((items.len() - 1) as nat == rest.len());
    } else {
        assert(items =~= Seq::<Seq<char>>::empty());
    }
}

/// A signed number comes back from the unsigned number of the same bits.
proof fn lemma_signed_casts(a: i8, b: i16, c: i32, d: i64)
    ensures
        (a as u8) as i8 == a,
        (b as u16) as i16 == b,
        (c as u32) as i32 == c,
        (d as u64) as i64 == d,
{
    assert((a as u8) as i8 == a && (b as u16) as i16 == b) by (bit_vector);
    assert((c as u32) as i32 == c && (d as u64) as i64 == d) by (bit_vector);
}

/// A value that stands at `pos` is read there.
proof fn lemma_value_at(bytes: Seq<u8>, pos: int, value: ValueView)
    requires
        value_fits(value),
        holds_at(bytes, pos, value_wire(value)),
    ensures
        value_at(value.kind(), bytes, pos) == Some((value, pos + value_wire(value).len())),
{
    match value {
        ValueView::String(text) => {
            lemma_string_at(bytes, pos, text);
        },
        ValueView::Bool(b) => {
            lemma_u8_at(bytes, pos, if b { 1u8 } else { 0u8 });
        },
        ValueView::U8(v) => {
            lemma_u8_at(bytes, pos, v);
        },
        ValueView::I8(v) => {
            lemma_u8_at(bytes, pos, v as u8);
            lemma_signed_casts(v, 0, 0, 0);
        },
        ValueView::U16(v) => {
            lemma_u16_le_inverse(v);
            lemma_u16_at(bytes, pos, v);
        },
        ValueView::I16(v) => {
            lemma_u16_le_inverse(v as u16);
            lemma_u16_at(bytes, pos, v as u16);
            lemma_signed_casts(0, v, 0, 0);
        },
        ValueView::U32(v) => {
            lemma_u32_le_inverse(v);
            lemma_u32_at(bytes, pos, v);
        },
        ValueView::I32(v) => {
            lemma_u32_le_inverse(v as u32);
            lemma_u32_at(bytes, pos, v as u32);
            lemma_signed_casts(0, 0, v, 0);
        },
        ValueView::U64(v) => {
            lemma_u64_le_inverse(v);
            lemma_u64_at(bytes, pos, v);
        },
        ValueView::I64(v) => {
            lemma_u64_le_inverse(v as u64);
            lemma_u64_at(bytes, pos, v as u64);
            lemma_signed_casts(0, 0, 0, v);
        },
        ValueView::F32(v) => {
            lemma_u32_le_inverse(v);
            lemma_u32_at(bytes, pos, v);
        },
        ValueView::F64(v) => {
            lemma_u64_le_inverse(v);
            lemma_u64_at(bytes, pos, v);
        },
        ValueView::StringArray(items) => {
            let count = count64(items.len());
            lemma_u64_le_inverse(count);
            lemma_holds_split(bytes, pos, u64_le(count), strings_wire(items));
            lemma_u64_at(bytes, pos, count);
            lemma_strings_at(bytes, pos + 8, items);
        },
        ValueView::Binary(data) => {
            lemma_u64_le_inverse(count64(data.len()));
            lemma_blob_at(bytes, pos, data);
        },
        ValueView::Unknown(_) => {},
    }
}

/// Metadata entries that stand at `pos` are read there.
proof fn lemma_entries_at(bytes: Seq<u8>, pos: int, entries: Seq<EntryView>)
    requires
        forall|i: int|
            0 <= i < entries.len() ==> text_fits((#[trigger] entries[i]).0) && value_fits(
                entries[i].1,
            ),
        holds_at(bytes, pos, entries_wire(entries)),
    ensures
        entries_at(bytes, pos, entries.len()) == Some(
            (entries, pos + entries_wire(entries).len()),
        ),
    decreases entries.len(),
{
    lemma_entries_wire_front(entries);
    if entries.len() > 0 {
        let first = entries[0];
        let rest = entries.drop_first();
        let key = string_wire(first.0);
        let code = first.1.kind().code();
        let value = value_wire(first.1);
        assert(entry_wire(first) == key + seq![code] + value);
        lemma_holds_split(bytes, pos, entry_wire(first), entries_wire(rest));
        lemma_holds_split(bytes, pos, key + seq![code], value);
        lemma_holds_split(bytes, pos, key, seq![code]);
        lemma_string_at(bytes, pos, first.0);
        lemma_u8_at(bytes, pos + key.len(), code);
        assert(GGUFValueType::of_code(code) == first.1.kind());
        lemma_value_at(bytes, pos + key.len() + 1, first.1);
        assert forall|i: int| 0 <= i < rest.len() implies text_fits((#[trigger] rest[i]).0)
            && value_fits(rest[i].1) by {
            assert(rest[i] == entries[i + 1]);
        }
        lemma_entries_at(bytes, pos + entry_wire(first).len(), rest);
        assert(seq![first] + rest =~= entries);
        assert((entries.len() - 1) as nat == rest.len());
    } else {
        assert(entries =~= Seq::<EntryView>::empty());
    }
}

/// Axis lengths that stand at `pos` are read there.
proof fn lemma_dims_at(bytes: Seq<u8>, pos: int, dims: Seq<u64>)
    requires
        holds_at(bytes, pos, dims_wire(dims)),
    ensures
        dims_at(bytes, pos, dims.len()) == Some((dims, pos + dims_wire(dims).len())),
    decreases dims.len(),
{
    lemma_dims_wire_front(dims);
    if dims.len() > 0 {
        let rest = dims.drop_first();
        lemma_u64_le_inverse(dims[0]);
        lemma_holds_split(bytes, pos, u64_le(dims[0]), dims_wire(rest));
        lemma_u64_at(bytes, pos, dims[0]);
        lemma_dims_at(bytes, pos + 8, rest);
        assert(seq![dims[0]] + rest =~= dims);
        assert((dims.len() - 1) as nat == rest.len());
    } else {
        assert(dims =~= Seq::<u64>::empty());
    }
}

/// A tensor as its directory entry alone gives it: with the declared
/// offset and without payload.
pub open spec fn bare(tensor: TensorView, offset: u64) -> TensorView {
    TensorView {
        name: tensor.name,
        type_id: tensor.type_id,
        dims: tensor.dims,
        offset,
        values: Seq::empty(),
    }
}

/// A directory entry that stands at `pos` is read there.
proof fn lemma_header_at(bytes: Seq<u8>, pos: int, tensor: TensorView, offset: u64)
    requires
        tensor_fits(tensor),
        holds_at(bytes, pos, header_wire(tensor, offset)),
    ensures
        header_at(bytes, pos) == Some(
            (bare(tensor, offset), pos + header_wire(tensor, offset).len()),
        ),
{
    let name = string_wire(tensor.name);
    let type_id = u32_le(tensor.type_id);
    let count = u32_le(count32(tensor.dims.len()));
    let dims = dims_wire(tensor.dims);
    lemma_u32_le_inverse(tensor.type_id);
    lemma_u32_le_inverse(count32(tensor.dims.len()));
    lemma_u64_le_inverse(offset);
    assert(header_wire(tensor, offset) == name + type_id + count + dims + u64_le(offset));
    lemma_holds_split(bytes, pos, name + type_id + count + dims, u64_le(offset));
    lemma_holds_split(bytes, pos, name + type_id + count, dims);
    lemma_holds_split(bytes, pos, name + type_id, count);
    lemma_holds_split(bytes, pos, name, type_id);
    lemma_string_at(bytes, pos, tensor.name);
    lemma_u32_at(bytes, pos + name.len(), tensor.type_id);
    lemma_u32_at(bytes, pos + name.len() + 4, count32(tensor.dims.len()));
    lemma_dims_at(bytes, pos + name.len() + 8, tensor.dims);
    lemma_u64_at(bytes, pos + name.len() + 8 + dims.len(), offset);
}

/// The tensors as the directory alone gives them.
pub open spec fn bare_all(tensors: Seq<TensorView>, offsets: Seq<u64>) -> Seq<TensorView> {
    Seq::new(tensors.len(), |i: int| bare(tensors[i], offsets[i]))
}

/// A directory that stands at `pos` is read there.
proof fn lemma_headers_at(bytes: Seq<u8>, pos: int, tensors: Seq<TensorView>, offsets: Seq<u64>)
    requires
        offsets.len() == tensors.len(),
        forall|i: int| 0 <= i < tensors.len() ==> tensor_fits(#[trigger] tensors[i]),
        holds_at(bytes, pos, directory_wire(tensors, offsets)),
    ensures
        headers_at(bytes, pos, tensors.len()) == Some(
            (bare_all(tensors, offsets), pos + directory_wire(tensors, offsets).len()),
        ),
    decreases tensors.len(),
{
    lemma_directory_wire_front(tensors, offsets);
    if tensors.len() > 0 {
        let first = header_wire(tensors[0], offsets[0]);
        let rest = tensors.drop_first();
        let rest_offsets = offsets.drop_first();
        lemma_holds_split(bytes, pos, first, directory_wire(rest, rest_offsets));
        lemma_header_at(bytes, pos, tensors[0], offsets[0]);
        assert forall|i: int| 0 <= i < rest.len() implies tensor_fits(#[trigger] rest[i]) by {
            assert(rest[i] == tensors[i + 1]);
        }
        lemma_headers_at(bytes, pos + first.len(), rest, rest_offsets);
        assert(seq![bare(tensors[0], offsets[0])] + bare_all(rest, rest_offsets) =~= bare_all(
            tensors,
            offsets,
        ));
        assert((tensors.len() - 1) as nat == rest.len());
    } else {
        assert(bare_all(tensors, offsets) =~= Seq::<TensorView>::empty());
    }
}

/// Where the payloads of a written container lie: each starts where the
/// one before it ends, the first right after the directory, and the last
/// ends with the container.
pub proof fn lemma_layout(entries: Seq<EntryView>, tensors: Seq<TensorView>, i: int)
    requires
        0 <= i < tensors.len(),
    ensures
        data_offset(entries, tensors, 0) == payload_start(entries, tensors),
        data_offset(entries, tensors, i + 1) == data_offset(entries, tensors, i)
            + tensors[i].values.len(),
        data_offset(entries, tensors, tensors.len() as int) == container_wire(
            entries,
            tensors,
        ).len(),
        data_offset(entries, tensors, i + 1) <= container_wire(entries, tensors).len(),
        holds_at(
            container_wire(entries, tensors),
            data_offset(entries, tensors, i) as int,
            tensors[i].values,
        ),
{
    let offsets = data_offsets(entries, tensors);
    lemma_preamble_len(tensors.len(), entries.len());
    lemma_directory_len(tensors, offsets);
    lemma_payloads_none(tensors);
    crate::wire::lemma_payloads_push(tensors, i);
    assert(tensors.take(tensors.len() as int) =~= tensors);
    lemma_payloads_split(tensors, i);
    let head = preamble_wire(tensors.len(), entries.len()) + entries_wire(entries)
        + directory_wire(tensors, offsets);
    let before = payloads_wire(tensors.take(i));
    let after = payloads_wire(tensors.skip(i + 1));
    let whole = container_wire(entries, tensors);
    assert(whole =~= head + before + tensors[i].values + after);
    let at = data_offset(entries, tensors, i) as int;
    assert(at == head.len() + before.len());
    assert(whole.subrange(at, at + tensors[i].values.len()) =~= tensors[i].values);
}

/// A container that was written reads back as what was written: the same
/// metadata entries in the same order, and the same tensors in the same
/// order, each with the offset at which its payload was placed.
pub proof fn lemma_read_what_was_written(entries: Seq<EntryView>, tensors: Seq<TensorView>)
    requires
        fits(entries, tensors),
    ensures
        parse_container(container_wire(entries, tensors)) == Ok::<
            (Seq<EntryView>, Seq<TensorView>),
            ReadError,
        >((entries, placed(entries, tensors))),
{
    let offsets = data_offsets(entries, tensors);
    let preamble = preamble_wire(tensors.len(), entries.len());
    let metadata = entries_wire(entries);
    let directory = directory_wire(tensors, offsets);
    let payloads = payloads_wire(tensors);
    let bytes = container_wire(entries, tensors);
    assert(bytes == preamble + metadata + directory + payloads);
    lemma_preamble_len(tensors.len(), entries.len());
    lemma_u32_le_inverse(VERSION);
    lemma_u64_le_inverse(count64(tensors.len()));
    lemma_u64_le_inverse(count64(entries.len()));
    assert(holds_at(bytes, 0, preamble + metadata + directory + payloads)) by {
        assert(bytes.subrange(0, bytes.len() as int) =~= bytes);
    }
    lemma_holds_split(bytes, 0, preamble + metadata + directory, payloads);
    lemma_holds_split(bytes, 0, preamble + metadata, directory);
    lemma_holds_split(bytes, 0, preamble, metadata);
    let tensor_count = u64_le(count64(tensors.len()));
    let metadata_count = u64_le(count64(entries.len()));
    assert(preamble == magic() + u32_le(VERSION) + tensor_count + metadata_count);
    lemma_holds_split(bytes, 0, magic() + u32_le(VERSION) + tensor_count, metadata_count);
    lemma_holds_split(bytes, 0, magic() + u32_le(VERSION), tensor_count);
    lemma_holds_split(bytes, 0, magic(), u32_le(VERSION));
    lemma_u64_at(bytes, 8, count64(tensors.len()));
    lemma_u64_at(bytes, 16, count64(entries.len()));
    lemma_entries_at(bytes, 24, entries);
    lemma_headers_at(bytes, 24 + metadata.len() as int, tensors, offsets);
    lemma_directory_len(tensors, offsets);
    let headers = bare_all(tensors, offsets);
    assert forall|i: int| 0 <= i < headers.len() implies payload_fits(bytes, headers, i)
        && payload_at(bytes, headers, i) == tensors[i].values by {
        lemma_layout(entries, tensors, i);
        if i + 1 < tensors.len() {
            lemma_layout(entries, tensors, i + 1);
        }
        let start = data_offset(entries, tensors, i);
        let end = data_offset(entries, tensors, i + 1);
        assert(headers[i].offset == start);
        assert(payload_end(bytes, headers, i) == end);
        if start == end {
            assert(tensors[i].values =~= Seq::<u8>::empty());
        }
    }
    assert(with_payloads(bytes, headers) =~= placed(entries, tensors));
}

/// Metadata that was written reads back as the same metadata: a reader
/// that makes a mapping in key order of the entries of the written
/// container holds the same entries as the writer.
pub proof fn lemma_metadata_round_trip(written: Metadata, read: Metadata, tensors: Seq<TensorView>)
    requires
        written.wf(),
        read.wf(),
        fits(written.entries(), tensors),
        parse_container(container_wire(written.entries(), tensors)) matches Ok((entries, _))
            && read@ == entries_map(entries),
    ensures
        read@ == written@,
        read.entries() == written.entries(),
{
    lemma_read_what_was_written(written.entries(), tensors);
    written.lemma_view();
    read.lemma_view();
    lemma_ascending_entries_unique(read.entries(), written.entries());
}

/// In a written container the payloads follow the directory in the order
/// of the tensors and without gaps: the offset that a reader finds for the
/// first tensor is the end of the directory, that of every other tensor
/// the end of the payload before it, and the last payload ends with the
/// container.
pub proof fn lemma_written_layout(entries: Seq<EntryView>, tensors: Seq<TensorView>, i: int)
    requires
        fits(entries, tensors),
        0 <= i < tensors.len(),
    ensures
        placed(entries, tensors)[0].offset == payload_start(entries, tensors),
        placed(entries, tensors)[i].offset >= payload_start(entries, tensors),
        i + 1 < tensors.len() ==> placed(entries, tensors)[i + 1].offset == placed(
            entries,
            tensors,
        )[i].offset + tensors[i].values.len(),
        i + 1 == tensors.len() ==> placed(entries, tensors)[i].offset + tensors[i].values.len()
            == container_wire(entries, tensors).len(),
{
    lemma_layout(entries, tensors, 0);
    lemma_layout(entries, tensors, i);
    if i + 1 < tensors.len() {
        lemma_layout(entries, tensors, i + 1);
    }
    lemma_offsets_ascend(entries, tensors, i);
}

/// The payload of a tensor starts no earlier than the payloads begin.
proof fn lemma_offsets_ascend(entries: Seq<EntryView>, tensors: Seq<TensorView>, i: int)
    requires
        0 <= i < tensors.len(),
    ensures
        data_offset(entries, tensors, i) >= payload_start(entries, tensors),
        data_offset(entries, tensors, i) <= container_wire(entries, tensors).len(),
{
    lemma_layout(entries, tensors, i);
}

} // verus!
