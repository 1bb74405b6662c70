//! The container's layout, byte for byte.
//!
//! A container is a preamble (magic, version, tensor count, metadata
//! count), the metadata entries, the tensor directory and the payloads, in
//! that order and without padding. All numbers are little-endian.

use crate::le::{lemma_u32_le_inverse, lemma_u64_le_inverse, u16_le, u32_le, u64_le};
use crate::metadata::EntryView;
use crate::text::text_bytes;
use crate::types::{TensorView, ValueView};
use vstd::prelude::*;
use vstd::seq_lib::lemma_flatten_concat;

verus! {

/// The version that a written container declares.
pub const VERSION: u32 = 2;

/// The four bytes that open a container: `GGUF`.
pub open spec fn magic() -> Seq<u8> {
    seq![0x47u8, 0x47u8, 0x55u8, 0x46u8]
}

/// The length of the preamble.
pub open spec fn preamble_len() -> nat {
    24
}

/// A count as the 64-bit field that holds it.
pub open spec fn count64(n: nat) -> u64 {
    (n % 0x1_0000_0000_0000_0000) as u64
}

/// A count as the 32-bit field that holds it.
pub open spec fn count32(n: nat) -> u32 {
    (n % 0x1_0000_0000) as u32
}

/// A string on the wire: the length of its UTF-8 bytes, then the bytes.
pub open spec fn string_wire(text: Seq<char>) -> Seq<u8> {
    u64_le(count64(text_bytes(text).len())) + text_bytes(text)
}

/// The strings of a list on the wire, one after the other.
#[verifier::opaque]
pub open spec fn strings_wire(items: Seq<Seq<char>>) -> Seq<u8> {
    Seq::new(items.len(), |i: int| string_wire(items[i])).flatten()
}

/// What follows the kind byte of a value.
pub open spec fn value_wire(value: ValueView) -> Seq<u8> {
    match value {
        ValueView::String(text) => string_wire(text),
        ValueView::Bool(b) => seq![if b { 1u8 } else { 0u8 }],
        ValueView::U8(v) => seq![v],
        ValueView::I8(v) => seq![v as u8],
        ValueView::U16(v) => u16_le(v),
        ValueView::I16(v) => u16_le(v as u16),
        ValueView::U32(v) => u32_le(v),
        ValueView::I32(v) => u32_le(v as u32),
        ValueView::U64(v) => u64_le(v),
        ValueView::I64(v) => u64_le(v as u64),
        ValueView::F32(bits) => u32_le(bits),
        ValueView::F64(bits) => u64_le(bits),
        ValueView::StringArray(items) => u64_le(count64(items.len())) + strings_wire(items),
        ValueView::Binary(data) => u64_le(count64(data.len())) + data,
        ValueView::Unknown(_) => Seq::empty(),
    }
}

/// A metadata entry on the wire: key, kind byte, value.
pub open spec fn entry_wire(entry: EntryView) -> Seq<u8> {
    string_wire(entry.0) + seq![entry.1.kind().code()] + value_wire(entry.1)
}

/// The metadata entries on the wire, in the order of the list.
#[verifier::opaque]
pub open spec fn entries_wire(entries: Seq<EntryView>) -> Seq<u8> {
    Seq::new(entries.len(), |i: int| entry_wire(entries[i])).flatten()
}

/// The axis lengths of a tensor on the wire.
#[verifier::opaque]
pub open spec fn dims_wire(dims: Seq<u64>) -> Seq<u8> {
    Seq::new(dims.len(), |i: int| u64_le(dims[i])).flatten()
}

/// A directory entry up to its offset field: name, type code, number of
/// axes, axis lengths.
pub open spec fn header_front(tensor: TensorView) -> Seq<u8> {
    string_wire(tensor.name) + u32_le(tensor.type_id) + u32_le(count32(tensor.dims.len()))
        + dims_wire(tensor.dims)
}

/// A directory entry that declares the payload at `offset`.
pub open spec fn header_wire(tensor: TensorView, offset: u64) -> Seq<u8> {
    header_front(tensor) + u64_le(offset)
}

/// The directory entries of `tensors`, each with its offset from `offsets`.
pub open spec fn headers(tensors: Seq<TensorView>, offsets: Seq<u64>) -> Seq<Seq<u8>> {
    Seq::new(tensors.len(), |i: int| header_wire(tensors[i], offsets[i]))
}

/// The tensor directory on the wire.
#[verifier::opaque]
pub open spec fn directory_wire(tensors: Seq<TensorView>, offsets: Seq<u64>) -> Seq<u8> {
    headers(tensors, offsets).flatten()
}

/// The length of the tensor directory: it does not depend on the offsets.
#[verifier::opaque]
pub open spec fn directory_len(tensors: Seq<TensorView>) -> nat {
    directory_wire(tensors, Seq::new(tensors.len(), |i: int| 0u64)).len()
}

/// The payloads of `tensors`, one after the other.
#[verifier::opaque]
pub open spec fn payloads_wire(tensors: Seq<TensorView>) -> Seq<u8> {
    Seq::new(tensors.len(), |i: int| tensors[i].values).flatten()
}

/// The preamble of a container with these counts.
pub open spec fn preamble_wire(tensor_count: nat, metadata_count: nat) -> Seq<u8> {
    magic() + u32_le(VERSION) + u64_le(count64(tensor_count)) + u64_le(count64(metadata_count))
}

/// Where the payloads start: right after the directory.
pub open spec fn payload_start(entries: Seq<EntryView>, tensors: Seq<TensorView>) -> nat {
    preamble_len() + entries_wire(entries).len() + directory_len(tensors)
}

/// Where the payload of tensor `i` starts: right after the payloads of the
/// tensors before it.
pub open spec fn data_offset(entries: Seq<EntryView>, tensors: Seq<TensorView>, i: int) -> nat {
    payload_start(entries, tensors) + payloads_wire(tensors.take(i)).len()
}

/// The offsets that the directory of a written container declares.
pub open spec fn data_offsets(entries: Seq<EntryView>, tensors: Seq<TensorView>) -> Seq<u64> {
    Seq::new(tensors.len(), |i: int| count64(data_offset(entries, tensors, i)))
}

/// The container that holds `entries` and `tensors`. The `offset` fields of
/// `tensors` play no part: the directory declares where each payload lies.
pub open spec fn container_wire(entries: Seq<EntryView>, tensors: Seq<TensorView>) -> Seq<u8> {
    preamble_wire(tensors.len(), entries.len()) + entries_wire(entries) + directory_wire(
        tensors,
        data_offsets(entries, tensors),
    ) + payloads_wire(tensors)
}

/// A list of parts, flattened, grows by a part when the list does.
pub(crate) proof fn lemma_flatten_take<A>(parts: Seq<Seq<A>>, i: int)
    requires
        0 <= i < parts.len(),
    ensures
        parts.take(i + 1).flatten() == parts.take(i).flatten() + parts[i],
        parts.take(0).flatten() == Seq::<A>::empty(),
        parts.take(parts.len() as int) == parts,
{
    assert(parts.take(i + 1) =~= parts.take(i).push(parts[i]));
    parts.take(i).lemma_flatten_push(parts[i]);
    assert(parts.take(0) =~= Seq::<Seq<A>>::empty());
    assert(parts.take(parts.len() as int) =~= parts);
}

/// A flattened list is what comes before part `i`, part `i`, and what comes
/// after it.
pub(crate) proof fn lemma_flatten_split<A>(parts: Seq<Seq<A>>, i: int)
    requires
        0 <= i < parts.len(),
    ensures
        parts.flatten() == parts.take(i).flatten() + parts[i] + parts.skip(i + 1).flatten(),
{
    let a = parts.take(i);
    let b = seq![parts[i]];
    let c = parts.skip(i + 1);
    assert(parts =~= a + b + c);
    lemma_flatten_concat(a + b, c);
    lemma_flatten_concat(a, b);
    b.lemma_flatten_one_element();
}

/// The directory of the first `i` tensors is a prefix of the directory, and
/// its length does not depend on the offsets.
pub(crate) proof fn lemma_directory_len(tensors: Seq<TensorView>, offsets: Seq<u64>)
    requires
        offsets.len() == tensors.len(),
    ensures
        directory_wire(tensors, offsets).len() == directory_len(tensors),
    decreases tensors.len(),
{
    reveal(directory_wire);
    reveal(directory_len);
    let zeros = Seq::new(tensors.len(), |i: int| 0u64);
    if tensors.len() > 0 {
        let n = tensors.len() - 1;
        let h = headers(tensors, offsets);
        let z = headers(tensors, zeros);
        lemma_flatten_take(h, n);
        lemma_flatten_take(z, n);
        assert(h.take(n) =~= headers(tensors.take(n), offsets.take(n)));
        assert(z.take(n) =~= headers(tensors.take(n), Seq::new(n as nat, |i: int| 0u64)));
        lemma_directory_len(tensors.take(n), offsets.take(n));
        lemma_u64_le_inverse(offsets[n]);
        lemma_u64_le_inverse(0);
        assert(h[n].len() == z[n].len());
    } else {
        assert(headers(tensors, offsets) =~= headers(tensors, zeros));
    }
}

/// The directory grows by the entry of a tensor when the tensor is added.
pub(crate) proof fn lemma_directory_push(tensors: Seq<TensorView>, offsets: Seq<u64>, i: int)
    requires
        offsets.len() == tensors.len(),
        0 <= i < tensors.len(),
    ensures
        directory_wire(tensors.take(i + 1), offsets.take(i + 1)) == directory_wire(
            tensors.take(i),
            offsets.take(i),
        ) + header_wire(tensors[i], offsets[i]),
        directory_len(tensors.take(i + 1)) == directory_len(tensors.take(i)) + header_wire(
            tensors[i],
            offsets[i],
        ).len(),
{
    reveal(directory_wire);
    let h = headers(tensors, offsets);
    lemma_flatten_take(h, i);
    assert(h.take(i) =~= headers(tensors.take(i), offsets.take(i)));
    assert(h.take(i + 1) =~= headers(tensors.take(i + 1), offsets.take(i + 1)));
    lemma_directory_len(tensors.take(i), offsets.take(i));
    lemma_directory_len(tensors.take(i + 1), offsets.take(i + 1));
}

/// Replacing a field in the middle of a byte string.
pub(crate) proof fn lemma_splice(
    before: Seq<u8>,
    field: Seq<u8>,
    replacement: Seq<u8>,
    after: Seq<u8>,
)
    requires
        field.len() == replacement.len(),
    ensures
        ({
            let whole = before + field + after;
            let at = before.len() as int;
            let end = at + field.len();
            whole.subrange(0, at) + replacement + whole.subrange(end, whole.len() as int)
                == before + replacement + after
        }),
{
    let whole = before + field + after;
    let at = before.len() as int;
    let end = at + field.len();
    assert(whole.subrange(0, at) =~= before);
    assert(whole.subrange(end, whole.len() as int) =~= after);
}

/// The directory as what comes before the offset field of entry `i`, that
/// field, and what comes after it.
pub(crate) proof fn lemma_directory_split(tensors: Seq<TensorView>, offsets: Seq<u64>, i: int)
    requires
        offsets.len() == tensors.len(),
        0 <= i < tensors.len(),
    ensures
        directory_wire(tensors, offsets) == (directory_wire(tensors.take(i), offsets.take(i))
            + header_front(tensors[i])) + u64_le(offsets[i]) + directory_wire(
            tensors.skip(i + 1),
            offsets.skip(i + 1),
        ),
{
    reveal(directory_wire);
    let h = headers(tensors, offsets);
    lemma_flatten_split(h, i);
    assert(h.take(i) =~= headers(tensors.take(i), offsets.take(i)));
    assert(h.skip(i + 1) =~= headers(tensors.skip(i + 1), offsets.skip(i + 1)));
    let before = h.take(i).flatten();
    let after = h.skip(i + 1).flatten();
    assert(before + (header_front(tensors[i]) + u64_le(offsets[i])) + after =~= (before
        + header_front(tensors[i])) + u64_le(offsets[i]) + after);
}

/// Writing an offset into the directory: the eight bytes of the offset
/// field of entry `i` change, and nothing else does.
pub(crate) proof fn lemma_directory_patch(
    tensors: Seq<TensorView>,
    offsets: Seq<u64>,
    i: int,
    v: u64,
)
    requires
        offsets.len() == tensors.len(),
        0 <= i < tensors.len(),
    ensures
        ({
            let d = directory_wire(tensors, offsets);
            let at = directory_len(tensors.take(i)) + header_front(tensors[i]).len();
            &&& at + 8 <= d.len()
            &&& directory_wire(tensors, offsets.update(i, v)) == d.subrange(0, at as int) + u64_le(
                v,
            ) + d.subrange(at as int + 8, d.len() as int)
        }),
{
    let updated = offsets.update(i, v);
    lemma_directory_split(tensors, offsets, i);
    lemma_directory_split(tensors, updated, i);
    assert(updated.take(i) =~= offsets.take(i));
    assert(updated.skip(i + 1) =~= offsets.skip(i + 1));
    lemma_directory_len(tensors.take(i), offsets.take(i));
    let before = directory_wire(tensors.take(i), offsets.take(i)) + header_front(tensors[i]);
    let after = directory_wire(tensors.skip(i + 1), offsets.skip(i + 1));
    let field = u64_le(offsets[i]);
    let replacement = u64_le(v);
    lemma_u64_le_inverse(offsets[i]);
    lemma_u64_le_inverse(v);
    lemma_splice(before, field, replacement, after);
}

/// The preamble is 24 bytes long.
pub(crate) proof fn lemma_preamble_len(tensor_count: nat, metadata_count: nat)
    ensures
        preamble_wire(tensor_count, metadata_count).len() == preamble_len(),
{
    lemma_u32_le_inverse(VERSION);
    lemma_u64_le_inverse(count64(tensor_count));
    lemma_u64_le_inverse(count64(metadata_count));
}

/// No tensors, no payload bytes.
pub(crate) proof fn lemma_payloads_none(tensors: Seq<TensorView>)
    ensures
        payloads_wire(tensors.take(0)) == Seq::<u8>::empty(),
{
    reveal(payloads_wire);
    assert(Seq::new(tensors.take(0).len(), |j: int| tensors.take(0)[j].values)
        =~= Seq::<Seq<u8>>::empty());
}

/// The payloads grow by the payload of a tensor when the tensor is added.
pub(crate) proof fn lemma_payloads_push(tensors: Seq<TensorView>, i: int)
    requires
        0 <= i < tensors.len(),
    ensures
        payloads_wire(tensors.take(i + 1)) == payloads_wire(tensors.take(i)) + tensors[i].values,
{
    reveal(payloads_wire);
    let p = Seq::new(tensors.len(), |j: int| tensors[j].values);
    lemma_flatten_take(p, i);
    assert(p.take(i) =~= Seq::new(tensors.take(i).len(), |j: int| tensors.take(i)[j].values));
    assert(p.take(i + 1) =~= Seq::new(
        tensors.take(i + 1).len(),
        |j: int| tensors.take(i + 1)[j].values,
    ));
}

/// The directory of no tensors is empty.
pub(crate) proof fn lemma_directory_none(tensors: Seq<TensorView>, offsets: Seq<u64>)
    ensures
        directory_wire(tensors.take(0), offsets.take(0)) == Seq::<u8>::empty(),
        directory_len(tensors.take(0)) == 0,
{
    reveal(directory_wire);
    reveal(directory_len);
    assert(headers(tensors.take(0), offsets.take(0)) =~= Seq::<Seq<u8>>::empty());
    assert(headers(tensors.take(0), Seq::new(tensors.take(0).len(), |i: int| 0u64))
        =~= Seq::<Seq<u8>>::empty());
}

/// The strings of a list on the wire: none for the empty list, else the
/// first and then the others.
pub(crate) proof fn lemma_strings_wire_front(items: Seq<Seq<char>>)
    ensures
        items.len() == 0 ==> strings_wire(items) == Seq::<u8>::empty(),
        items.len() > 0 ==> strings_wire(items) == string_wire(items[0]) + strings_wire(
            items.drop_first(),
        ),
{
    reveal(strings_wire);
    if items.len() > 0 {
        let parts = Seq::new(items.len(), |i: int| string_wire(items[i]));
        let rest = Seq::new(items.drop_first().len(), |i: int| string_wire(items.drop_first()[i]));
        assert(parts.drop_first() =~= rest);
    }
}

/// The entries of a list on the wire: none for the empty list, else the
/// first and then the others.
pub(crate) proof fn lemma_entries_wire_front(entries: Seq<EntryView>)
    ensures
        entries.len() == 0 ==> entries_wire(entries) == Seq::<u8>::empty(),
        entries.len() > 0 ==> entries_wire(entries) == entry_wire(entries[0]) + entries_wire(
            entries.drop_first(),
        ),
{
    reveal(entries_wire);
    if entries.len() > 0 {
        let parts = Seq::new(entries.len(), |i: int| entry_wire(entries[i]));
        let rest = Seq::new(
            entries.drop_first().len(),
            |i: int| entry_wire(entries.drop_first()[i]),
        );
        assert(parts.drop_first() =~= rest);
    }
}

/// The axis lengths on the wire: none for the empty list, else the first
/// and then the others.
pub(crate) proof fn lemma_dims_wire_front(dims: Seq<u64>)
    ensures
        dims.len() == 0 ==> dims_wire(dims) == Seq::<u8>::empty(),
        dims.len() > 0 ==> dims_wire(dims) == u64_le(dims[0]) + dims_wire(dims.drop_first()),
{
    reveal(dims_wire);
    if dims.len() > 0 {
        let parts = Seq::new(dims.len(), |i: int| u64_le(dims[i]));
        let rest = Seq::new(dims.drop_first().len(), |i: int| u64_le(dims.drop_first()[i]));
        assert(parts.drop_first() =~= rest);
    }
}

/// The directory on the wire: nothing for no tensors, else the entry of
/// the first and then the others.
pub(crate) proof fn lemma_directory_wire_front(tensors: Seq<TensorView>, offsets: Seq<u64>)
    requires
        offsets.len() == tensors.len(),
    ensures
        tensors.len() == 0 ==> directory_wire(tensors, offsets) == Seq::<u8>::empty(),
        tensors.len() > 0 ==> directory_wire(tensors, offsets) == header_wire(
            tensors[0],
            offsets[0],
        ) + directory_wire(tensors.drop_first(), offsets.drop_first()),
{
    reveal(directory_wire);
    if tensors.len() > 0 {
        assert(headers(tensors, offsets).drop_first() =~= headers(
            tensors.drop_first(),
            offsets.drop_first(),
        ));
    }
}

/// The payloads as those of the first `i` tensors, that of tensor `i`, and
/// those of the tensors after it.
pub(crate) proof fn lemma_payloads_split(tensors: Seq<TensorView>, i: int)
    requires
        0 <= i < tensors.len(),
    ensures
        payloads_wire(tensors) == payloads_wire(tensors.take(i)) + tensors[i].values
            + payloads_wire(tensors.skip(i + 1)),
{
    reveal(payloads_wire);
    let p = Seq::new(tensors.len(), |j: int| tensors[j].values);
    lemma_flatten_split(p, i);
    assert(p.take(i) =~= Seq::new(tensors.take(i).len(), |j: int| tensors.take(i)[j].values));
    assert(p.skip(i + 1) =~= Seq::new(
        tensors.skip(i + 1).len(),
        |j: int| tensors.skip(i + 1)[j].values,
    ));
}

/// Whether `part` stands in `bytes` at `pos`.
pub open spec fn holds_at(bytes: Seq<u8>, pos: int, part: Seq<u8>) -> bool {
    &&& 0 <= pos
    &&& pos + part.len() <= bytes.len()
    &&& bytes.subrange(pos, pos + part.len()) == part
}

/// Where two parts stand one after the other, each of them stands.
pub(crate) proof fn lemma_holds_split(bytes: Seq<u8>, pos: int, a: Seq<u8>, b: Seq<u8>)
    requires
        holds_at(bytes, pos, a + b),
    ensures
        holds_at(bytes, pos, a),
        holds_at(bytes, pos + a.len(), b),
{
    let whole = bytes.subrange(pos, pos + (a + b).len());
    assert(bytes.subrange(pos, pos + a.len()) =~= whole.subrange(0, a.len() as int));
    assert(whole.subrange(0, a.len() as int) =~= a);
    assert(bytes.subrange(pos + a.len(), pos + a.len() + b.len()) =~= whole.subrange(
        a.len() as int,
        (a + b).len() as int,
    ));
    assert(whole.subrange(a.len() as int, (a + b).len() as int) =~= b);
}

} // verus!
