//! Reading a container.

use crate::le::{
    get_i16, get_i32, get_i64, get_u16, get_u32, get_u64, u16_of_le, u32_of_le, u64_of_le,
};
use crate::metadata::{entries_map, EntryView, Metadata};
use crate::text::{lossy_text, string_from_utf8_lossy};
use crate::types::{
    tensor_views, texts, GGUFTensor, GGUFValue, GGUFValueType, TensorView, ValueView,
};
use crate::wire::magic;
use vstd::prelude::*;
use vstd::slice::{slice_subrange, slice_to_vec};

verus! {

/// Why a byte string is not a container.
#[derive(Debug, Clone, Copy, PartialEq, Eq, Structural)]
pub enum ReadError {
    /// The first four bytes are not `GGUF`.
    BadMagic,
    /// The preamble, the metadata, the directory or a declared payload
    /// reaches past the end of the bytes.
    ShortRead,
}

impl ReadError {
    /// The name of the error.
    pub open spec fn name(self) -> Seq<char> {
        match self {
            ReadError::BadMagic => "BadMagic"@,
            ReadError::ShortRead => "ShortRead"@,
        }
    }

    /// The name of the error.
    pub fn as_str(&self) -> (name: &'static str)
        ensures
            name@ == self.name(),
    {
        match self {
            ReadError::BadMagic => "BadMagic",
            ReadError::ShortRead => "ShortRead",
        }
    }
}

/// The byte at `pos` and the position after it.
pub open spec fn u8_at(bytes: Seq<u8>, pos: int) -> Option<(u8, int)> {
    if 0 <= pos && pos + 1 <= bytes.len() {
        Some((bytes[pos], pos + 1))
    } else {
        None
    }
}

/// The 16-bit number at `pos` and the position after it.
pub open spec fn u16_at(bytes: Seq<u8>, pos: int) -> Option<(u16, int)> {
    if 0 <= pos && pos + 2 <= bytes.len() {
        Some((u16_of_le(bytes.subrange(pos, pos + 2)), pos + 2))
    } else {
        None
    }
}

/// The 32-bit number at `pos` and the position after it.
pub open spec fn u32_at(bytes: Seq<u8>, pos: int) -> Option<(u32, int)> {
    if 0 <= pos && pos + 4 <= bytes.len() {
        Some((u32_of_le(bytes.subrange(pos, pos + 4)), pos + 4))
    } else {
        None
    }
}

/// The 64-bit number at `pos` and the position after it.
pub open spec fn u64_at(bytes: Seq<u8>, pos: int) -> Option<(u64, int)> {
    if 0 <= pos && pos + 8 <= bytes.len() {
        Some((u64_of_le(bytes.subrange(pos, pos + 8)), pos + 8))
    } else {
        None
    }
}

/// The bytes behind the length field at `pos`, and the position after them.
pub open spec fn blob_at(bytes: Seq<u8>, pos: int) -> Option<(Seq<u8>, int)> {
    match u64_at(bytes, pos) {
        Some((len, start)) => if start + len <= bytes.len() {
            Some((bytes.subrange(start, start + len), start + len))
        } else {
            None
        },
        None => None,
    }
}

/// The string at `pos` and the position after it. Bytes that are not valid
/// UTF-8 are read with replacement characters.
pub open spec fn string_at(bytes: Seq<u8>, pos: int) -> Option<(Seq<char>, int)> {
    match blob_at(bytes, pos) {
        Some((raw, end)) => Some((lossy_text(raw), end)),
        None => None,
    }
}

/// A list read so far, with what reading on gives.
pub open spec fn prepend<A>(front: Seq<A>, rest: Option<(Seq<A>, int)>) -> Option<(Seq<A>, int)> {
    match rest {
        Some((items, end)) => Some((front + items, end)),
        None => None,
    }
}

/// The `count` strings from `pos` on, and the position after them.
pub open spec fn strings_at(bytes: Seq<u8>, pos: int, count: nat) -> Option<(Seq<Seq<char>>, int)>
    decreases count,
{
    if count == 0 {
        Some((Seq::empty(), pos))
    } else {
        match string_at(bytes, pos) {
            Some((text, next)) => prepend(seq![text], strings_at(bytes, next, (count - 1) as nat)),
            None => None,
        }
    }
}

/// Whether the reader knows how long a value of this kind is.
pub open spec fn decodable(kind: GGUFValueType) -> bool {
    !(kind is Array) && !(kind is Unknown)
}

/// The value of kind `kind` at `pos` and the position after it.
pub open spec fn value_at(kind: GGUFValueType, bytes: Seq<u8>, pos: int) -> Option<
    (ValueView, int),
> {
    match kind {
        GGUFValueType::String => match string_at(bytes, pos) {
            Some((text, end)) => Some((ValueView::String(text), end)),
            None => None,
        },
        GGUFValueType::Bool => match u8_at(bytes, pos) {
            Some((v, end)) => Some((ValueView::Bool(v != 0), end)),
            None => None,
        },
        GGUFValueType::U8 => match u8_at(bytes, pos) {
            Some((v, end)) => Some((ValueView::U8(v), end)),
            None => None,
        },
        GGUFValueType::I8 => match u8_at(bytes, pos) {
            Some((v, end)) => Some((ValueView::I8(v as i8), end)),
            None => None,
        },
        GGUFValueType::U16 => match u16_at(bytes, pos) {
            Some((v, end)) => Some((ValueView::U16(v), end)),
            None => None,
        },
        GGUFValueType::I16 => match u16_at(bytes, pos) {
            Some((v, end)) => Some((ValueView::I16(v as i16), end)),
            None => None,
        },
        GGUFValueType::U32 => match u32_at(bytes, pos) {
            Some((v, end)) => Some((ValueView::U32(v), end)),
            None => None,
        },
        GGUFValueType::I32 => match u32_at(bytes, pos) {
            Some((v, end)) => Some((ValueView::I32(v as i32), end)),
            None => None,
        },
        GGUFValueType::U64 => match u64_at(bytes, pos) {
            Some((v, end)) => Some((ValueView::U64(v), end)),
            None => None,
        },
        GGUFValueType::I64 => match u64_at(bytes, pos) {
            Some((v, end)) => Some((ValueView::I64(v as i64), end)),
            None => None,
        },
        GGUFValueType::F32 => match u32_at(bytes, pos) {
            Some((v, end)) => Some((ValueView::F32(v), end)),
            None => None,
        },
        GGUFValueType::F64 => match u64_at(bytes, pos) {
            Some((v, end)) => Some((ValueView::F64(v), end)),
            None => None,
        },
        GGUFValueType::StringArray => match u64_at(bytes, pos) {
            Some((count, start)) => match strings_at(bytes, start, count as nat) {
                Some((items, end)) => Some((ValueView::StringArray(items), end)),
                None => None,
            },
            None => None,
        },
        GGUFValueType::Binary => match blob_at(bytes, pos) {
            Some((data, end)) => Some((ValueView::Binary(data), end)),
            None => None,
        },
        GGUFValueType::Array => None,
        GGUFValueType::Unknown(_) => None,
    }
}

/// The metadata entries read from `pos` on, and the position after them.
/// At most `count` entries are read. An entry of a kind whose length the
/// reader does not know ends the metadata: the entries before it stand, and
/// reading goes on behind its kind byte.
pub open spec fn entries_at(bytes: Seq<u8>, pos: int, count: nat) -> Option<(Seq<EntryView>, int)>
    decreases count,
{
    if count == 0 {
        Some((Seq::empty(), pos))
    } else {
        match string_at(bytes, pos) {
            Some((key, at_kind)) => match u8_at(bytes, at_kind) {
                Some((code, at_value)) => {
                    let kind = GGUFValueType::of_code(code);
                    if !decodable(kind) {
                        Some((Seq::empty(), at_value))
                    } else {
                        match value_at(kind, bytes, at_value) {
                            Some((value, next)) => prepend(
                                seq![(key, value)],
                                entries_at(bytes, next, (count - 1) as nat),
                            ),
                            None => None,
                        }
                    }
                },
                None => None,
            },
            None => None,
        }
    }
}

/// The entry that ends the metadata read from `pos` on, if one does: the
/// key and the kind code of the first entry of a kind whose length the
/// reader does not know.
pub open spec fn unread_at(bytes: Seq<u8>, pos: int, count: nat) -> Option<(Seq<char>, u8)>
    decreases count,
{
    if count == 0 {
        None
    } else {
        match string_at(bytes, pos) {
            Some((key, at_kind)) => match u8_at(bytes, at_kind) {
                Some((code, at_value)) => {
                    let kind = GGUFValueType::of_code(code);
                    if !decodable(kind) {
                        Some((key, code))
                    } else {
                        match value_at(kind, bytes, at_value) {
                            Some((_, next)) => unread_at(bytes, next, (count - 1) as nat),
                            None => None,
                        }
                    }
                },
                None => None,
            },
            None => None,
        }
    }
}

/// The entry that ends the metadata of a container before its declared
/// number of entries is read, if one does.
pub open spec fn unread_entry_of(bytes: Seq<u8>) -> Option<(Seq<char>, u8)> {
    if bytes.len() < 24 || bytes.subrange(0, 4) != magic() {
        None
    } else {
        unread_at(bytes, 24, u64_of_le(bytes.subrange(16, 24)) as nat)
    }
}

/// The `count` axis lengths from `pos` on, and the position after them.
pub open spec fn dims_at(bytes: Seq<u8>, pos: int, count: nat) -> Option<(Seq<u64>, int)>
    decreases count,
{
    if count == 0 {
        Some((Seq::empty(), pos))
    } else {
        match u64_at(bytes, pos) {
            Some((dim, next)) => prepend(seq![dim], dims_at(bytes, next, (count - 1) as nat)),
            None => None,
        }
    }
}

/// The directory entry at `pos`, as a tensor without payload, and the
/// position after it.
pub open spec fn header_at(bytes: Seq<u8>, pos: int) -> Option<(TensorView, int)> {
    match string_at(bytes, pos) {
        Some((name, at_type)) => match u32_at(bytes, at_type) {
            Some((type_id, at_count)) => match u32_at(bytes, at_count) {
                Some((count, at_dims)) => match dims_at(bytes, at_dims, count as nat) {
                    Some((dims, at_offset)) => match u64_at(bytes, at_offset) {
                        Some((offset, end)) => Some(
                            (TensorView { name, type_id, dims, offset, values: Seq::empty() }, end),
                        ),
                        None => None,
                    },
                    None => None,
                },
                None => None,
            },
            None => None,
        },
        None => None,
    }
}

/// The `count` directory entries from `pos` on, and the position after
/// them.
pub open spec fn headers_at(bytes: Seq<u8>, pos: int, count: nat) -> Option<(Seq<TensorView>, int)>
    decreases count,
{
    if count == 0 {
        Some((Seq::empty(), pos))
    } else {
        match header_at(bytes, pos) {
            Some((header, next)) => prepend(
                seq![header],
                headers_at(bytes, next, (count - 1) as nat),
            ),
            None => None,
        }
    }
}

/// Where the payload of tensor `i` ends: at the offset of the next tensor,
/// or at the end of the bytes for the last one.
pub open spec fn payload_end(bytes: Seq<u8>, headers: Seq<TensorView>, i: int) -> int {
    if i + 1 < headers.len() {
        headers[i + 1].offset as int
    } else {
        bytes.len() as int
    }
}

/// Whether the payload of tensor `i` lies within the bytes. An empty
/// payload asks for no byte and lies anywhere.
pub open spec fn payload_fits(bytes: Seq<u8>, headers: Seq<TensorView>, i: int) -> bool {
    let start = headers[i].offset as int;
    let end = payload_end(bytes, headers, i);
    start == end || (start < end && end <= bytes.len())
}

/// The payload of tensor `i`.
pub open spec fn payload_at(bytes: Seq<u8>, headers: Seq<TensorView>, i: int) -> Seq<u8> {
    let start = headers[i].offset as int;
    let end = payload_end(bytes, headers, i);
    if start == end {
        Seq::empty()
    } else {
        bytes.subrange(start, end)
    }
}

/// The tensors of the directory `headers`, each with its payload.
pub open spec fn with_payloads(bytes: Seq<u8>, headers: Seq<TensorView>) -> Seq<TensorView> {
    Seq::new(
        headers.len(),
        |i: int|
            TensorView {
                name: headers[i].name,
                type_id: headers[i].type_id,
                dims: headers[i].dims,
                offset: headers[i].offset,
                values: payload_at(bytes, headers, i),
            },
    )
}

/// What a byte string holds as a container: the metadata entries in the
/// order of the wire and the tensors in the order of the directory; or why
/// it is no container.
pub open spec fn parse_container(bytes: Seq<u8>) -> Result<
    (Seq<EntryView>, Seq<TensorView>),
    ReadError,
> {
    if bytes.len() < 4 {
        Err(ReadError::ShortRead)
    } else if bytes.subrange(0, 4) != magic() {
        Err(ReadError::BadMagic)
    } else if bytes.len() < 24 {
        Err(ReadError::ShortRead)
    } else {
        let tensor_count = u64_of_le(bytes.subrange(8, 16));
        let metadata_count = u64_of_le(bytes.subrange(16, 24));
        match entries_at(bytes, 24, metadata_count as nat) {
            Some((entries, at_directory)) => match headers_at(
                bytes,
                at_directory,
                tensor_count as nat,
            ) {
                Some((headers, _)) => if forall|i: int|
                    0 <= i < headers.len() ==> payload_fits(bytes, headers, i) {
                    Ok((entries, with_payloads(bytes, headers)))
                } else {
                    Err(ReadError::ShortRead)
                },
                None => Err(ReadError::ShortRead),
            },
            None => Err(ReadError::ShortRead),
        }
    }
}

/// Reads the byte at `pos`.
fn take_u8(bytes: &[u8], pos: usize) -> (r: Option<(u8, usize)>)
    requires
        pos <= bytes@.len(),
    ensures
        match r {
            Some((v, end)) => u8_at(bytes@, pos as int) == Some((v, end as int)) && end
                <= bytes@.len(),
            None => u8_at(bytes@, pos as int) is None,
        },
{
    if bytes.len() - pos < 1 {
        None
    } else {
        Some((bytes[pos], pos + 1))
    }
}

/// Reads the 16-bit number at `pos`.
fn take_u16(bytes: &[u8], pos: usize) -> (r: Option<(u16, usize)>)
    requires
        pos <= bytes@.len(),
    ensures
        match r {
            Some((v, end)) => u16_at(bytes@, pos as int) == Some((v, end as int)) && end
                <= bytes@.len(),
            None => u16_at(bytes@, pos as int) is None,
        },
{
    if bytes.len() - pos < 2 {
        None
    } else {
        Some((get_u16(bytes, pos), pos + 2))
    }
}

/// Reads the 32-bit number at `pos`.
fn take_u32(bytes: &[u8], pos: usize) -> (r: Option<(u32, usize)>)
    requires
        pos <= bytes@.len(),
    ensures
        match r {
            Some((v, end)) => u32_at(bytes@, pos as int) == Some((v, end as int)) && end
                <= bytes@.len(),
            None => u32_at(bytes@, pos as int) is None,
        },
{
    if bytes.len() - pos < 4 {
        None
    } else {
        Some((get_u32(bytes, pos), pos + 4))
    }
}

/// Reads the 64-bit number at `pos`.
fn take_u64(bytes: &[u8], pos: usize) -> (r: Option<(u64, usize)>)
    requires
        pos <= bytes@.len(),
    ensures
        match r {
            Some((v, end)) => u64_at(bytes@, pos as int) == Some((v, end as int)) && end
                <= bytes@.len(),
            None => u64_at(bytes@, pos as int) is None,
        },
{
    if bytes.len() - pos < 8 {
        None
    } else {
        Some((get_u64(bytes, pos), pos + 8))
    }
}

/// Reads the signed 16-bit number at `pos`.
fn take_i16(bytes: &[u8], pos: usize) -> (r: Option<(i16, usize)>)
    requires
        pos <= bytes@.len(),
    ensures
        match r {
            Some((v, end)) => u16_at(bytes@, pos as int) matches Some((raw, at)) && at == end && v
                == raw as i16 && end <= bytes@.len(),
            None => u16_at(bytes@, pos as int) is None,
        },
{
    if bytes.len() - pos < 2 {
        None
    } else {
        Some((get_i16(bytes, pos), pos + 2))
    }
}

/// Reads the signed 32-bit number at `pos`.
fn take_i32(bytes: &[u8], pos: usize) -> (r: Option<(i32, usize)>)
    requires
        pos <= bytes@.len(),
    ensures
        match r {
            Some((v, end)) => u32_at(bytes@, pos as int) matches Some((raw, at)) && at == end && v
                == raw as i32 && end <= bytes@.len(),
            None => u32_at(bytes@, pos as int) is None,
        },
{
    if bytes.len() - pos < 4 {
        None
    } else {
        Some((get_i32(bytes, pos), pos + 4))
    }
}

/// Reads the signed 64-bit number at `pos`.
fn take_i64(bytes: &[u8], pos: usize) -> (r: Option<(i64, usize)>)
    requires
        pos <= bytes@.len(),
    ensures
        match r {
            Some((v, end)) => u64_at(bytes@, pos as int) matches Some((raw, at)) && at == end && v
                == raw as i64 && end <= bytes@.len(),
            None => u64_at(bytes@, pos as int) is None,
        },
{
    if bytes.len() - pos < 8 {
        None
    } else {
        Some((get_i64(bytes, pos), pos + 8))
    }
}

/// Reads the bytes behind the length field at `pos`.
fn take_blob<'a>(bytes: &'a [u8], pos: usize) -> (r: Option<(&'a [u8], usize)>)
    requires
        pos <= bytes@.len(),
    ensures
        match r {
            Some((raw, end)) => blob_at(bytes@, pos as int) == Some((raw@, end as int)) && end
                <= bytes@.len(),
            None => blob_at(bytes@, pos as int) is None,
        },
{
    match take_u64(bytes, pos) {
        None => None,
        Some((len, start)) => {
            if len > (bytes.len() - start) as u64 {
                None
            } else {
                let end = start + len as usize;
                Some((slice_subrange(bytes, start, end), end))
            }
        },
    }
}

/// Reads the string at `pos`.
fn take_string(bytes: &[u8], pos: usize) -> (r: Option<(String, usize)>)
    requires
        pos <= bytes@.len(),
    ensures
        match r {
            Some((text, end)) => string_at(bytes@, pos as int) == Some((text@, end as int)) && end
                <= bytes@.len(),
            None => string_at(bytes@, pos as int) is None,
        },
{
    match take_blob(bytes, pos) {
        None => None,
        Some((raw, end)) => Some((string_from_utf8_lossy(raw), end)),
    }
}

/// Reads `count` strings from `pos` on.
fn take_strings(bytes: &[u8], pos: usize, count: u64) -> (r: Option<(Vec<String>, usize)>)
    requires
        pos <= bytes@.len(),
    ensures
        match r {
            Some((items, end)) => strings_at(bytes@, pos as int, count as nat) == Some(
                (texts(items@), end as int),
            ) && end <= bytes@.len(),
            None => strings_at(bytes@, pos as int, count as nat) is None,
        },
{
    let mut items: Vec<String> = Vec::new();
    let mut at = pos;
    let mut i: u64 = 0;
    proof {
        assert(texts(items@) + Seq::<Seq<char>>::empty() =~= Seq::<Seq<char>>::empty());
        lemma_prepend_nothing(strings_at(bytes@, pos as int, count as nat));
    }
    while i < count
        invariant
            i <= count,
            at <= bytes@.len(),
            strings_at(bytes@, pos as int, count as nat) == prepend(
                texts(items@),
                strings_at(bytes@, at as int, (count - i) as nat),
            ),
        decreases count - i,
    {
        let ghost before = texts(items@);
        match take_string(bytes, at) {
            None => {
                return None;
            },
            Some((text, next)) => {
                proof {
                    lemma_prepend_step(
                        before,
                        text@,
                        strings_at(bytes@, next as int, (count - i - 1) as nat),
                    );
                }
                items.push(text);
                assert(texts(items@) =~= before.push(text@));
                at = next;
            },
        }
        i += 1;
    }
    proof {
        assert(texts(items@) + Seq::<Seq<char>>::empty() =~= texts(items@));
    }
    Some((items, at))
}

/// Reading nothing more leaves a result as it is.
proof fn lemma_prepend_nothing<A>(rest: Option<(Seq<A>, int)>)
    ensures
        prepend(Seq::<A>::empty(), rest) == rest,
{
    match rest {
        Some((items, end)) => {
            assert(Seq::<A>::empty() + items =~= items);
        },
        None => {},
    }
}

/// An item read joins the list read so far.
proof fn lemma_prepend_step<A>(front: Seq<A>, item: A, rest: Option<(Seq<A>, int)>)
    ensures
        prepend(front, prepend(seq![item], rest)) == prepend(front.push(item), rest),
{
    match rest {
        Some((items, end)) => {
            assert(front + (seq![item] + items) =~= front.push(item) + items);
        },
        None => {},
    }
}

/// Reads the value of kind `kind` at `pos`.
fn take_value(kind: GGUFValueType, bytes: &[u8], pos: usize) -> (r: Option<(GGUFValue, usize)>)
    requires
        pos <= bytes@.len(),
        decodable(kind),
    ensures
        match r {
            Some((value, end)) => value_at(kind, bytes@, pos as int) == Some((value@, end as int))
                && end <= bytes@.len(),
            None => value_at(kind, bytes@, pos as int) is None,
        },
{
    match kind {
        GGUFValueType::String => match take_string(bytes, pos) {
            Some((text, end)) => Some((GGUFValue::String(text), end)),
            None => None,
        },
        GGUFValueType::Bool => match take_u8(bytes, pos) {
            Some((v, end)) => Some((GGUFValue::Bool(v != 0), end)),
            None => None,
        },
        GGUFValueType::U8 => match take_u8(bytes, pos) {
            Some((v, end)) => Some((GGUFValue::U8(v), end)),
            None => None,
        },
        GGUFValueType::I8 => match take_u8(bytes, pos) {
            Some((v, end)) => Some((GGUFValue::I8(#[verifier::truncate] (v as i8)), end)),
            None => None,
        },
        GGUFValueType::U16 => match take_u16(bytes, pos) {
            Some((v, end)) => Some((GGUFValue::U16(v), end)),
            None => None,
        },
        GGUFValueType::I16 => match take_i16(bytes, pos) {
            Some((v, end)) => Some((GGUFValue::I16(v), end)),
            None => None,
        },
        GGUFValueType::U32 => match take_u32(bytes, pos) {
            Some((v, end)) => Some((GGUFValue::U32(v), end)),
            None => None,
        },
        GGUFValueType::I32 => match take_i32(bytes, pos) {
            Some((v, end)) => Some((GGUFValue::I32(v), end)),
            None => None,
        },
        GGUFValueType::U64 => match take_u64(bytes, pos) {
            Some((v, end)) => Some((GGUFValue::U64(v), end)),
            None => None,
        },
        GGUFValueType::I64 => match take_i64(bytes, pos) {
            Some((v, end)) => Some((GGUFValue::I64(v), end)),
            None => None,
        },
        GGUFValueType::F32 => match take_u32(bytes, pos) {
            Some((v, end)) => Some((GGUFValue::F32(v), end)),
            None => None,
        },
        GGUFValueType::F64 => match take_u64(bytes, pos) {
            Some((v, end)) => Some((GGUFValue::F64(v), end)),
            None => None,
        },
        GGUFValueType::StringArray => match take_u64(bytes, pos) {
            Some((count, start)) => match take_strings(bytes, start, count) {
                Some((items, end)) => Some((GGUFValue::StringArray(items), end)),
                None => None,
            },
            None => None,
        },
        GGUFValueType::Binary => match take_blob(bytes, pos) {
            Some((data, end)) => Some((GGUFValue::Binary(slice_to_vec(data)), end)),
            None => None,
        },
        GGUFValueType::Array => None,
        GGUFValueType::Unknown(_) => None,
    }
}

/// A key and a kind code, or neither.
pub open spec fn same_entry(found: Option<(String, u8)>, meant: Option<(Seq<char>, u8)>) -> bool {
    match found {
        Some((key, code)) => meant == Some((key@, code)),
        None => meant is None,
    }
}

/// Reads the metadata entries from `pos` on into a mapping, and tells
/// which entry ended the metadata early, if one did.
fn take_entries(bytes: &[u8], pos: usize, count: u64) -> (r: Option<
    (Metadata, usize, Option<(String, u8)>),
>)
    requires
        pos <= bytes@.len(),
    ensures
        match r {
            Some((metadata, end, unread)) => {
                &&& entries_at(bytes@, pos as int, count as nat) matches Some((entries, at))
                &&& at == end
                &&& metadata@ == entries_map(entries)
                &&& metadata.wf()
                &&& end <= bytes@.len()
                &&& same_entry(unread, unread_at(bytes@, pos as int, count as nat))
            },
            None => entries_at(bytes@, pos as int, count as nat) is None && unread_at(
                bytes@,
                pos as int,
                count as nat,
            ) is None,
        },
{
    let mut metadata = Metadata::new();
    let ghost mut seen = Seq::<EntryView>::empty();
    let mut at = pos;
    let mut i: u64 = 0;
    proof {
        lemma_prepend_nothing(entries_at(bytes@, pos as int, count as nat));
    }
    while i < count
        invariant
            i <= count,
            at <= bytes@.len(),
            metadata.wf(),
            metadata@ == entries_map(seen),
            entries_at(bytes@, pos as int, count as nat) == prepend(
                seen,
                entries_at(bytes@, at as int, (count - i) as nat),
            ),
            unread_at(bytes@, pos as int, count as nat) == unread_at(
                bytes@,
                at as int,
                (count - i) as nat,
            ),
        decreases count - i,
    {
        let (key, at_kind) = match take_string(bytes, at) {
            None => {
                return None;
            },
            Some(found) => found,
        };
        let (code, at_value) = match take_u8(bytes, at_kind) {
            None => {
                return None;
            },
            Some(found) => found,
        };
        let kind = GGUFValueType::from_u8(code);
        let known = match kind {
            GGUFValueType::Array => false,
            GGUFValueType::Unknown(_) => false,
            _ => true,
        };
        if !known {
            proof {
                assert(seen + Seq::<EntryView>::empty() =~= seen);
            }
            return Some((metadata, at_value, Some((key, code))));
        }
        match take_value(kind, bytes, at_value) {
            None => {
                return None;
            },
            Some((value, next)) => {
                proof {
                    lemma_prepend_step(
                        seen,
                        (key@, value@),
                        entries_at(bytes@, next as int, (count - i - 1) as nat),
                    );
                    assert(seen.push((key@, value@)).drop_last() =~= seen);
                    seen = seen.push((key@, value@));
                }
                metadata.insert(key, value);
                at = next;
            },
        }
        i += 1;
    }
    proof {
        assert(seen + Seq::<EntryView>::empty() =~= seen);
    }
    Some((metadata, at, None))
}

/// Reads `count` axis lengths from `pos` on.
fn take_dims(bytes: &[u8], pos: usize, count: u32) -> (r: Option<(Vec<u64>, usize)>)
    requires
        pos <= bytes@.len(),
    ensures
        match r {
            Some((dims, end)) => dims_at(bytes@, pos as int, count as nat) == Some(
                (dims@, end as int),
            ) && end <= bytes@.len(),
            None => dims_at(bytes@, pos as int, count as nat) is None,
        },
{
    let mut dims: Vec<u64> = Vec::new();
    let mut at = pos;
    let mut i: u32 = 0;
    proof {
        lemma_prepend_nothing(dims_at(bytes@, pos as int, count as nat));
    }
    while i < count
        invariant
            i <= count,
            at <= bytes@.len(),
            dims_at(bytes@, pos as int, count as nat) == prepend(
                dims@,
                dims_at(bytes@, at as int, (count - i) as nat),
            ),
        decreases count - i,
    {
        match take_u64(bytes, at) {
            None => {
                return None;
            },
            Some((dim, next)) => {
                proof {
                    lemma_prepend_step(
                        dims@,
                        dim,
                        dims_at(bytes@, next as int, (count - i - 1) as nat),
                    );
                }
                dims.push(dim);
                at = next;
            },
        }
        i += 1;
    }
    proof {
        assert(dims@ + Seq::<u64>::empty() =~= dims@);
    }
    Some((dims, at))
}

/// Reads the directory entry at `pos`.
fn take_header(bytes: &[u8], pos: usize) -> (r: Option<(GGUFTensor, usize)>)
    requires
        pos <= bytes@.len(),
    ensures
        match r {
            Some((header, end)) => header_at(bytes@, pos as int) == Some((header@, end as int))
                && end <= bytes@.len(),
            None => header_at(bytes@, pos as int) is None,
        },
{
    let (name, at_type) = match take_string(bytes, pos) {
        None => {
            return None;
        },
        Some(found) => found,
    };
    let (type_id, at_count) = match take_u32(bytes, at_type) {
        None => {
            return None;
        },
        Some(found) => found,
    };
    let (count, at_dims) = match take_u32(bytes, at_count) {
        None => {
            return None;
        },
        Some(found) => found,
    };
    let (dims, at_offset) = match take_dims(bytes, at_dims, count) {
        None => {
            return None;
        },
        Some(found) => found,
    };
    let (offset, end) = match take_u64(bytes, at_offset) {
        None => {
            return None;
        },
        Some(found) => found,
    };
    Some((GGUFTensor { name, type_id, dims, offset, values: Vec::new() }, end))
}

/// Reads `count` directory entries from `pos` on.
fn take_headers(bytes: &[u8], pos: usize, count: u64) -> (r: Option<(Vec<GGUFTensor>, usize)>)
    requires
        pos <= bytes@.len(),
    ensures
        match r {
            Some((headers, end)) => headers_at(bytes@, pos as int, count as nat) == Some(
                (tensor_views(headers@), end as int),
            ) && end <= bytes@.len(),
            None => headers_at(bytes@, pos as int, count as nat) is None,
        },
{
    let mut headers: Vec<GGUFTensor> = Vec::new();
    let mut at = pos;
    let mut i: u64 = 0;
    proof {
        assert(tensor_views(headers@) =~= Seq::<TensorView>::empty());
        lemma_prepend_nothing(headers_at(bytes@, pos as int, count as nat));
    }
    while i < count
        invariant
            i <= count,
            at <= bytes@.len(),
            headers_at(bytes@, pos as int, count as nat) == prepend(
                tensor_views(headers@),
                headers_at(bytes@, at as int, (count - i) as nat),
            ),
        decreases count - i,
    {
        let ghost before = tensor_views(headers@);
        match take_header(bytes, at) {
            None => {
                return None;
            },
            Some((header, next)) => {
                proof {
                    lemma_prepend_step(
                        before,
                        header@,
                        headers_at(bytes@, next as int, (count - i - 1) as nat),
                    );
                }
                headers.push(header);
                assert(tensor_views(headers@) =~= before.push(header@));
                at = next;
            },
        }
        i += 1;
    }
    proof {
        assert(tensor_views(headers@) + Seq::<TensorView>::empty() =~= tensor_views(headers@));
    }
    Some((headers, at))
}

/// Cuts the payload of each tensor of the directory out of the bytes.
fn take_payloads(bytes: &[u8], headers: &Vec<GGUFTensor>) -> (r: Option<Vec<GGUFTensor>>)
    ensures
        match r {
            Some(tensors) => {
                &&& forall|i: int|
                    0 <= i < headers@.len() ==> payload_fits(bytes@, tensor_views(headers@), i)
                &&& tensor_views(tensors@) == with_payloads(bytes@, tensor_views(headers@))
            },
            None => exists|i: int|
                0 <= i < headers@.len() && !payload_fits(bytes@, tensor_views(headers@), i),
        },
{
    let ghost views = tensor_views(headers@);
    let mut tensors: Vec<GGUFTensor> = Vec::new();
    let len = bytes.len();
    let mut i: usize = 0;
    while i < headers.len()
        invariant
            i <= headers@.len(),
            len == bytes@.len(),
            views == tensor_views(headers@),
            tensors@.len() == i,
            forall|j: int| 0 <= j < i ==> payload_fits(bytes@, views, j),
            forall|j: int|
                0 <= j < i ==> (#[trigger] tensors@[j])@ == with_payloads(bytes@, views)[j],
        decreases headers@.len() - i,
    {
        let header = &headers[i];
        assert(views[i as int] == header@);
        let start = header.offset;
        let end: u64 = if i + 1 < headers.len() {
            assert(views[i + 1] == headers@[i + 1]@);
            headers[i + 1].offset
        } else {
            len as u64
        };
        assert(end == payload_end(bytes@, views, i as int));
        let values = if start == end {
            Vec::new()
        } else if start < end && end <= len as u64 {
            slice_to_vec(slice_subrange(bytes, start as usize, end as usize))
        } else {
            assert(!payload_fits(bytes@, views, i as int));
            return None;
        };
        assert(values@ =~= payload_at(bytes@, views, i as int));
        let dims = header.dims.clone();
        assert(dims@ =~= header.dims@);
        tensors.push(
            GGUFTensor {
                name: header.name.clone(),
                type_id: header.type_id,
                dims,
                offset: start,
                values,
            },
        );
        i += 1;
    }
    assert(tensor_views(tensors@) =~= with_payloads(bytes@, views));
    Some(tensors)
}

/// Reads a container from the bytes of a file: the metadata, as a mapping
/// in key order, and the tensors in the order of the directory. The version
/// is not looked at.
///
/// The payload of a tensor reaches from its declared offset to the offset
/// of the next tensor, that of the last one to the end of the bytes. Where
/// a key occurs twice the later value stands.
pub fn read_gguf_file(bytes: &[u8]) -> (r: Result<(Metadata, Vec<GGUFTensor>), ReadError>)
    ensures
        match r {
            Ok((metadata, tensors)) => {
                &&& parse_container(bytes@) matches Ok((entries, parsed))
                &&& metadata.wf()
                &&& metadata@ == entries_map(entries)
                &&& tensor_views(tensors@) == parsed
            },
            Err(e) => parse_container(bytes@) == Err::<
                (Seq<EntryView>, Seq<TensorView>),
                ReadError,
            >(e),
        },
{
    if bytes.len() < 4 {
        return Err(ReadError::ShortRead);
    }
    if bytes[0] != 0x47 || bytes[1] != 0x47 || bytes[2] != 0x55 || bytes[3] != 0x46 {
        assert(bytes@.subrange(0, 4)[0] == bytes@[0]);
        assert(bytes@.subrange(0, 4)[1] == bytes@[1]);
        assert(bytes@.subrange(0, 4)[2] == bytes@[2]);
        assert(bytes@.subrange(0, 4)[3] == bytes@[3]);
        return Err(ReadError::BadMagic);
    }
    assert(bytes@.subrange(0, 4) =~= magic());
    if bytes.len() < 24 {
        return Err(ReadError::ShortRead);
    }
    let _version = get_u32(bytes, 4);
    let tensor_count = get_u64(bytes, 8);
    let metadata_count = get_u64(bytes, 16);
    let (metadata, at_directory, _) = match take_entries(bytes, 24, metadata_count) {
        None => {
            return Err(ReadError::ShortRead);
        },
        Some(found) => found,
    };
    let (headers, _) = match take_headers(bytes, at_directory, tensor_count) {
        None => {
            return Err(ReadError::ShortRead);
        },
        Some(found) => found,
    };
    match take_payloads(bytes, &headers) {
        None => Err(ReadError::ShortRead),
        Some(tensors) => Ok((metadata, tensors)),
    }
}

/// Tells which entry ended the metadata of a container early: the key and
/// the kind code of the first entry of a kind whose length the reader does
/// not know. The entries behind it are not read.
pub fn unread_entry(bytes: &[u8]) -> (r: Option<(String, u8)>)
    ensures
        same_entry(r, unread_entry_of(bytes@)),
{
    if bytes.len() < 24 {
        return None;
    }
    if bytes[0] != 0x47 || bytes[1] != 0x47 || bytes[2] != 0x55 || bytes[3] != 0x46 {
        assert(bytes@.subrange(0, 4)[0] == bytes@[0]);
        assert(bytes@.subrange(0, 4)[1] == bytes@[1]);
        assert(bytes@.subrange(0, 4)[2] == bytes@[2]);
        assert(bytes@.subrange(0, 4)[3] == bytes@[3]);
        return None;
    }
    assert(bytes@.subrange(0, 4) =~= magic());
    let metadata_count = get_u64(bytes, 16);
    match take_entries(bytes, 24, metadata_count) {
        Some((_, _, unread)) => unread,
        None => None,
    }
}

} // verus!
