//! Taking tensors over from a safetensors blob.
//!
//! Every tensor that is taken over becomes a tensor of raw single-precision
//! floats. Half-precision elements are widened by a function that the
//! caller hands in; this library does no floating point itself.

use crate::codec::{encode_f32, f32_encoded, lemma_f32_round_trip};
use crate::decoder::element_count;
use crate::le::{get_u16, get_u64, u16_of_le, u64_of_le};
use crate::types::{GGUFTensor, TensorView, TYPE_F32};
use safetensors::tensor::Dtype;
use safetensors::SafeTensors;
use vstd::prelude::*;

verus! {

/// The error of the safetensors crate.
#[verifier::external_type_specification]
#[verifier::external_body]
pub struct ExSafeTensorError(safetensors::SafeTensorError);

/// The element type of a tensor in a safetensors blob, as far as this
/// library tells the types apart.
#[derive(Debug, Clone, Copy, PartialEq, Eq, Structural)]
pub enum SourceDtype {
    F32,
    F16,
    BF16,
    /// Any other type: such a tensor is not taken over.
    Other,
}

/// A tensor of a safetensors blob.
#[derive(Debug, Clone, PartialEq, Eq)]
pub struct SourceTensor {
    pub name: String,
    pub dtype: SourceDtype,
    pub shape: Vec<u64>,
    pub data: Vec<u8>,
}

/// What a `SourceTensor` holds, as a mathematical value.
pub struct SourceView {
    pub name: Seq<char>,
    pub dtype: SourceDtype,
    pub shape: Seq<u64>,
    pub data: Seq<u8>,
}

impl View for SourceTensor {
    type V = SourceView;

    open spec fn view(&self) -> SourceView {
        SourceView { name: self.name@, dtype: self.dtype, shape: self.shape@, data: self.data@ }
    }
}

/// The views of a list of source tensors.
pub open spec fn source_views(sources: Seq<SourceTensor>) -> Seq<SourceView> {
    Seq::new(sources.len(), |i: int| sources[i]@)
}

/// Whether a source tensor holds as many bytes as its shape and element
/// type ask for: four for each raw float, two for each half-precision or
/// bfloat16 element.
pub open spec fn sized(source: SourceView) -> bool {
    match source.dtype {
        SourceDtype::F32 => source.data.len() == 4 * element_count(source.shape),
        SourceDtype::F16 => source.data.len() == 2 * element_count(source.shape),
        SourceDtype::BF16 => source.data.len() == 2 * element_count(source.shape),
        SourceDtype::Other => true,
    }
}

/// Why a blob gave no tensors.
#[derive(Debug, Clone, PartialEq, Eq)]
pub enum IngestError {
    /// The blob is no safetensors file; the text says what is wrong with it.
    InvalidData(String),
}

/// The largest number that the header of a blob may declare: the largest
/// number of the machine, less the longest header and the eight bytes of
/// its length field.
pub open spec fn number_limit() -> nat {
    (usize::MAX - 100_000_008) as nat
}

/// Whether no number of `header` from `i` on is above `limit`. A number is
/// a run of decimal digits outside the strings of the header; a string
/// reaches from a quotation mark to the next one that no backslash stands
/// before. `in_string` and `escaped` say where byte `i` stands, and `run`
/// is the number that the digits right before it spell.
pub open spec fn numbers_within(
    header: Seq<u8>,
    i: int,
    in_string: bool,
    escaped: bool,
    run: nat,
    limit: nat,
) -> bool
    decreases header.len() - i,
{
    if i < 0 || i >= header.len() {
        true
    } else if in_string {
        if escaped {
            numbers_within(header, i + 1, true, false, 0, limit)
        } else if header[i] == 0x5c {
            numbers_within(header, i + 1, true, true, 0, limit)
        } else {
            numbers_within(header, i + 1, header[i] != 0x22, false, 0, limit)
        }
    } else if header[i] == 0x22 {
        numbers_within(header, i + 1, true, false, 0, limit)
    } else if 0x30 <= header[i] <= 0x39 {
        let value = 10 * run + (header[i] - 0x30) as nat;
        value <= limit && numbers_within(header, i + 1, false, false, value, limit)
    } else {
        numbers_within(header, i + 1, false, false, 0, limit)
    }
}

/// Whether the header of a blob declares no number above the limit. The
/// header is what the first eight bytes, a little-endian length, say
/// follows them; a blob too short for it has no header to look at.
pub open spec fn numbers_fit(blob: Seq<u8>) -> bool {
    blob.len() >= 8 && u64_of_le(blob.subrange(0, 8)) <= blob.len() - 8 ==> numbers_within(
        blob.subrange(8, 8 + u64_of_le(blob.subrange(0, 8))),
        0,
        false,
        false,
        0,
        number_limit(),
    )
}

/// Checks that the header of a blob declares no number above the limit.
pub fn check_numbers(blob: &[u8]) -> (ok: bool)
    ensures
        ok == numbers_fit(blob@),
{
    if blob.len() < 8 {
        return true;
    }
    let declared = get_u64(blob, 0);
    if declared > (blob.len() - 8) as u64 {
        return true;
    }
    let header = vstd::slice::slice_subrange(blob, 8, 8 + declared as usize);
    let limit: usize = usize::MAX - 100_000_008;
    let n = header.len();
    let mut in_string = false;
    let mut escaped = false;
    let mut run: usize = 0;
    let mut i: usize = 0;
    while i < n
        invariant
            n == header@.len(),
            i <= n,
            limit == number_limit(),
            run <= limit,
            !in_string ==> !escaped,
            header@ == blob@.subrange(8, 8 + u64_of_le(blob@.subrange(0, 8))),
            blob@.len() >= 8 && u64_of_le(blob@.subrange(0, 8)) <= blob@.len() - 8,
            numbers_within(header@, 0, false, false, 0, limit as nat) == numbers_within(
                header@,
                i as int,
                in_string,
                escaped,
                run as nat,
                limit as nat,
            ),
        decreases n - i,
    {
        let byte = header[i];
        if in_string {
            if escaped {
                escaped = false;
            } else if byte == 0x5c {
                escaped = true;
            } else if byte == 0x22 {
                in_string = false;
            }
            run = 0;
        } else if byte == 0x22 {
            in_string = true;
            run = 0;
        } else if 0x30 <= byte && byte <= 0x39 {
            let digit = (byte - 0x30) as usize;
            assert(run > (limit - digit) / 10 <==> 10 * run + digit > limit);
            if run > (limit - digit) / 10 {
                return false;
            }
            run = 10 * run + digit;
        } else {
            run = 0;
        }
        i += 1;
    }
    true
}

/// `SafeTensors::deserialize` and then `SafeTensors::tensors`: the tensors
/// of the blob, each with its name, element type, shape and bytes. The
/// order in which they come is that of a hash map: nothing is promised of
/// it. `deserialize` accepts a blob only if every tensor holds as many
/// bytes as the product of its shape times the width of its element type.
///
/// `deserialize` adds the end of the last tensor, the length of the header
/// and eight without a check; the sum stays within the machine's numbers
/// where the header, of at most 100,000,000 bytes, declares no number
/// above the limit.
#[verifier::external_body]
fn safetensors_entries(blob: &[u8]) -> (r: Result<Vec<SourceTensor>, safetensors::SafeTensorError>)
    requires
        numbers_fit(blob@),
    ensures
        r matches Ok(entries) ==> forall|i: int|
            0 <= i < entries@.len() ==> sized((#[trigger] entries@[i])@),
{
    let parsed = SafeTensors::deserialize(blob)?;
    let mut entries = Vec::new();
    for (name, view) in parsed.tensors() {
        let dtype = match view.dtype() {
            Dtype::F32 => SourceDtype::F32,
            Dtype::F16 => SourceDtype::F16,
            Dtype::BF16 => SourceDtype::BF16,
            _ => SourceDtype::Other,
        };
        let shape = view.shape().iter().map(|&d| d as u64).collect();
        entries.push(SourceTensor { name, dtype, shape, data: view.data().to_vec() });
    }
    Ok(entries)
}

/// The text of a safetensors error, as its `Display` gives it.
#[verifier::external_body]
fn error_text(error: &safetensors::SafeTensorError) -> (text: String) {
    format!("{}", error)
}

/// Reads the tensors of a safetensors blob, in the order in which the
/// safetensors crate hands them out. Each holds as many bytes as its shape
/// and element type ask for. A blob whose header declares a number above
/// the limit is refused.
pub fn read_safetensors(blob: &[u8]) -> (r: Result<Vec<SourceTensor>, IngestError>)
    ensures
        !numbers_fit(blob@) ==> r is Err,
        r matches Ok(sources) ==> forall|i: int|
            0 <= i < sources@.len() ==> sized((#[trigger] sources@[i])@),
{
    if !check_numbers(blob) {
        return Err(
            IngestError::InvalidData("the header declares a number too large".to_owned()),
        );
    }
    let outcome = safetensors_entries(blob);
    sources_or_error(outcome)
}

/// The bits of the single-precision float that a bfloat16 element stands
/// for: its two bytes, the low one first, are the high half of the bits.
pub open spec fn brain_bits(lo: u8, hi: u8) -> u32 {
    (0x1_0000 * (lo as int) + 0x100_0000 * (hi as int)) as u32
}

/// The bits of a bfloat16 element, widened to single precision.
pub fn widen_brain(lo: u8, hi: u8) -> (bits: u32)
    ensures
        bits == brain_bits(lo, hi),
{
    assert(((hi as u32) << 24) | ((lo as u32) << 16) == 0x1_0000 * (lo as u32) + 0x100_0000 * (
    hi as u32)) by (bit_vector);
    ((hi as u32) << 24) | ((lo as u32) << 16)
}

/// The 16-bit element `i` of `data`, little-endian.
pub open spec fn half_word(data: Seq<u8>, i: int) -> u16 {
    u16_of_le(data.subrange(2 * i, 2 * i + 2))
}

/// The bfloat16 elements of `data`, widened. A last odd byte is left out.
pub open spec fn brain_widened(data: Seq<u8>) -> Seq<u32> {
    Seq::new(data.len() / 2, |i: int| brain_bits(data[2 * i], data[2 * i + 1]))
}

/// Whether `bits` are the half-precision elements of `data`, each widened
/// by `widen`. A last odd byte is left out.
pub open spec fn half_widened<F: Fn(u16) -> u32>(widen: F, data: Seq<u8>, bits: Seq<u32>) -> bool {
    &&& bits.len() == data.len() / 2
    &&& forall|i: int|
        0 <= i < bits.len() ==> call_ensures(widen, (half_word(data, i),), #[trigger] bits[i])
}

/// Whether `payload` is what becomes of the bytes of `source`: raw floats
/// as they are, bfloat16 and half-precision elements widened to raw floats.
pub open spec fn payload_matches<F: Fn(u16) -> u32>(
    widen: F,
    source: SourceView,
    payload: Seq<u8>,
) -> bool {
    match source.dtype {
        SourceDtype::F32 => payload == source.data,
        SourceDtype::BF16 => payload == f32_encoded(brain_widened(source.data)),
        SourceDtype::F16 => exists|bits: Seq<u32>|
            half_widened(widen, source.data, bits) && payload == f32_encoded(bits),
        SourceDtype::Other => false,
    }
}

/// Whether `tensor` is what becomes of `source`: a tensor of raw floats
/// with the name and shape of the source.
pub open spec fn tensor_matches<F: Fn(u16) -> u32>(
    widen: F,
    source: SourceView,
    tensor: TensorView,
) -> bool {
    &&& tensor.name == source.name
    &&& tensor.type_id == TYPE_F32
    &&& tensor.dims == source.shape
    &&& tensor.offset == 0
    &&& payload_matches(widen, source, tensor.values)
}

/// Whether `tensors` are what becomes of `sources`: one tensor for each
/// source of a type that is taken over, in the order of the sources.
pub open spec fn tensors_match<F: Fn(u16) -> u32>(
    widen: F,
    sources: Seq<SourceView>,
    tensors: Seq<TensorView>,
) -> bool
    decreases sources.len(),
{
    if sources.len() == 0 {
        tensors.len() == 0
    } else if sources.last().dtype is Other {
        tensors_match(widen, sources.drop_last(), tensors)
    } else {
        &&& tensors.len() > 0
        &&& tensors_match(widen, sources.drop_last(), tensors.drop_last())
        &&& tensor_matches(widen, sources.last(), tensors.last())
    }
}

/// A source tensor of the right size becomes a payload of four bytes for
/// each element.
proof fn lemma_converted_len<F: Fn(u16) -> u32>(widen: F, source: SourceView)
    ensures
        forall|payload: Seq<u8>|
            sized(source) && #[trigger] payload_matches(widen, source, payload) ==> payload.len()
                == 4 * element_count(source.shape),
{
    assert forall|payload: Seq<u8>|
        sized(source) && #[trigger] payload_matches(widen, source, payload) implies payload.len()
        == 4 * element_count(source.shape) by {
        match source.dtype {
            SourceDtype::BF16 => {
                lemma_f32_round_trip(brain_widened(source.data));
            },
            SourceDtype::F16 => {
                let bits = choose|bits: Seq<u32>|
                    half_widened(widen, source.data, bits) && payload == f32_encoded(bits);
                lemma_f32_round_trip(bits);
            },
            _ => {},
        }
    }
}

/// Whether no source holds half-precision or bfloat16 elements.
pub open spec fn all_single(sources: Seq<SourceView>) -> bool {
    forall|i: int|
        0 <= i < sources.len() ==> !((#[trigger] sources[i]).dtype is F16) && !(sources[i].dtype
            is BF16)
}

/// Widens bfloat16 elements to raw floats.
fn convert_brain(data: &[u8]) -> (bits: Vec<u32>)
    ensures
        bits@ == brain_widened(data@),
{
    let len = data.len();
    let count = len / 2;
    let mut bits: Vec<u32> = Vec::new();
    let mut i: usize = 0;
    while i < count
        invariant
            len == data@.len(),
            count == len / 2,
            i <= count,
            bits@ == brain_widened(data@).take(i as int),
        decreases count - i,
    {
        bits.push(widen_brain(data[2 * i], data[2 * i + 1]));
        assert(bits@ =~= brain_widened(data@).take(i + 1));
        i += 1;
    }
    assert(brain_widened(data@).take(i as int) =~= brain_widened(data@));
    bits
}

/// Widens half-precision elements to raw floats with `widen`.
fn convert_half<F: Fn(u16) -> u32>(data: &[u8], widen: &F) -> (bits: Vec<u32>)
    requires
        forall|h: u16| call_requires(*widen, (h,)),
    ensures
        half_widened(*widen, data@, bits@),
{
    let len = data.len();
    let count = len / 2;
    let mut bits: Vec<u32> = Vec::new();
    let mut i: usize = 0;
    while i < count
        invariant
            len == data@.len(),
            count == len / 2,
            i <= count,
            forall|h: u16| call_requires(*widen, (h,)),
            bits@.len() == i,
            forall|k: int|
                0 <= k < i ==> call_ensures(*widen, (half_word(data@, k),), #[trigger] bits@[k]),
        decreases count - i,
    {
        let word = get_u16(data, 2 * i);
        bits.push(widen(word));
        i += 1;
    }
    bits
}

/// Makes a tensor of raw floats of a source tensor, or nothing of one of a
/// type that is not taken over. `widen` gives the bits of the
/// single-precision float that equals a half-precision float, given by its
/// bits.
pub fn convert_tensor<F: Fn(u16) -> u32>(source: &SourceTensor, widen: &F) -> (r: Option<
    GGUFTensor,
>)
    requires
        forall|h: u16| call_requires(*widen, (h,)),
    ensures
        r is None <==> source.dtype is Other,
        r matches Some(tensor) ==> tensor_matches(*widen, source@, tensor@),
        r matches Some(tensor) ==> sized(source@) ==> tensor.values@.len() == 4 * element_count(
            tensor.dims@,
        ),
{
    proof {
        lemma_converted_len(*widen, source@);
    }
    let values = match source.dtype {
        SourceDtype::F32 => source.data.clone(),
        SourceDtype::BF16 => encode_f32(convert_brain(source.data.as_slice()).as_slice()),
        SourceDtype::F16 => encode_f32(convert_half(source.data.as_slice(), widen).as_slice()),
        SourceDtype::Other => {
            return None;
        },
    };
    let dims = source.shape.clone();
    assert(dims@ =~= source.shape@);
    assert(payload_matches(*widen, source@, values@));
    Some(GGUFTensor { name: source.name.clone(), type_id: TYPE_F32, dims, offset: 0, values })
}

/// Makes tensors of raw floats of source tensors, in their order. Sources
/// of a type that is not taken over are left out. The flag says whether no
/// source had to be widened.
pub fn convert_tensors<F: Fn(u16) -> u32>(sources: &[SourceTensor], widen: &F) -> (r: (
    Vec<GGUFTensor>,
    bool,
))
    requires
        forall|h: u16| call_requires(*widen, (h,)),
    ensures
        tensors_match(*widen, source_views(sources@), crate::types::tensor_views(r.0@)),
        r.1 == all_single(source_views(sources@)),
        (forall|i: int| 0 <= i < sources@.len() ==> sized((#[trigger] sources@[i])@)) ==> forall|
            k: int,
        |
            0 <= k < r.0@.len() ==> (#[trigger] r.0@[k]).values@.len() == 4 * element_count(
                r.0@[k].dims@,
            ),
{
    let ghost views = source_views(sources@);
    let mut tensors: Vec<GGUFTensor> = Vec::new();
    let mut all_f32 = true;
    let mut i: usize = 0;
    proof {
        assert(views.take(0) =~= Seq::<SourceView>::empty());
    }
    while i < sources.len()
        invariant
            i <= sources@.len(),
            views == source_views(sources@),
            forall|h: u16| call_requires(*widen, (h,)),
            tensors_match(*widen, views.take(i as int), crate::types::tensor_views(tensors@)),
            all_f32 == all_single(views.take(i as int)),
            (forall|j: int| 0 <= j < sources@.len() ==> sized((#[trigger] sources@[j])@))
                ==> forall|k: int|
                0 <= k < tensors@.len() ==> (#[trigger] tensors@[k]).values@.len() == 4
                    * element_count(tensors@[k].dims@),
        decreases sources@.len() - i,
    {
        let source = &sources[i];
        let ghost before = crate::types::tensor_views(tensors@);
        proof {
            assert(views.take(i + 1).drop_last() =~= views.take(i as int));
            assert(views.take(i + 1).last() == source@);
        }
        match source.dtype {
            SourceDtype::F16 => {
                all_f32 = false;
            },
            SourceDtype::BF16 => {
                all_f32 = false;
            },
            _ => {},
        }
        proof {
            if all_single(views.take(i as int)) && !(source.dtype is F16) && !(source.dtype
                is BF16) {
                assert forall|k: int| 0 <= k < i + 1 implies !((#[trigger] views.take(
                    i + 1,
                )[k]).dtype is F16) && !(views.take(i + 1)[k].dtype is BF16) by {
                    if k < i {
                        assert(views.take(i as int)[k] == views.take(i + 1)[k]);
                    }
                }
            } else if all_single(views.take(i + 1)) {
                assert forall|k: int| 0 <= k < i implies !((#[trigger] views.take(
                    i as int,
                )[k]).dtype is F16) && !(views.take(i as int)[k].dtype is BF16) by {
                    assert(views.take(i as int)[k] == views.take(i + 1)[k]);
                }
                assert(views.take(i + 1)[i as int] == source@);
            }
        }
        match convert_tensor(source, widen) {
            Some(tensor) => {
                tensors.push(tensor);
                proof {
                    let after = crate::types::tensor_views(tensors@);
                    assert(after.drop_last() =~= before);
                }
            },
            None => {},
        }
        i += 1;
    }
    proof {
        assert(views.take(i as int) =~= views);
    }
    (tensors, all_f32)
}

/// Reads a safetensors blob and makes tensors of raw floats of its
/// tensors. `widen` gives the bits of the single-precision float that
/// equals a half-precision float, given by its bits. The flag says whether
/// no tensor had to be widened.
pub fn load_tensors_from_safetensors<F: Fn(u16) -> u32>(blob: &[u8], widen: &F) -> (r: Result<
    (Vec<GGUFTensor>, bool),
    IngestError,
>)
    requires
        forall|h: u16| call_requires(*widen, (h,)),
    ensures
        r matches Ok((tensors, all_f32)) ==> exists|sources: Seq<SourceView>|
            tensors_match(*widen, sources, crate::types::tensor_views(tensors@)) && all_f32
                == all_single(sources),
        r matches Ok((tensors, _)) ==> forall|k: int|
            0 <= k < tensors@.len() ==> (#[trigger] tensors@[k]).values@.len() == 4 * element_count(
                tensors@[k].dims@,
            ),
        !numbers_fit(blob@) ==> r is Err,
{
    match read_safetensors(blob) {
        Ok(sources) => {
            let converted = convert_tensors(sources.as_slice(), widen);
            assert(tensors_match(
                *widen,
                source_views(sources@),
                crate::types::tensor_views(converted.0@),
            ));
            Ok(converted)
        },
        Err(e) => Err(e),
    }
}

/// What this library makes of the outcome of the safetensors crate: the
/// tensors as they came where the crate accepted the blob, and else an
/// error of this library's own that holds the text of the crate's error.
pub fn sources_or_error(outcome: Result<Vec<SourceTensor>, safetensors::SafeTensorError>) -> (r:
    Result<Vec<SourceTensor>, IngestError>)
    ensures
        match outcome {
            Ok(sources) => r == Ok::<Vec<SourceTensor>, IngestError>(sources),
            Err(_) => r is Err,
        },
{
    match outcome {
        Ok(sources) => Ok(sources),
        Err(error) => Err(IngestError::InvalidData(error_text(&error))),
    }
}

} // verus!
