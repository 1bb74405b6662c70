//! Encoding quantized blocks.
//!
//! A block is up to 32 elements that share a scale and a zero. The levels
//! of a block are computed elsewhere, in floating point; here they are
//! packed into the bytes of a payload.

use crate::decoder::{element_count, f32_decoded, try_decode_f32, DecodeError};
use crate::le::{put_u32, u32_le};
use crate::metadata::Metadata;
use crate::text::{compare_keys, Order};
use crate::types::{GGUFTensor, GGUFValue, TensorView, ValueView, TYPE_Q4_0, TYPE_Q5_1};
use crate::wire::lemma_flatten_take;
use vstd::prelude::*;
use vstd::slice::{slice_subrange, slice_to_vec};

verus! {

/// The number of elements of a full block.
pub const BLOCK_SIZE: usize = 32;

/// A block of quantized elements: the bits of its scale and of its zero,
/// and the level of each element.
#[derive(Debug, Clone, PartialEq, Eq)]
pub struct QuantBlock {
    pub scale: u32,
    pub zero: u32,
    pub levels: Vec<u8>,
}

/// What a `QuantBlock` holds, as a mathematical value.
pub struct BlockView {
    pub scale: u32,
    pub zero: u32,
    pub levels: Seq<u8>,
}

impl View for QuantBlock {
    type V = BlockView;

    open spec fn view(&self) -> BlockView {
        BlockView { scale: self.scale, zero: self.zero, levels: self.levels@ }
    }
}

/// The views of a list of blocks.
pub open spec fn block_views(blocks: Seq<QuantBlock>) -> Seq<BlockView> {
    Seq::new(blocks.len(), |i: int| blocks[i]@)
}

/// The level at `k`, or 0 behind the last level.
pub open spec fn level_at(levels: Seq<u8>, k: int) -> u8 {
    if 0 <= k < levels.len() {
        levels[k]
    } else {
        0u8
    }
}

/// A byte of two 4-bit levels: the first in the low half. A level counts
/// by its low four bits.
pub open spec fn two_levels(first: u8, second: u8) -> u8 {
    (first & 0x0f) | ((second & 0x0f) << 4)
}

/// The bytes of 4-bit levels: two levels to a byte, and a last byte with
/// one level where their number is odd.
pub open spec fn q4_packed(levels: Seq<u8>) -> Seq<u8> {
    Seq::new(
        ((levels.len() + 1) / 2) as nat,
        |i: int| two_levels(level_at(levels, 2 * i), level_at(levels, 2 * i + 1)),
    )
}

/// Eight bits out of three 5-bit levels that follow each other, the first
/// lowest. A level counts by its low five bits.
pub open spec fn eight_bits(a: u8, b: u8, c: u8, shift: u8) -> u8 {
    (((((a & 0x1f) as u32) | (((b & 0x1f) as u32) << 5) | (((c & 0x1f) as u32) << 10)) >> shift)
        & 0xff) as u8
}

/// The byte `i` of packed 5-bit levels: the bits `8i` to `8i + 7` of the
/// levels laid end to end, the first level lowest.
pub open spec fn q5_byte(levels: Seq<u8>, i: int) -> u8 {
    let first = (8 * i) / 5;
    let shift = (8 * i) % 5;
    eight_bits(
        level_at(levels, first),
        level_at(levels, first + 1),
        level_at(levels, first + 2),
        shift as u8,
    )
}

/// The bytes of 5-bit levels: as many as hold all their bits.
pub open spec fn q5_packed(levels: Seq<u8>) -> Seq<u8> {
    Seq::new(((5 * levels.len() + 7) / 8) as nat, |i: int| q5_byte(levels, i))
}

/// A block of 4-bit levels on the wire: scale, zero, packed levels.
pub open spec fn q4_0_block(block: BlockView) -> Seq<u8> {
    u32_le(block.scale) + u32_le(block.zero) + q4_packed(block.levels)
}

/// A block of 5-bit levels on the wire: scale, zero, packed levels.
pub open spec fn q5_1_block(block: BlockView) -> Seq<u8> {
    u32_le(block.scale) + u32_le(block.zero) + q5_packed(block.levels)
}

/// The payload of a tensor of 4-bit blocks.
pub open spec fn q4_0_encoded(blocks: Seq<BlockView>) -> Seq<u8> {
    Seq::new(blocks.len(), |i: int| q4_0_block(blocks[i])).flatten()
}

/// The payload of a tensor of 5-bit blocks.
pub open spec fn q5_1_encoded(blocks: Seq<BlockView>) -> Seq<u8> {
    Seq::new(blocks.len(), |i: int| q5_1_block(blocks[i])).flatten()
}

/// Packs 4-bit levels two to a byte, the first of a pair in the low half.
pub fn pack_q4(out: &mut Vec<u8>, levels: &[u8])
    ensures
        final(out)@ == old(out)@ + q4_packed(levels@),
{
    let n = levels.len();
    let count = n / 2 + n % 2;
    let mut i: usize = 0;
    let ghost packed = q4_packed(levels@);
    while i < count
        invariant
            n == levels@.len(),
            count == (n + 1) / 2,
            i <= count,
            packed == q4_packed(levels@),
            out@ == old(out)@ + packed.take(i as int),
        decreases count - i,
    {
        let first = levels[2 * i];
        let byte = if n - 2 * i >= 2 {
            (first & 0x0f) | ((levels[2 * i + 1] & 0x0f) << 4)
        } else {
            assert((first & 0x0f) | ((0u8 & 0x0f) << 4) == first & 0x0f) by (bit_vector);
            first & 0x0f
        };
        out.push(byte);
        assert(out@ =~= old(out)@ + packed.take(i + 1));
        i += 1;
    }
    assert(packed.take(i as int) =~= packed);
}

/// The bits of the two levels before the next one that no byte has taken
/// yet, when `bits` of them are left.
spec fn pending(before: u8, last: u8, bits: u32) -> u64 {
    (((before & 0x1f) as u64) | (((last & 0x1f) as u64) << 5)) >> ((10 - bits) as u64)
}

/// The bits of three levels that no byte has taken yet, when `bits` of
/// them are left.
spec fn gathered(before: u8, last: u8, level: u8, bits: u32) -> u64 {
    (((before & 0x1f) as u64) | (((last & 0x1f) as u64) << 5) | (((level & 0x1f) as u64) << 10))
        >> ((15 - bits) as u64)
}

/// Shifting a level in above the bits that are left gives the bits of all
/// three levels.
proof fn lemma_gather(before: u8, last: u8, level: u8, bits: u32)
    requires
        bits <= 7,
    ensures
        pending(before, last, bits) | (((level & 0x1f) as u64) << bits) == gathered(
            before,
            last,
            level,
            (bits + 5) as u32,
        ),
{
    assert(pending(before, last, bits) | (((level & 0x1f) as u64) << bits) == gathered(
        before,
        last,
        level,
        (bits + 5) as u32,
    )) by (bit_vector)
        requires
            bits <= 7,
    ;
}

/// The low eight bits that are left are the next byte; taking them leaves
/// the bits above them.
proof fn lemma_gathered_byte(before: u8, last: u8, level: u8, next: u8, bits: u32)
    requires
        8 <= bits <= 12,
    ensures
        gathered(before, last, level, bits) & 0xff < 256,
        bits > 10 ==> (gathered(before, last, level, bits) & 0xff) as u8 == eight_bits(
            before,
            last,
            level,
            (15 - bits) as u8,
        ),
        bits <= 10 ==> (gathered(before, last, level, bits) & 0xff) as u8 == eight_bits(
            last,
            level,
            next,
            (10 - bits) as u8,
        ),
        gathered(before, last, level, bits) >> 8 == pending(last, level, (bits - 8) as u32),
{
    assert(gathered(before, last, level, bits) & 0xff < 256) by (bit_vector);
    if bits > 10 {
        assert((gathered(before, last, level, bits) & 0xff) as u8 == eight_bits(
            before,
            last,
            level,
            (15 - bits) as u8,
        )) by (bit_vector)
            requires
                10 < bits <= 12,
        ;
    } else {
        assert((gathered(before, last, level, bits) & 0xff) as u8 == eight_bits(
            last,
            level,
            next,
            (10 - bits) as u8,
        )) by (bit_vector)
            requires
                8 <= bits <= 10,
        ;
    }
    assert(gathered(before, last, level, bits) >> 8 == pending(last, level, (bits - 8) as u32))
        by (bit_vector)
        requires
            8 <= bits <= 12,
    ;
}

/// Fewer than eight bits that are left come from the last two levels.
proof fn lemma_gathered_kept(before: u8, last: u8, level: u8, bits: u32)
    requires
        5 <= bits <= 7,
    ensures
        gathered(before, last, level, bits) == pending(last, level, bits),
{
    assert(gathered(before, last, level, bits) == pending(last, level, bits)) by (bit_vector)
        requires
            5 <= bits <= 7,
    ;
}

/// The bits that are left at the end are the last byte.
proof fn lemma_pending_byte(before: u8, last: u8, bits: u32)
    requires
        1 <= bits <= 7,
    ensures
        pending(before, last, bits) < 256,
        bits > 5 ==> pending(before, last, bits) as u8 == eight_bits(
            before,
            last,
            0,
            (10 - bits) as u8,
        ),
        bits <= 5 ==> pending(before, last, bits) as u8 == eight_bits(
            last,
            0,
            0,
            (5 - bits) as u8,
        ),
{
    assert(pending(before, last, bits) < 256) by (bit_vector)
        requires
            1 <= bits <= 7,
    ;
    if bits > 5 {
        assert(pending(before, last, bits) as u8 == eight_bits(before, last, 0, (10 - bits) as u8))
            by (bit_vector)
            requires
                5 < bits <= 7,
        ;
    } else {
        assert(pending(before, last, bits) as u8 == eight_bits(last, 0, 0, (5 - bits) as u8))
            by (bit_vector)
            requires
                1 <= bits <= 5,
        ;
    }
}

/// Packs 5-bit levels: each level is shifted into an accumulator above the
/// bits that are left in it, full bytes are taken from its low end, and
/// the bits left at the end make a last byte.
pub fn pack_q5(out: &mut Vec<u8>, levels: &[u8])
    ensures
        final(out)@ == old(out)@ + q5_packed(levels@),
{
    let n = levels.len();
    let ghost packed = q5_packed(levels@);
    let ghost base = out@;
    let mut buffer: u64 = 0;
    let mut bits: u32 = 0;
    let mut written: usize = 0;
    let mut a: usize = 0;
    assert(pending(0, 0, 0) == 0) by (bit_vector);
    while a < n
        invariant
            n == levels@.len(),
            a <= n,
            bits <= 7,
            8 * written + bits == 5 * a,
            base == old(out)@,
            packed == q5_packed(levels@),
            buffer == pending(level_at(levels@, a - 2), level_at(levels@, a - 1), bits),
            out@ == base + packed.take(written as int),
        decreases n - a,
    {
        let level = levels[a];
        let ghost before = level_at(levels@, a - 2);
        let ghost last = level_at(levels@, a - 1);
        let ghost next = level_at(levels@, a + 1);
        proof {
            lemma_gather(before, last, level, bits);
        }
        buffer = buffer | (((level & 0x1f) as u64) << bits);
        bits = bits + 5;
        if bits >= 8 {
            proof {
                lemma_gathered_byte(before, last, level, next, bits);
                let i = written as int;
                if bits > 10 {
                    assert(8 * i == 5 * (a - 2) + (15 - bits));
                    assert((8 * i) / 5 == a - 2 && (8 * i) % 5 == 15 - bits);
                } else {
                    assert(8 * i == 5 * (a - 1) + (10 - bits));
                    assert((8 * i) / 5 == a - 1 && (8 * i) % 5 == 10 - bits);
                }
                assert(packed[i] == q5_byte(levels@, i));
            }
            out.push((buffer & 0xff) as u8);
            assert(out@ =~= base + packed.take(written + 1));
            buffer = buffer >> 8;
            bits = bits - 8;
            written = written + 1;
        } else {
            proof {
                lemma_gathered_kept(before, last, level, bits);
            }
        }
        a += 1;
    }
    if bits > 0 {
        proof {
            let before = level_at(levels@, n - 2);
            let last = level_at(levels@, n - 1);
            lemma_pending_byte(before, last, bits);
            let i = written as int;
            if bits > 5 {
                assert(8 * i == 5 * (n - 2) + (10 - bits));
                assert((8 * i) / 5 == n - 2 && (8 * i) % 5 == 10 - bits);
            } else {
                assert(8 * i == 5 * (n - 1) + (5 - bits));
                assert((8 * i) / 5 == n - 1 && (8 * i) % 5 == 5 - bits);
            }
            assert(packed[i] == q5_byte(levels@, i));
        }
        out.push(buffer as u8);
        assert(out@ =~= base + packed.take(written + 1));
        assert(packed.take(written + 1) =~= packed);
    } else {
        assert(packed.take(written as int) =~= packed);
    }
}

/// Encodes blocks of 4-bit levels: each as its scale, its zero and its
/// levels, two to a byte.
pub fn encode_q4_0(blocks: &[QuantBlock]) -> (out: Vec<u8>)
    ensures
        out@ == q4_0_encoded(block_views(blocks@)),
{
    let ghost views = block_views(blocks@);
    let ghost parts = Seq::new(views.len(), |i: int| q4_0_block(views[i]));
    let mut out: Vec<u8> = Vec::new();
    let mut i: usize = 0;
    proof {
        assert(parts.take(0) =~= Seq::<Seq<u8>>::empty());
    }
    while i < blocks.len()
        invariant
            i <= blocks@.len(),
            views == block_views(blocks@),
            parts == Seq::new(views.len(), |i: int| q4_0_block(views[i])),
            out@ == parts.take(i as int).flatten(),
        decreases blocks@.len() - i,
    {
        proof {
            lemma_flatten_take(parts, i as int);
        }
        let ghost before = out@;
        let block = &blocks[i];
        put_u32(&mut out, block.scale);
        put_u32(&mut out, block.zero);
        pack_q4(&mut out, block.levels.as_slice());
        assert(out@ =~= before + q4_0_block(views[i as int]));
        i += 1;
    }
    proof {
        assert(parts.take(i as int) =~= parts);
    }
    out
}

/// Encodes blocks of 5-bit levels: each as its scale, its zero and its
/// packed levels.
pub fn encode_q5_1(blocks: &[QuantBlock]) -> (out: Vec<u8>)
    ensures
        out@ == q5_1_encoded(block_views(blocks@)),
{
    let ghost views = block_views(blocks@);
    let ghost parts = Seq::new(views.len(), |i: int| q5_1_block(views[i]));
    let mut out: Vec<u8> = Vec::new();
    let mut i: usize = 0;
    proof {
        assert(parts.take(0) =~= Seq::<Seq<u8>>::empty());
    }
    while i < blocks.len()
        invariant
            i <= blocks@.len(),
            views == block_views(blocks@),
            parts == Seq::new(views.len(), |i: int| q5_1_block(views[i])),
            out@ == parts.take(i as int).flatten(),
        decreases blocks@.len() - i,
    {
        proof {
            lemma_flatten_take(parts, i as int);
        }
        let ghost before = out@;
        let block = &blocks[i];
        put_u32(&mut out, block.scale);
        put_u32(&mut out, block.zero);
        pack_q5(&mut out, block.levels.as_slice());
        assert(out@ =~= before + q5_1_block(views[i as int]));
        i += 1;
    }
    proof {
        assert(parts.take(i as int) =~= parts);
    }
    out
}

/// The lower-case form of a text, as `str::to_lowercase` gives it.
pub uninterp spec fn lowercased(text: Seq<char>) -> Seq<char>;

/// `str::to_lowercase`: the lower-case form of `text`.
#[verifier::external_body]
fn to_lowercase(text: &str) -> (lower: String)
    ensures
        lower@ == lowercased(text@),
{
    text.to_lowercase()
}

/// A block format, as a user names it.
#[allow(non_camel_case_types)]
#[derive(Debug, Clone, PartialEq, Eq)]
pub enum QuantizationType {
    Q4_0,
    Q5_1,
    /// A name of no format of this library.
    Unknown(String),
}

/// The format that a name in lower case names; `given` is the name as it
/// was given.
pub open spec fn format_named(lowered: Seq<char>, given: String) -> QuantizationType {
    if lowered == "q4_0"@ {
        QuantizationType::Q4_0
    } else if lowered == "q5_1"@ {
        QuantizationType::Q5_1
    } else {
        QuantizationType::Unknown(given)
    }
}

impl QuantizationType {
    /// The name of the format in metadata.
    pub open spec fn name(&self) -> Seq<char> {
        match self {
            QuantizationType::Q4_0 => "Q4_0"@,
            QuantizationType::Q5_1 => "Q5_1"@,
            QuantizationType::Unknown(_) => "Unknown"@,
        }
    }

    /// The type code of tensors in this format, if it is a format of this
    /// library.
    pub open spec fn code(&self) -> Option<u32> {
        match self {
            QuantizationType::Q4_0 => Some(TYPE_Q4_0),
            QuantizationType::Q5_1 => Some(TYPE_Q5_1),
            QuantizationType::Unknown(_) => None,
        }
    }

    /// The highest level of the format, if it is a format of this library.
    pub open spec fn top(&self) -> Option<u8> {
        match self {
            QuantizationType::Q4_0 => Some(15u8),
            QuantizationType::Q5_1 => Some(31u8),
            QuantizationType::Unknown(_) => None,
        }
    }

    /// The name of the format in metadata.
    pub fn as_str(&self) -> (name: &'static str)
        ensures
            name@ == self.name(),
    {
        match self {
            QuantizationType::Q4_0 => "Q4_0",
            QuantizationType::Q5_1 => "Q5_1",
            QuantizationType::Unknown(_) => "Unknown",
        }
    }

    /// The format that `lowered` names, where `lowered` is `given` in
    /// lower case.
    pub fn classify(lowered: &str, given: String) -> (format: QuantizationType)
        ensures
            format == format_named(lowered@, given),
    {
        if compare_keys(lowered, "q4_0") == Order::Same {
            QuantizationType::Q4_0
        } else if compare_keys(lowered, "q5_1") == Order::Same {
            QuantizationType::Q5_1
        } else {
            QuantizationType::Unknown(given)
        }
    }
}

impl From<String> for QuantizationType {
    /// The format that a name names, whatever the case of its letters.
    fn from(given: String) -> (format: QuantizationType) {
        let lowered = to_lowercase(given.as_str());
        QuantizationType::classify(lowered.as_str(), given)
    }
}

impl vstd::std_specs::convert::FromSpecImpl<String> for QuantizationType {
    open spec fn obeys_from_spec() -> bool {
        true
    }

    open spec fn from_spec(given: String) -> QuantizationType {
        format_named(lowercased(given@), given)
    }
}

/// The chunk `i` of `values`: up to 32 of them, from `32 i` on.
pub open spec fn chunk(values: Seq<u32>, i: int) -> Seq<u32> {
    values.subrange(
        32 * i,
        if 32 * i + 32 <= values.len() {
            32 * i + 32
        } else {
            values.len() as int
        },
    )
}

/// The number of chunks of `n` values.
pub open spec fn chunk_count(n: nat) -> nat {
    (n + 31) / 32
}

/// Whether `block` is what `quantize_block` makes of the chunk `i` of
/// `values`, with `top` as the highest level.
pub open spec fn block_matches<F: Fn(Vec<u32>, u8) -> QuantBlock>(
    quantize_block: F,
    values: Seq<u32>,
    top: u8,
    i: int,
    block: QuantBlock,
) -> bool {
    exists|input: Vec<u32>|
        input@ == chunk(values, i) && #[trigger] call_ensures(quantize_block, (input, top), block)
}

/// Whether `blocks` are what `quantize_block` makes of the chunks of
/// `values`, with `top` as the highest level.
pub open spec fn blocks_match<F: Fn(Vec<u32>, u8) -> QuantBlock>(
    quantize_block: F,
    values: Seq<u32>,
    top: u8,
    blocks: Seq<QuantBlock>,
) -> bool {
    &&& blocks.len() == chunk_count(values.len())
    &&& forall|i: int|
        0 <= i < blocks.len() ==> block_matches(
            quantize_block,
            values,
            top,
            i,
            #[trigger] blocks[i],
        )
}

/// Cuts `values` into chunks of 32, the last of which may be shorter, and
/// has `quantize_block` make a block of each.
pub fn quantize_blocks<F: Fn(Vec<u32>, u8) -> QuantBlock>(
    values: &[u32],
    top: u8,
    quantize_block: &F,
) -> (blocks: Vec<QuantBlock>)
    requires
        forall|input: Vec<u32>, top: u8| call_requires(*quantize_block, (input, top)),
    ensures
        blocks_match(*quantize_block, values@, top, blocks@),
{
    let n = values.len();
    let mut blocks: Vec<QuantBlock> = Vec::new();
    let mut start: usize = 0;
    while start < n
        invariant
            n == values@.len(),
            start <= n,
            start % 32 == 0 || start == n,
            forall|input: Vec<u32>, top: u8| call_requires(*quantize_block, (input, top)),
            blocks@.len() == chunk_count(start as nat),
            forall|i: int|
                0 <= i < blocks@.len() ==> block_matches(
                    *quantize_block,
                    values@,
                    top,
                    i,
                    #[trigger] blocks@[i],
                ),
        decreases n - start,
    {
        let end = if n - start > BLOCK_SIZE {
            start + BLOCK_SIZE
        } else {
            n
        };
        let input = slice_to_vec(slice_subrange(values, start, end));
        let ghost i = blocks@.len() as int;
        assert(start == 32 * i);
        assert(input@ == chunk(values@, i));
        let ghost given = input;
        let block = quantize_block(input, top);
        assert(call_ensures(*quantize_block, (given, top), block));
        let ghost before = blocks@;
        blocks.push(block);
        assert forall|k: int| 0 <= k < blocks@.len() implies block_matches(
            *quantize_block,
            values@,
            top,
            k,
            #[trigger] blocks@[k],
        ) by {
            if k < i {
                assert(blocks@[k] == before[k]);
            } else {
                assert(given@ == chunk(values@, k) && call_ensures(
                    *quantize_block,
                    (given, top),
                    blocks@[k],
                ));
            }
        }
        start = end;
    }
    blocks
}

/// Whether `payload` and `code` are what quantizing `values` in `format`
/// gives, with `quantize_block` making the blocks.
pub open spec fn quantized_as<F: Fn(Vec<u32>, u8) -> QuantBlock>(
    quantize_block: F,
    values: Seq<u32>,
    format: QuantizationType,
    payload: Seq<u8>,
    code: u32,
) -> bool {
    match format {
        QuantizationType::Q4_0 => code == TYPE_Q4_0 && exists|blocks: Seq<QuantBlock>|
            blocks_match(quantize_block, values, 15, blocks) && payload == q4_0_encoded(
                block_views(blocks),
            ),
        QuantizationType::Q5_1 => code == TYPE_Q5_1 && exists|blocks: Seq<QuantBlock>|
            blocks_match(quantize_block, values, 31, blocks) && payload == q5_1_encoded(
                block_views(blocks),
            ),
        QuantizationType::Unknown(_) => false,
    }
}

/// Quantizes floats, given by their bits, in blocks of 4-bit levels.
/// `quantize_block` makes a block of the floats of a chunk: its scale, its
/// zero and the level of each float.
pub fn quantize_tensor_q4_0<F: Fn(Vec<u32>, u8) -> QuantBlock>(
    tensor: &[u32],
    quantize_block: &F,
) -> (payload: Vec<u8>)
    requires
        forall|input: Vec<u32>, top: u8| call_requires(*quantize_block, (input, top)),
    ensures
        quantized_as(*quantize_block, tensor@, QuantizationType::Q4_0, payload@, TYPE_Q4_0),
{
    let blocks = quantize_blocks(tensor, 15, quantize_block);
    encode_q4_0(blocks.as_slice())
}

/// Quantizes floats, given by their bits, in blocks of 5-bit levels.
/// `quantize_block` makes a block of the floats of a chunk: its scale, its
/// zero and the level of each float.
pub fn quantize_tensor_q5_1<F: Fn(Vec<u32>, u8) -> QuantBlock>(
    tensor: &[u32],
    quantize_block: &F,
) -> (payload: Vec<u8>)
    requires
        forall|input: Vec<u32>, top: u8| call_requires(*quantize_block, (input, top)),
    ensures
        quantized_as(*quantize_block, tensor@, QuantizationType::Q5_1, payload@, TYPE_Q5_1),
{
    let blocks = quantize_blocks(tensor, 31, quantize_block);
    encode_q5_1(blocks.as_slice())
}

/// Quantizes floats in `format`: the payload and the type code of the
/// tensor that holds it, or nothing where `format` is no format of this
/// library.
pub fn quantize_tensor<F: Fn(Vec<u32>, u8) -> QuantBlock>(
    tensor: &[u32],
    format: &QuantizationType,
    quantize_block: &F,
) -> (r: Option<(Vec<u8>, u32)>)
    requires
        forall|input: Vec<u32>, top: u8| call_requires(*quantize_block, (input, top)),
    ensures
        r is None <==> format is Unknown,
        r matches Some((payload, code)) ==> quantized_as(
            *quantize_block,
            tensor@,
            *format,
            payload@,
            code,
        ),
{
    match format {
        QuantizationType::Q4_0 => Some((quantize_tensor_q4_0(tensor, quantize_block), TYPE_Q4_0)),
        QuantizationType::Q5_1 => Some((quantize_tensor_q5_1(tensor, quantize_block), TYPE_Q5_1)),
        QuantizationType::Unknown(_) => None,
    }
}

/// Why a container was not quantized.
#[derive(Debug, Clone, Copy, PartialEq, Eq, Structural)]
pub enum QuantizeError {
    /// The format is no format of this library.
    UnsupportedFormat,
    /// The payload of the tensor at `tensor` does not decode as raw floats.
    Undecodable { tensor: usize, error: DecodeError },
}

/// Whether `quantized` is what becomes of `tensor`: a fresh tensor with
/// the same name and shape, the type code of `format`, no offset yet, and
/// as payload the floats of `tensor` quantized.
pub open spec fn tensor_quantized<F: Fn(Vec<u32>, u8) -> QuantBlock>(
    quantize_block: F,
    format: QuantizationType,
    tensor: TensorView,
    quantized: TensorView,
) -> bool {
    &&& quantized.name == tensor.name
    &&& quantized.dims == tensor.dims
    &&& quantized.offset == 0
    &&& f32_decoded(tensor.values, element_count(tensor.dims)) matches Ok(floats)
    &&& quantized_as(quantize_block, floats, format, quantized.values, quantized.type_id)
}

/// Records in the metadata that the tensors are quantized, and in which
/// format.
pub fn mark_quantized(metadata: &mut Metadata, format: &QuantizationType)
    requires
        old(metadata).wf(),
    ensures
        final(metadata).wf(),
        final(metadata)@ == old(metadata)@.insert("quantized"@, ValueView::Bool(true)).insert(
            "quantization_format"@,
            ValueView::String(format.name()),
        ),
{
    metadata.insert("quantized".to_owned(), GGUFValue::Bool(true));
    metadata.insert(
        "quantization_format".to_owned(),
        GGUFValue::String(format.as_str().to_owned()),
    );
}

/// Quantizes the tensors of a container: the payload of each is decoded
/// as raw floats and encoded again in `format`, and the metadata records
/// the format. `quantize_block` makes a block of the floats of a chunk.
/// On an error nothing is changed.
pub fn quantize_container<F: Fn(Vec<u32>, u8) -> QuantBlock>(
    metadata: &mut Metadata,
    tensors: &[GGUFTensor],
    format: &QuantizationType,
    quantize_block: &F,
) -> (r: Result<Vec<GGUFTensor>, QuantizeError>)
    requires
        old(metadata).wf(),
        forall|input: Vec<u32>, top: u8| call_requires(*quantize_block, (input, top)),
    ensures
        final(metadata).wf(),
        match r {
            Ok(quantized) => {
                &&& !(format is Unknown)
                &&& quantized@.len() == tensors@.len()
                &&& forall|i: int|
                    0 <= i < tensors@.len() ==> tensor_quantized(
                        *quantize_block,
                        *format,
                        tensors@[i]@,
                        (#[trigger] quantized@[i])@,
                    )
                &&& final(metadata)@ == old(metadata)@.insert(
                    "quantized"@,
                    ValueView::Bool(true),
                ).insert("quantization_format"@, ValueView::String(format.name()))
            },
            Err(QuantizeError::UnsupportedFormat) => format is Unknown && final(metadata)@ == old(
                metadata,
            )@,
            Err(QuantizeError::Undecodable { tensor, error }) => {
                &&& !(format is Unknown)
                &&& tensor < tensors@.len()
                &&& f32_decoded(
                    tensors@[tensor as int].values@,
                    element_count(tensors@[tensor as int].dims@),
                ) == Err::<Seq<u32>, DecodeError>(error)
                &&& forall|i: int|
                    0 <= i < tensor ==> f32_decoded(
                        (#[trigger] tensors@[i]).values@,
                        element_count(tensors@[i].dims@),
                    ) is Ok
                &&& final(metadata)@ == old(metadata)@
            },
        },
{
    match format {
        QuantizationType::Unknown(_) => {
            return Err(QuantizeError::UnsupportedFormat);
        },
        _ => {},
    }
    let mut quantized: Vec<GGUFTensor> = Vec::new();
    let mut i: usize = 0;
    while i < tensors.len()
        invariant
            i <= tensors@.len(),
            !(format is Unknown),
            metadata.wf(),
            metadata@ == old(metadata)@,
            forall|input: Vec<u32>, top: u8| call_requires(*quantize_block, (input, top)),
            quantized@.len() == i,
            forall|k: int|
                0 <= k < i ==> tensor_quantized(
                    *quantize_block,
                    *format,
                    tensors@[k]@,
                    (#[trigger] quantized@[k])@,
                ),
            forall|k: int|
                0 <= k < i ==> f32_decoded(
                    (#[trigger] tensors@[k]).values@,
                    element_count(tensors@[k].dims@),
                ) is Ok,
        decreases tensors@.len() - i,
    {
        let tensor = &tensors[i];
        let floats = match try_decode_f32(tensor.values.as_slice(), tensor.dims.as_slice()) {
            Ok(floats) => floats,
            Err(error) => {
                return Err(QuantizeError::Undecodable { tensor: i, error });
            },
        };
        let (values, type_id) = match quantize_tensor(floats.as_slice(), format, quantize_block) {
            Some(done) => done,
            None => {
                return Err(QuantizeError::UnsupportedFormat);
            },
        };
        let dims = tensor.dims.clone();
        quantized.push(GGUFTensor { name: tensor.name.clone(), type_id, dims, offset: 0, values });
        i += 1;
    }
    mark_quantized(metadata, format);
    Ok(quantized)
}

} // verus!
