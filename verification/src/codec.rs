//! What encoding and decoding promise of each other.

use crate::decoder::{
    f32_decoded, five_bits, least, nibble, q4_0_decoded, q4_0_decoded_from, q5_1_decoded,
    q5_1_decoded_from, q5_levels, scale_valid, DecodeError, Sample,
};
use crate::le::{lemma_u32_le_inverse, put_u32, u32_le, u32_of_le};
use crate::quantize::{
    chunk, chunk_count, eight_bits, level_at, q4_0_block, q4_0_encoded, q4_packed, q5_1_block,
    q5_1_encoded, q5_byte, q5_packed, two_levels, BlockView,
};
use crate::wire::{holds_at, lemma_flatten_take, lemma_holds_split};
use vstd::prelude::*;

verus! {

/// The payload of a tensor of raw floats: the four little-endian bytes of
/// each bit pattern.
pub open spec fn f32_encoded(values: Seq<u32>) -> Seq<u8> {
    Seq::new(values.len(), |i: int| u32_le(values[i])).flatten()
}

/// Encodes floats, given by their bits, as a raw payload.
pub fn encode_f32(values: &[u32]) -> (out: Vec<u8>)
    ensures
        out@ == f32_encoded(values@),
{
    let ghost parts = Seq::new(values@.len(), |i: int| u32_le(values@[i]));
    let mut out: Vec<u8> = Vec::new();
    let mut i: usize = 0;
    proof {
        assert(parts.take(0) =~= Seq::<Seq<u8>>::empty());
    }
    while i < values.len()
        invariant
            i <= values@.len(),
            parts == Seq::new(values@.len(), |i: int| u32_le(values@[i])),
            out@ == parts.take(i as int).flatten(),
        decreases values@.len() - i,
    {
        proof {
            lemma_flatten_take(parts, i as int);
        }
        put_u32(&mut out, values[i]);
        i += 1;
    }
    proof {
        assert(parts.take(i as int) =~= parts);
    }
    out
}

/// Parts of one width, laid end to end: part `i` stands at `i` times the
/// width.
proof fn lemma_flatten_chunks(parts: Seq<Seq<u8>>, width: nat, i: int)
    requires
        forall|j: int| 0 <= j < parts.len() ==> (#[trigger] parts[j]).len() == width,
        0 <= i < parts.len(),
    ensures
        parts.flatten().len() == width * parts.len(),
        holds_at(parts.flatten(), width * i, parts[i]),
    decreases parts.len(),
{
    let rest = parts.drop_first();
    assert(parts.flatten() == parts[0] + rest.flatten());
    assert forall|j: int| 0 <= j < rest.len() implies (#[trigger] rest[j]).len() == width by {
        assert(rest[j] == parts[j + 1]);
    }
    if rest.len() > 0 {
        lemma_flatten_chunks(rest, width, if i > 0 {
            i - 1
        } else {
            0
        });
    } else {
        assert(rest.flatten() =~= Seq::<u8>::empty());
    }
    assert(width * parts.len() == width + width * rest.len()) by (nonlinear_arith)
        requires
            parts.len() == rest.len() + 1,
    ;
    let whole = parts.flatten();
    if i == 0 {
        assert(width * i == 0) by (nonlinear_arith)
            requires
                i == 0,
        ;
        assert(whole.subrange(0, width as int) =~= parts[0]);
    } else {
        assert(width * i == width + width * (i - 1)) by (nonlinear_arith);
        assert(width * (i - 1) + width <= width * rest.len()) by (nonlinear_arith)
            requires
                i - 1 < rest.len(),
        ;
        let at = width * (i - 1);
        assert(whole.subrange(width + at, width + at + width) =~= rest.flatten().subrange(
            at,
            at + width,
        ));
    }
}

/// Raw floats survive encoding and decoding bit for bit, and `n` of them
/// take `4n` bytes.
pub proof fn lemma_f32_round_trip(values: Seq<u32>)
    ensures
        f32_encoded(values).len() == 4 * values.len(),
        f32_decoded(f32_encoded(values), values.len()) == Ok::<Seq<u32>, DecodeError>(values),
{
    let parts = Seq::new(values.len(), |i: int| u32_le(values[i]));
    let bytes = f32_encoded(values);
    assert forall|j: int| 0 <= j < parts.len() implies (#[trigger] parts[j]).len() == 4 by {
        lemma_u32_le_inverse(values[j]);
    }
    if values.len() > 0 {
        lemma_flatten_chunks(parts, 4, 0);
    } else {
        assert(parts =~= Seq::<Seq<u8>>::empty());
    }
    let decoded = Seq::new(values.len(), |i: int| u32_of_le(bytes.subrange(4 * i, 4 * i + 4)));
    assert forall|i: int| 0 <= i < values.len() implies decoded[i] == values[i] by {
        lemma_flatten_chunks(parts, 4, i);
        lemma_u32_le_inverse(values[i]);
    }
    assert(decoded =~= values);
}

/// The elements that a block stands for.
pub open spec fn block_samples(block: BlockView) -> Seq<Sample> {
    Seq::new(
        block.levels.len(),
        |k: int| Sample { scale: block.scale, zero: block.zero, level: block.levels[k] },
    )
}

/// The elements that a list of blocks stands for.
pub open spec fn all_samples(blocks: Seq<BlockView>) -> Seq<Sample> {
    Seq::new(blocks.len(), |i: int| block_samples(blocks[i])).flatten()
}

/// Whether `blocks` are cut like the blocks of one tensor: each but the
/// last holds 32 elements, and the last at least one and at most 32.
pub open spec fn blocks_shaped(blocks: Seq<BlockView>) -> bool {
    forall|i: int|
        0 <= i < blocks.len() ==> {
            &&& 1 <= (#[trigger] blocks[i]).levels.len() <= 32
            &&& (i + 1 < blocks.len() ==> blocks[i].levels.len() == 32)
        }
}

/// Whether `blocks` are the blocks of one tensor: they are cut like them,
/// and each has a scale that a decoder accepts and levels of at most `top`.
pub open spec fn blocks_of_tensor(blocks: Seq<BlockView>, top: u8) -> bool {
    &&& blocks_shaped(blocks)
    &&& forall|i: int|
        0 <= i < blocks.len() ==> {
            &&& scale_valid((#[trigger] blocks[i]).scale)
            &&& forall|k: int| 0 <= k < blocks[i].levels.len() ==> blocks[i].levels[k] <= top
        }
}

/// The length of a block of `k` 4-bit levels: 24 bytes for a full one.
pub open spec fn q4_0_block_len(k: nat) -> nat {
    8 + (k + 1) / 2
}

/// The length of a block of `k` 5-bit levels: 28 bytes for a full one.
pub open spec fn q5_1_block_len(k: nat) -> nat {
    8 + (5 * k + 7) / 8
}

/// The length of the payload of `n` elements in blocks of 4-bit levels.
pub open spec fn q4_0_len(n: nat) -> nat {
    24 * (n / 32) + if n % 32 == 0 {
        0
    } else {
        q4_0_block_len(n % 32)
    }
}

/// The length of the payload of `n` elements in blocks of 5-bit levels.
pub open spec fn q5_1_len(n: nat) -> nat {
    28 * (n / 32) + if n % 32 == 0 {
        0
    } else {
        q5_1_block_len(n % 32)
    }
}

/// The blocks of a tensor are its first block and the blocks of a tensor:
/// so are their elements and their encodings.
proof fn lemma_blocks_front(blocks: Seq<BlockView>)
    requires
        blocks.len() > 0,
        blocks_shaped(blocks),
    ensures
        blocks_shaped(blocks.drop_first()),
        all_samples(blocks) == block_samples(blocks[0]) + all_samples(blocks.drop_first()),
        q4_0_encoded(blocks) == q4_0_block(blocks[0]) + q4_0_encoded(blocks.drop_first()),
        q5_1_encoded(blocks) == q5_1_block(blocks[0]) + q5_1_encoded(blocks.drop_first()),
        blocks.len() == 1 ==> all_samples(blocks.drop_first()) == Seq::<Sample>::empty()
            && q4_0_encoded(blocks.drop_first()) == Seq::<u8>::empty() && q5_1_encoded(
            blocks.drop_first(),
        ) == Seq::<u8>::empty(),
        blocks.len() > 1 ==> blocks[0].levels.len() == 32 && all_samples(
            blocks.drop_first(),
        ).len() >= 1,
{
    let rest = blocks.drop_first();
    assert forall|i: int| 0 <= i < rest.len() implies {
        &&& 1 <= (#[trigger] rest[i]).levels.len() <= 32
        &&& (i + 1 < rest.len() ==> rest[i].levels.len() == 32)
    } by {
        assert(rest[i] == blocks[i + 1]);
    }
    assert(Seq::new(blocks.len(), |i: int| block_samples(blocks[i])).drop_first() =~= Seq::new(
        rest.len(),
        |i: int| block_samples(rest[i]),
    ));
    assert(Seq::new(blocks.len(), |i: int| q4_0_block(blocks[i])).drop_first() =~= Seq::new(
        rest.len(),
        |i: int| q4_0_block(rest[i]),
    ));
    assert(Seq::new(blocks.len(), |i: int| q5_1_block(blocks[i])).drop_first() =~= Seq::new(
        rest.len(),
        |i: int| q5_1_block(rest[i]),
    ));
    if blocks.len() > 1 {
        assert(blocks[0].levels.len() == 32);
        let parts = Seq::new(rest.len(), |i: int| block_samples(rest[i]));
        assert(parts.flatten() == parts[0] + parts.drop_first().flatten());
        assert(rest[0] == blocks[1]);
    }
}

/// Without the first block the blocks of a tensor are still blocks of a
/// tensor.
proof fn lemma_blocks_rest(blocks: Seq<BlockView>, top: u8)
    requires
        blocks.len() > 0,
        blocks_of_tensor(blocks, top),
    ensures
        blocks_of_tensor(blocks.drop_first(), top),
{
    let rest = blocks.drop_first();
    lemma_blocks_front(blocks);
    assert forall|i: int| 0 <= i < rest.len() implies {
        &&& scale_valid((#[trigger] rest[i]).scale)
        &&& forall|k: int| 0 <= k < rest[i].levels.len() ==> rest[i].levels[k] <= top
    } by {
        assert(rest[i] == blocks[i + 1]);
    }
}

/// The halves of a byte of two levels are the two levels.
proof fn lemma_nibbles(first: u8, second: u8)
    ensures
        nibble(two_levels(first, second), 0) == first & 0x0f,
        nibble(two_levels(first, second), 1) == second & 0x0f,
        first <= 15 ==> first & 0x0f == first,
        second <= 15 ==> second & 0x0f == second,
{
    assert(((first & 0x0f) | ((second & 0x0f) << 4)) % 16 == first & 0x0f && ((first & 0x0f) | ((
    second & 0x0f) << 4)) / 16 == second & 0x0f) by (bit_vector);
    assert((first <= 15 ==> first & 0x0f == first) && (second <= 15 ==> second & 0x0f == second))
        by (bit_vector);
}

/// Unpacking 4-bit levels gives back each level that was packed.
pub proof fn lemma_q4_level(levels: Seq<u8>, k: int)
    requires
        0 <= k < levels.len(),
        levels[k] <= 15,
    ensures
        k / 2 < q4_packed(levels).len(),
        nibble(q4_packed(levels)[k / 2], k) == levels[k],
{
    let i = k / 2;
    lemma_nibbles(level_at(levels, 2 * i), level_at(levels, 2 * i + 1));
}

/// A level comes back from the one or two packed bytes that hold its
/// bits, wherever in a byte it starts.
proof fn lemma_five_of_eight(a: u8, b: u8, c: u8, d: u8, e: u8, f: u8, h: u8)
    ensures
        five_bits(eight_bits(a, b, c, 0), h, 0) == a & 0x1f,
        five_bits(eight_bits(a, b, c, 0), eight_bits(b, c, d, 3), 5) == b & 0x1f,
        five_bits(eight_bits(a, b, c, 3), h, 2) == b & 0x1f,
        five_bits(eight_bits(a, b, c, 3), eight_bits(c, d, e, 1), 7) == c & 0x1f,
        five_bits(eight_bits(a, b, c, 1), eight_bits(b, c, d, 4), 4) == b & 0x1f,
        five_bits(eight_bits(a, b, c, 4), h, 1) == b & 0x1f,
        five_bits(eight_bits(a, b, c, 4), eight_bits(c, d, e, 2), 6) == c & 0x1f,
        five_bits(eight_bits(a, b, c, 2), h, 3) == b & 0x1f,
        a <= 31 ==> a & 0x1f == a,
{
    assert(five_bits(eight_bits(a, b, c, 0), h, 0) == a & 0x1f) by (bit_vector);
    assert(five_bits(eight_bits(a, b, c, 0), eight_bits(b, c, d, 3), 5) == b & 0x1f)
        by (bit_vector);
    assert(five_bits(eight_bits(a, b, c, 3), h, 2) == b & 0x1f) by (bit_vector);
    assert(five_bits(eight_bits(a, b, c, 3), eight_bits(c, d, e, 1), 7) == c & 0x1f)
        by (bit_vector);
    assert(five_bits(eight_bits(a, b, c, 1), eight_bits(b, c, d, 4), 4) == b & 0x1f)
        by (bit_vector);
    assert(five_bits(eight_bits(a, b, c, 4), h, 1) == b & 0x1f) by (bit_vector);
    assert(five_bits(eight_bits(a, b, c, 4), eight_bits(c, d, e, 2), 6) == c & 0x1f)
        by (bit_vector);
    assert(five_bits(eight_bits(a, b, c, 2), h, 3) == b & 0x1f) by (bit_vector);
    assert(a <= 31 ==> a & 0x1f == a) by (bit_vector);
}

/// Unpacking 5-bit levels gives back each level that was packed.
pub proof fn lemma_q5_level(levels: Seq<u8>, k: int)
    requires
        0 <= k < levels.len(),
        levels[k] <= 31,
    ensures
        k < q5_levels(q5_packed(levels)).len(),
        q5_levels(q5_packed(levels))[k] == levels[k],
{
    let packed = q5_packed(levels);
    let m = k / 8;
    let r = k % 8;
    let first = (5 * k) / 8;
    let hi = if first + 1 < packed.len() {
        packed[first + 1]
    } else {
        0u8
    };
    let l = |x: int| level_at(levels, 8 * m + x);
    assert(packed[first] == q5_byte(levels, first));
    if first + 1 < packed.len() {
        assert(packed[first + 1] == q5_byte(levels, first + 1));
    }
    lemma_five_of_eight(levels[k], 0, 0, 0, 0, 0, 0);
    if r == 0 {
        assert(first == 5 * m && (5 * k) % 8 == 0);
        assert((8 * first) / 5 == 8 * m && (8 * first) % 5 == 0);
        lemma_five_of_eight(l(0), l(1), l(2), 0, 0, 0, hi);
    } else if r == 1 {
        assert(first == 5 * m && (5 * k) % 8 == 5);
        assert((8 * first) / 5 == 8 * m && (8 * first) % 5 == 0);
        assert((8 * (first + 1)) / 5 == 8 * m + 1 && (8 * (first + 1)) % 5 == 3);
        lemma_five_of_eight(l(0), l(1), l(2), l(3), 0, 0, hi);
    } else if r == 2 {
        assert(first == 5 * m + 1 && (5 * k) % 8 == 2);
        assert((8 * first) / 5 == 8 * m + 1 && (8 * first) % 5 == 3);
        lemma_five_of_eight(l(1), l(2), l(3), 0, 0, 0, hi);
    } else if r == 3 {
        assert(first == 5 * m + 1 && (5 * k) % 8 == 7);
        assert((8 * first) / 5 == 8 * m + 1 && (8 * first) % 5 == 3);
        assert((8 * (first + 1)) / 5 == 8 * m + 3 && (8 * (first + 1)) % 5 == 1);
        lemma_five_of_eight(l(1), l(2), l(3), l(4), l(5), 0, hi);
    } else if r == 4 {
        assert(first == 5 * m + 2 && (5 * k) % 8 == 4);
        assert((8 * first) / 5 == 8 * m + 3 && (8 * first) % 5 == 1);
        assert((8 * (first + 1)) / 5 == 8 * m + 4 && (8 * (first + 1)) % 5 == 4);
        lemma_five_of_eight(l(3), l(4), l(5), l(6), 0, 0, hi);
    } else if r == 5 {
        assert(first == 5 * m + 3 && (5 * k) % 8 == 1);
        assert((8 * first) / 5 == 8 * m + 4 && (8 * first) % 5 == 4);
        lemma_five_of_eight(l(4), l(5), l(6), 0, 0, 0, hi);
    } else if r == 6 {
        assert(first == 5 * m + 3 && (5 * k) % 8 == 6);
        assert((8 * first) / 5 == 8 * m + 4 && (8 * first) % 5 == 4);
        assert((8 * (first + 1)) / 5 == 8 * m + 6 && (8 * (first + 1)) % 5 == 2);
        lemma_five_of_eight(l(4), l(5), l(6), l(7), l(8), 0, hi);
    } else {
        assert(first == 5 * m + 4 && (5 * k) % 8 == 3);
        assert((8 * first) / 5 == 8 * m + 6 && (8 * first) % 5 == 2);
        lemma_five_of_eight(l(6), l(7), l(8), 0, 0, 0, hi);
    }
}

/// What 4-bit blocks from `pos` to the end of `bytes` decode to.
proof fn lemma_q4_0_from(bytes: Seq<u8>, pos: int, blocks: Seq<BlockView>)
    requires
        blocks_of_tensor(blocks, 15),
        holds_at(bytes, pos, q4_0_encoded(blocks)),
        pos + q4_0_encoded(blocks).len() == bytes.len(),
    ensures
        q4_0_decoded_from(bytes, pos, all_samples(blocks).len()) == Ok::<Seq<Sample>, DecodeError>(
            all_samples(blocks),
        ),
    decreases blocks.len(),
{
    if blocks.len() == 0 {
        assert(all_samples(blocks) =~= Seq::<Sample>::empty());
    } else {
        let block = blocks[0];
        let rest = blocks.drop_first();
        lemma_blocks_front(blocks);
        lemma_blocks_rest(blocks, 15);
        let levels = q4_packed(block.levels);
        let k = block.levels.len() as int;
        let n = all_samples(blocks).len();
        lemma_u32_le_inverse(block.scale);
        lemma_u32_le_inverse(block.zero);
        assert(q4_0_block(block) == u32_le(block.scale) + u32_le(block.zero) + levels);
        lemma_holds_split(bytes, pos, q4_0_block(block), q4_0_encoded(rest));
        lemma_holds_split(bytes, pos, u32_le(block.scale) + u32_le(block.zero), levels);
        lemma_holds_split(bytes, pos, u32_le(block.scale), u32_le(block.zero));
        let packed = least(bytes.len() - pos - 8, 16);
        assert(packed == levels.len());
        let taken = least(2 * packed, n as int);
        assert(taken == k);
        let decoded = Seq::new(
            taken as nat,
            |j: int|
                Sample {
                    scale: block.scale,
                    zero: block.zero,
                    level: nibble(bytes[pos + 8 + j / 2], j),
                },
        );
        assert forall|j: int| 0 <= j < k implies decoded[j] == block_samples(block)[j] by {
            lemma_q4_level(block.levels, j);
            assert(bytes.subrange(pos + 8, pos + 8 + levels.len())[j / 2] == bytes[pos + 8 + j
                / 2]);
        }
        assert(decoded =~= block_samples(block));
        lemma_q4_0_from(bytes, pos + 8 + packed, rest);
    }
}

/// What 5-bit blocks from `pos` to the end of `bytes` decode to.
proof fn lemma_q5_1_from(bytes: Seq<u8>, pos: int, blocks: Seq<BlockView>)
    requires
        blocks_of_tensor(blocks, 31),
        holds_at(bytes, pos, q5_1_encoded(blocks)),
        pos + q5_1_encoded(blocks).len() == bytes.len(),
    ensures
        q5_1_decoded_from(bytes, pos, all_samples(blocks).len()) == Ok::<Seq<Sample>, DecodeError>(
            all_samples(blocks),
        ),
    decreases blocks.len(),
{
    if blocks.len() == 0 {
        assert(all_samples(blocks) =~= Seq::<Sample>::empty());
    } else {
        let block = blocks[0];
        let rest = blocks.drop_first();
        lemma_blocks_front(blocks);
        lemma_blocks_rest(blocks, 31);
        let levels = q5_packed(block.levels);
        let k = block.levels.len() as int;
        let n = all_samples(blocks).len();
        lemma_u32_le_inverse(block.scale);
        lemma_u32_le_inverse(block.zero);
        assert(q5_1_block(block) == u32_le(block.scale) + u32_le(block.zero) + levels);
        lemma_holds_split(bytes, pos, q5_1_block(block), q5_1_encoded(rest));
        lemma_holds_split(bytes, pos, u32_le(block.scale) + u32_le(block.zero), levels);
        lemma_holds_split(bytes, pos, u32_le(block.scale), u32_le(block.zero));
        let packed = least(bytes.len() - pos - 8, 20);
        assert(packed == levels.len());
        let unpacked = q5_levels(bytes.subrange(pos + 8, pos + 8 + packed));
        assert(unpacked == q5_levels(levels));
        lemma_q5_level(block.levels, k - 1);
        let taken = least(unpacked.len() as int, n as int);
        assert(taken == k);
        let decoded = Seq::new(
            taken as nat,
            |j: int| Sample { scale: block.scale, zero: block.zero, level: unpacked[j] },
        );
        assert forall|j: int| 0 <= j < k implies decoded[j] == block_samples(block)[j] by {
            lemma_q5_level(block.levels, j);
        }
        assert(decoded =~= block_samples(block));
        lemma_q5_1_from(bytes, pos + 8 + packed, rest);
    }
}

/// The packing of 4-bit levels can be undone: the blocks of a tensor,
/// encoded and then decoded for the number of their elements, give each
/// element with the scale and zero of its block and with its level.
pub proof fn lemma_q4_0_round_trip(blocks: Seq<BlockView>)
    requires
        blocks_of_tensor(blocks, 15),
    ensures
        q4_0_decoded(q4_0_encoded(blocks), all_samples(blocks).len()) == Ok::<
            Seq<Sample>,
            DecodeError,
        >(all_samples(blocks)),
{
    let bytes = q4_0_encoded(blocks);
    assert(bytes.subrange(0, bytes.len() as int) =~= bytes);
    lemma_q4_0_from(bytes, 0, blocks);
}

/// The packing of 5-bit levels can be undone: the blocks of a tensor,
/// encoded and then decoded for the number of their elements, give each
/// element with the scale and zero of its block and with its level.
pub proof fn lemma_q5_1_round_trip(blocks: Seq<BlockView>)
    requires
        blocks_of_tensor(blocks, 31),
    ensures
        q5_1_decoded(q5_1_encoded(blocks), all_samples(blocks).len()) == Ok::<
            Seq<Sample>,
            DecodeError,
        >(all_samples(blocks)),
{
    let bytes = q5_1_encoded(blocks);
    assert(bytes.subrange(0, bytes.len() as int) =~= bytes);
    lemma_q5_1_from(bytes, 0, blocks);
}

/// Adding a full block to a payload adds its bytes.
proof fn lemma_len_full_block(rest: nat)
    ensures
        q4_0_len(32 + rest) == 24 + q4_0_len(rest),
        q5_1_len(32 + rest) == 28 + q5_1_len(rest),
{
    assert((32 + rest) / 32 == 1 + rest / 32);
    assert((32 + rest) % 32 == rest % 32);
}

/// The length of a payload of one block.
proof fn lemma_len_one_block(k: nat)
    requires
        1 <= k <= 32,
    ensures
        q4_0_len(k) == q4_0_block_len(k),
        q5_1_len(k) == q5_1_block_len(k),
{
    if k == 32 {
        assert(k / 32 == 1 && k % 32 == 0);
    } else {
        assert(k / 32 == 0 && k % 32 == k);
    }
}

/// The length of an encoded tensor: a full block of 4-bit levels takes 24
/// bytes and one of 5-bit levels 28; a last block of `k` elements takes 8
/// bytes and the bytes of its levels, two levels or eight fifths of a
/// level to the byte.
pub proof fn lemma_encoded_len(blocks: Seq<BlockView>)
    requires
        blocks_shaped(blocks),
    ensures
        q4_0_encoded(blocks).len() == q4_0_len(all_samples(blocks).len()),
        q5_1_encoded(blocks).len() == q5_1_len(all_samples(blocks).len()),
        blocks.len() > 0 ==> all_samples(blocks).len() == 32 * (blocks.len() - 1)
            + blocks.last().levels.len(),
        blocks.len() == 0 ==> all_samples(blocks).len() == 0,
    decreases blocks.len(),
{
    if blocks.len() == 0 {
        assert(all_samples(blocks) =~= Seq::<Sample>::empty());
        assert(q4_0_encoded(blocks) =~= Seq::<u8>::empty());
        assert(q5_1_encoded(blocks) =~= Seq::<u8>::empty());
    } else {
        let block = blocks[0];
        let rest = blocks.drop_first();
        let k = block.levels.len();
        lemma_blocks_front(blocks);
        lemma_encoded_len(rest);
        lemma_u32_le_inverse(block.scale);
        lemma_u32_le_inverse(block.zero);
        assert(q4_0_block(block).len() == q4_0_block_len(k));
        assert(q5_1_block(block).len() == q5_1_block_len(k));
        assert(all_samples(blocks).len() == k + all_samples(rest).len());
        if rest.len() > 0 {
            assert(rest.last() == blocks.last());
            assert(k == 32);
            lemma_len_full_block(all_samples(rest).len());
        } else {
            lemma_len_one_block(k);
        }
    }
}

/// A tensor whose elements fill whole blocks takes 24 bytes for each
/// block of 4-bit levels, and 28 bytes for each block of 5-bit levels.
pub proof fn lemma_whole_blocks_len(n: nat)
    requires
        n % 32 == 0,
    ensures
        q4_0_len(n) == 24 * ((n + 31) / 32),
        q5_1_len(n) == 28 * ((n + 31) / 32),
{
    assert((n + 31) / 32 == n / 32);
}

/// Blocks that hold one level for each float of the chunks of a tensor
/// are cut like the blocks of a tensor, and stand for as many elements as
/// the tensor has: so the tensor takes 24 bytes for each full block of
/// 4-bit levels, 28 for each full block of 5-bit levels, and for a last
/// block as many as its levels need.
pub proof fn lemma_quantized_len(values: Seq<u32>, blocks: Seq<BlockView>)
    requires
        blocks.len() == chunk_count(values.len()),
        forall|i: int|
            0 <= i < blocks.len() ==> (#[trigger] blocks[i]).levels.len() == chunk(values, i).len(),
    ensures
        blocks_shaped(blocks),
        all_samples(blocks).len() == values.len(),
        q4_0_encoded(blocks).len() == q4_0_len(values.len()),
        q5_1_encoded(blocks).len() == q5_1_len(values.len()),
{
    assert forall|i: int| 0 <= i < blocks.len() implies {
        &&& 1 <= (#[trigger] blocks[i]).levels.len() <= 32
        &&& (i + 1 < blocks.len() ==> blocks[i].levels.len() == 32)
    } by {
        assert(blocks[i].levels.len() == chunk(values, i).len());
    }
    lemma_encoded_len(blocks);
    if blocks.len() > 0 {
        assert(blocks[blocks.len() - 1].levels.len() == chunk(values, blocks.len() - 1).len());
    }
}

} // verus!
