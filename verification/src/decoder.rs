//! Decoding tensor payloads.
//!
//! A decoded float is given by the bits of its encoding. The elements of a
//! quantized tensor are given before the float arithmetic: each as the
//! scale and zero of its block and its level.

use crate::le::{get_u32, u32_of_le};
use vstd::prelude::*;

verus! {

/// Why a payload cannot be decoded.
#[derive(Debug, Clone, Copy, PartialEq, Eq, Structural)]
pub enum DecodeError {
    /// The scale of a block is zero, infinite or not a number.
    InvalidScale,
    /// The length of the payload is no multiple of the element width.
    InvalidBlock,
    /// The payload ends before the declared number of elements.
    UnexpectedEOF,
}

impl DecodeError {
    /// The name of the error.
    pub open spec fn name(self) -> Seq<char> {
        match self {
            DecodeError::InvalidScale => "InvalidScale"@,
            DecodeError::InvalidBlock => "InvalidBlock"@,
            DecodeError::UnexpectedEOF => "UnexpectedEOF"@,
        }
    }

    /// The name of the error.
    pub fn as_str(&self) -> (name: &'static str)
        ensures
            name@ == self.name(),
    {
        match self {
            DecodeError::InvalidScale => "InvalidScale",
            DecodeError::InvalidBlock => "InvalidBlock",
            DecodeError::UnexpectedEOF => "UnexpectedEOF",
        }
    }
}

/// An element of a quantized tensor: it stands for the single-precision
/// number `scale × level + zero`, where `scale` and `zero` are the bits of
/// two single-precision floats.
#[derive(Debug, Clone, Copy, PartialEq, Eq, Structural)]
pub struct Sample {
    pub scale: u32,
    pub zero: u32,
    pub level: u8,
}

/// The number of elements of a tensor with these axis lengths: their
/// product, which is 1 for no axes.
pub open spec fn element_count(dims: Seq<u64>) -> nat
    decreases dims.len(),
{
    if dims.len() == 0 {
        1
    } else {
        element_count(dims.drop_last()) * (dims.last() as nat)
    }
}

/// A product with a zero factor is zero; one of positive factors is
/// positive and no smaller than the product of any first factors.
proof fn lemma_element_count(dims: Seq<u64>, k: int)
    requires
        0 <= k <= dims.len(),
    ensures
        (exists|i: int| 0 <= i < dims.len() && dims[i] == 0) ==> element_count(dims) == 0,
        (forall|i: int| 0 <= i < dims.len() ==> dims[i] > 0) ==> 1 <= element_count(dims.take(k))
            <= element_count(dims),
    decreases dims.len(),
{
    if dims.len() > 0 {
        let front = dims.drop_last();
        let last = dims.last() as nat;
        let n = element_count(front);
        if exists|i: int| 0 <= i < dims.len() && dims[i] == 0 {
            let i = choose|i: int| 0 <= i < dims.len() && dims[i] == 0;
            if i < dims.len() - 1 {
                assert(front[i] == 0);
                lemma_element_count(front, 0);
                assert(n * last == 0) by (nonlinear_arith)
                    requires
                        n == 0,
                ;
            } else {
                assert(n * last == 0) by (nonlinear_arith)
                    requires
                        last == 0,
                ;
            }
        }
        if forall|i: int| 0 <= i < dims.len() ==> dims[i] > 0 {
            assert forall|i: int| 0 <= i < front.len() implies front[i] > 0 by {
                assert(front[i] == dims[i]);
            }
            if k < dims.len() {
                lemma_element_count(front, k);
                assert(front.take(k) =~= dims.take(k));
            } else {
                lemma_element_count(front, front.len() as int);
                assert(front.take(front.len() as int) =~= front);
                assert(dims.take(k) =~= dims);
            }
            assert(n <= n * last) by (nonlinear_arith)
                requires
                    last >= 1,
            ;
        }
    } else {
        assert(dims.take(k) =~= dims);
    }
}

/// The number of elements of a tensor with these axis lengths, if it is at
/// most `u64::MAX`.
pub fn count_elements(dims: &[u64]) -> (count: Option<u64>)
    ensures
        match count {
            Some(n) => n == element_count(dims@),
            None => element_count(dims@) > u64::MAX,
        },
{
    let mut i: usize = 0;
    while i < dims.len()
        invariant
            i <= dims@.len(),
            forall|j: int| 0 <= j < i ==> dims@[j] > 0,
        decreases dims@.len() - i,
    {
        if dims[i] == 0 {
            proof {
                lemma_element_count(dims@, 0);
            }
            return Some(0);
        }
        i += 1;
    }
    let mut product: u64 = 1;
    let mut i: usize = 0;
    proof {
        assert(dims@.take(0) =~= Seq::<u64>::empty());
    }
    while i < dims.len()
        invariant
            i <= dims@.len(),
            forall|j: int| 0 <= j < dims@.len() ==> dims@[j] > 0,
            product == element_count(dims@.take(i as int)),
        decreases dims@.len() - i,
    {
        proof {
            assert(dims@.take(i + 1).drop_last() =~= dims@.take(i as int));
            assert(dims@.take(i + 1).last() == dims@[i as int]);
            lemma_element_count(dims@, i + 1);
        }
        match product.checked_mul(dims[i]) {
            None => {
                return None;
            },
            Some(next) => {
                product = next;
            },
        }
        i += 1;
    }
    proof {
        assert(dims@.take(i as int) =~= dims@);
    }
    Some(product)
}

/// The floats that a raw payload holds for a tensor of `n` elements: the
/// first `n` groups of four bytes, each a little-endian bit pattern. Bytes
/// behind them are not looked at.
pub open spec fn f32_decoded(bytes: Seq<u8>, n: nat) -> Result<Seq<u32>, DecodeError> {
    if bytes.len() % 4 != 0 {
        Err(DecodeError::InvalidBlock)
    } else if bytes.len() < 4 * n {
        Err(DecodeError::UnexpectedEOF)
    } else {
        Ok(Seq::new(n, |i: int| u32_of_le(bytes.subrange(4 * i, 4 * i + 4))))
    }
}

/// Decodes a payload of raw little-endian floats for a tensor with the axis
/// lengths `dims`.
pub fn try_decode_f32(bytes: &[u8], dims: &[u64]) -> (r: Result<Vec<u32>, DecodeError>)
    ensures
        match r {
            Ok(floats) => f32_decoded(bytes@, element_count(dims@)) == Ok::<Seq<u32>, DecodeError>(
                floats@,
            ),
            Err(e) => f32_decoded(bytes@, element_count(dims@)) == Err::<Seq<u32>, DecodeError>(e),
        },
        r matches Ok(floats) ==> floats@.len() == element_count(dims@),
{
    let count = count_elements(dims);
    if bytes.len() % 4 != 0 {
        return Err(DecodeError::InvalidBlock);
    }
    let n = match count {
        None => {
            return Err(DecodeError::UnexpectedEOF);
        },
        Some(n) => n,
    };
    if n > (bytes.len() / 4) as u64 {
        return Err(DecodeError::UnexpectedEOF);
    }
    let n = n as usize;
    let len = bytes.len();
    let mut floats: Vec<u32> = Vec::new();
    let mut i: usize = 0;
    while i < n
        invariant
            i <= n,
            len == bytes@.len(),
            4 * n <= len,
            floats@ == Seq::new(i as nat, |k: int| u32_of_le(bytes@.subrange(4 * k, 4 * k + 4))),
        decreases n - i,
    {
        floats.push(get_u32(bytes, 4 * i));
        assert(floats@ =~= Seq::new(
            (i + 1) as nat,
            |k: int| u32_of_le(bytes@.subrange(4 * k, 4 * k + 4)),
        ));
        i += 1;
    }
    Ok(floats)
}

/// Whether the bits of a scale are those of a finite float other than zero.
pub open spec fn scale_valid(bits: u32) -> bool {
    (bits / 0x80_0000) % 0x100 != 0xff && bits % 0x8000_0000 != 0
}

/// Whether a block may use this scale.
pub fn check_scale(bits: u32) -> (ok: bool)
    ensures
        ok == scale_valid(bits),
{
    assert((bits >> 23) & 0xff == (bits / 0x80_0000) % 0x100) by (bit_vector);
    assert(bits & 0x7fff_ffff == bits % 0x8000_0000) by (bit_vector);
    (bits >> 23) & 0xff != 0xff && bits & 0x7fff_ffff != 0
}

/// What has been decoded, with what decoding the rest gives.
pub open spec fn join(front: Seq<Sample>, rest: Result<Seq<Sample>, DecodeError>) -> Result<
    Seq<Sample>,
    DecodeError,
> {
    match rest {
        Ok(samples) => Ok(front + samples),
        Err(e) => Err(e),
    }
}

/// The smaller of two numbers.
pub open spec fn least(a: int, b: int) -> int {
    if a <= b {
        a
    } else {
        b
    }
}

/// The level `k` of a byte of 4-bit levels: the low half first, then the
/// high half.
pub open spec fn nibble(byte: u8, k: int) -> u8 {
    if k % 2 == 0 {
        byte % 16
    } else {
        byte / 16
    }
}

/// The first `n` elements that 4-bit blocks from `pos` on hold. A block is
/// a scale, a zero and up to 16 bytes of levels, two to a byte; a block
/// takes 16 bytes of levels where the payload has them, and what is left
/// where it has not.
pub open spec fn q4_0_decoded_from(bytes: Seq<u8>, pos: int, n: nat) -> Result<
    Seq<Sample>,
    DecodeError,
>
    decreases bytes.len() - pos,
{
    if n == 0 {
        Ok(Seq::empty())
    } else if pos < 0 || pos + 8 > bytes.len() {
        Err(DecodeError::UnexpectedEOF)
    } else {
        let scale = u32_of_le(bytes.subrange(pos, pos + 4));
        let zero = u32_of_le(bytes.subrange(pos + 4, pos + 8));
        if !scale_valid(scale) {
            Err(DecodeError::InvalidScale)
        } else {
            let packed = least(bytes.len() - pos - 8, 16);
            let taken = least(2 * packed, n as int);
            let block = Seq::new(
                taken as nat,
                |k: int| Sample { scale, zero, level: nibble(bytes[pos + 8 + k / 2], k) },
            );
            join(block, q4_0_decoded_from(bytes, pos + 8 + packed, (n - taken) as nat))
        }
    }
}

/// The elements that a payload of 4-bit blocks holds for a tensor of `n`
/// elements.
pub open spec fn q4_0_decoded(bytes: Seq<u8>, n: nat) -> Result<Seq<Sample>, DecodeError> {
    q4_0_decoded_from(bytes, 0, n)
}

/// Whether more elements are owed: `produced` is less than the declared
/// number, which is `count` where it fits 64 bits.
fn owed(produced: usize, count: Option<u64>) -> (more: bool)
    ensures
        more == match count {
            Some(n) => produced < n,
            None => true,
        },
{
    match count {
        Some(n) => (produced as u64) < n,
        None => true,
    }
}

/// Nothing decoded so far leaves the rest as it is.
proof fn lemma_join_nothing(rest: Result<Seq<Sample>, DecodeError>)
    ensures
        join(Seq::empty(), rest) == rest,
{
    match rest {
        Ok(samples) => {
            assert(Seq::<Sample>::empty() + samples =~= samples);
        },
        Err(_) => {},
    }
}

/// A decoded block joins what was decoded before it.
proof fn lemma_join_block(
    front: Seq<Sample>,
    block: Seq<Sample>,
    rest: Result<Seq<Sample>, DecodeError>,
)
    ensures
        join(front, join(block, rest)) == join(front + block, rest),
{
    match rest {
        Ok(samples) => {
            assert(front + (block + samples) =~= (front + block) + samples);
        },
        Err(_) => {},
    }
}

/// Decodes a payload of 4-bit blocks for a tensor with the axis lengths
/// `dims`. It stops at the declared number of elements: what the payload
/// holds behind them is not looked at.
pub fn try_decode_q4_0(bytes: &[u8], dims: &[u64]) -> (r: Result<Vec<Sample>, DecodeError>)
    ensures
        match r {
            Ok(samples) => q4_0_decoded(bytes@, element_count(dims@)) == Ok::<
                Seq<Sample>,
                DecodeError,
            >(samples@),
            Err(e) => q4_0_decoded(bytes@, element_count(dims@)) == Err::<Seq<Sample>, DecodeError>(
                e,
            ),
        },
        r matches Ok(samples) ==> samples@.len() == element_count(dims@),
{
    let count = count_elements(dims);
    let ghost n = element_count(dims@);
    proof {
        lemma_decoded_len(bytes@, 0, n);
    }
    let len = bytes.len();
    let mut decoded: Vec<Sample> = Vec::new();
    let mut pos: usize = 0;
    proof {
        lemma_join_nothing(q4_0_decoded_from(bytes@, 0, n));
    }
    while owed(decoded.len(), count)
        invariant
            len == bytes@.len(),
            pos <= len,
            n == element_count(dims@),
            match count {
                Some(c) => c == n,
                None => n > u64::MAX,
            },
            decoded@.len() <= n,
            q4_0_decoded(bytes@, n) == join(
                decoded@,
                q4_0_decoded_from(bytes@, pos as int, (n - decoded@.len()) as nat),
            ),
        decreases len - pos,
    {
        if len - pos < 8 {
            return Err(DecodeError::UnexpectedEOF);
        }
        let scale = get_u32(bytes, pos);
        let zero = get_u32(bytes, pos + 4);
        if !check_scale(scale) {
            return Err(DecodeError::InvalidScale);
        }
        let start = pos + 8;
        let remaining = len - start;
        let packed: usize = if remaining < 16 {
            remaining
        } else {
            16
        };
        let ghost front = decoded@;
        let ghost need = (n - front.len()) as nat;
        let ghost taken = least(2 * packed, need as int);
        let ghost block = Seq::new(
            taken as nat,
            |k: int| Sample { scale, zero, level: nibble(bytes@[start + k / 2], k) },
        );
        let mut j: usize = 0;
        while j < packed && owed(decoded.len(), count)
            invariant
                len == bytes@.len(),
                start + packed <= len,
                j <= packed,
                front.len() + need == n,
                taken == least(2 * packed, need as int),
                match count {
                    Some(c) => c == n,
                    None => n > u64::MAX,
                },
                block == Seq::new(
                    taken as nat,
                    |k: int| Sample { scale, zero, level: nibble(bytes@[start + k / 2], k) },
                ),
                decoded@.len() == front.len() + least(2 * j, taken),
                decoded@ == front + block.take(least(2 * j, taken)),
            decreases packed - j,
        {
            let byte = bytes[start + j];
            assert(byte & 0x0f == byte % 16) by (bit_vector);
            assert((byte >> 4) & 0x0f == byte / 16) by (bit_vector);
            let ghost before = decoded@;
            decoded.push(Sample { scale, zero, level: byte & 0x0f });
            assert(decoded@ =~= front + block.take(2 * j + 1));
            if owed(decoded.len(), count) {
                decoded.push(Sample { scale, zero, level: (byte >> 4) & 0x0f });
                assert(decoded@ =~= front + block.take(2 * j + 2));
            }
            j += 1;
        }
        proof {
            assert(block.take(taken) =~= block);
            lemma_join_block(
                front,
                block,
                q4_0_decoded_from(bytes@, start + packed, (need - taken) as nat),
            );
        }
        pos = start + packed;
    }
    proof {
        assert(decoded@ + Seq::<Sample>::empty() =~= decoded@);
    }
    Ok(decoded)
}

/// Five bits of a 16-bit word made of two bytes, the low byte first.
pub open spec fn five_bits(lo: u8, hi: u8, shift: u8) -> u8 {
    ((((lo as u16) | ((hi as u16) << 8)) >> shift) & 0x1f) as u8
}

/// The level `k` of packed 5-bit levels: the bits `5k` to `5k + 4` of the
/// bytes, where bit 0 is the least significant bit of the first byte.
pub open spec fn q5_level(packed: Seq<u8>, k: int) -> u8 {
    let first = (5 * k) / 8;
    let shift = (5 * k) % 8;
    let lo = packed[first];
    let hi = if first + 1 < packed.len() {
        packed[first + 1]
    } else {
        0u8
    };
    five_bits(lo, hi, shift as u8)
}

/// The levels that packed bytes hold: as many as have all their five bits
/// in the bytes.
pub open spec fn q5_levels(packed: Seq<u8>) -> Seq<u8> {
    Seq::new(((8 * packed.len()) / 5) as nat, |k: int| q5_level(packed, k))
}

/// The bits of `prev` that no level has taken yet, when `bits` of them
/// are left.
spec fn carry(prev: u8, bits: u32) -> u64 {
    (prev as u64) >> ((8 - bits) as u64)
}

/// The bits of `prev` and `cur` that no level has taken yet, when `bits`
/// of them are left.
spec fn window(prev: u8, cur: u8, bits: u32) -> u64 {
    ((prev as u64) | ((cur as u64) << 8)) >> ((16 - bits) as u64)
}

/// Shifting a byte in above the bits that are left gives the bits of both.
proof fn lemma_window_open(prev: u8, cur: u8, bits: u32)
    requires
        bits <= 4,
    ensures
        carry(prev, bits) | ((cur as u64) << bits) == window(prev, cur, (bits + 8) as u32),
{
    assert(carry(prev, bits) | ((cur as u64) << bits) == window(prev, cur, (bits + 8) as u32))
        by (bit_vector)
        requires
            bits <= 4,
    ;
}

/// The low five bits that are left are the next level; taking them leaves
/// the bits above them.
proof fn lemma_window_level(prev: u8, cur: u8, next: u8, bits: u32)
    requires
        5 <= bits <= 12,
    ensures
        window(prev, cur, bits) & 0x1f < 32,
        bits > 8 ==> (window(prev, cur, bits) & 0x1f) as u8 == five_bits(
            prev,
            cur,
            (16 - bits) as u8,
        ),
        bits <= 8 ==> (window(prev, cur, bits) & 0x1f) as u8 == five_bits(
            cur,
            next,
            (8 - bits) as u8,
        ),
        window(prev, cur, bits) >> 5 == window(prev, cur, (bits - 5) as u32),
{
    assert(window(prev, cur, bits) & 0x1f < 32) by (bit_vector);
    if bits > 8 {
        assert((window(prev, cur, bits) & 0x1f) as u8 == five_bits(prev, cur, (16 - bits) as u8))
            by (bit_vector)
            requires
                8 < bits <= 12,
        ;
    } else {
        assert((window(prev, cur, bits) & 0x1f) as u8 == five_bits(cur, next, (8 - bits) as u8))
            by (bit_vector)
            requires
                5 <= bits <= 8,
        ;
    }
    assert(window(prev, cur, bits) >> 5 == window(prev, cur, (bits - 5) as u32)) by (bit_vector)
        requires
            5 <= bits <= 12,
    ;
}

/// Fewer than five bits that are left all come from the last byte.
proof fn lemma_window_close(prev: u8, cur: u8, bits: u32)
    requires
        bits <= 4,
    ensures
        window(prev, cur, bits) == carry(cur, bits),
{
    assert(window(prev, cur, bits) == carry(cur, bits)) by (bit_vector)
        requires
            bits <= 4,
    ;
}

/// Unpacks 5-bit levels: each byte is shifted into an accumulator above
/// the bits that are left in it, and levels are taken from its low end
/// while it holds five bits.
pub fn unpack_q5(packed: &[u8]) -> (levels: Vec<u8>)
    requires
        packed@.len() <= 20,
    ensures
        levels@ == q5_levels(packed@),
{
    let mut acc: u64 = 0;
    let mut bits: u32 = 0;
    let mut levels: Vec<u8> = Vec::new();
    let n = packed.len();
    let mut j: usize = 0;
    assert(carry(0, 0) == 0) by (bit_vector);
    while j < n
        invariant
            n == packed@.len(),
            n <= 20,
            j <= n,
            bits <= 4,
            5 * levels@.len() + bits == 8 * j,
            acc == carry(
                if j > 0 {
                    packed@[j - 1]
                } else {
                    0u8
                },
                bits,
            ),
            forall|k: int| 0 <= k < levels@.len() ==> levels@[k] == q5_level(packed@, k),
        decreases n - j,
    {
        let byte = packed[j];
        let ghost prev = if j > 0 {
            packed@[j - 1]
        } else {
            0u8
        };
        let ghost next = if j + 1 < n {
            packed@[j + 1]
        } else {
            0u8
        };
        proof {
            lemma_window_open(prev, byte, bits);
        }
        acc = acc | ((byte as u64) << bits);
        bits = bits + 8;
        while bits >= 5 && levels.len() < 32
            invariant
                n == packed@.len(),
                n <= 20,
                j < n,
                bits <= 12,
                j == 0 ==> bits <= 8,
                5 * levels@.len() + bits == 8 * (j + 1),
                byte == packed@[j as int],
                prev == if j > 0 {
                    packed@[j - 1]
                } else {
                    0u8
                },
                next == if j + 1 < n {
                    packed@[j + 1]
                } else {
                    0u8
                },
                acc == window(prev, byte, bits),
                forall|k: int| 0 <= k < levels@.len() ==> levels@[k] == q5_level(packed@, k),
            decreases bits,
        {
            proof {
                lemma_window_level(prev, byte, next, bits);
                let k = levels@.len() as int;
                if bits > 8 {
                    assert(5 * k == 8 * (j - 1) + (16 - bits));
                    assert((5 * k) / 8 == j - 1 && (5 * k) % 8 == 16 - bits);
                } else {
                    assert(5 * k == 8 * j + (8 - bits));
                    assert((5 * k) / 8 == j && (5 * k) % 8 == 8 - bits);
                }
            }
            let level = (acc & 0x1f) as u8;
            levels.push(level);
            acc = acc >> 5;
            bits = bits - 5;
        }
        proof {
            lemma_window_close(prev, byte, bits);
        }
        j += 1;
    }
    assert(levels@ =~= q5_levels(packed@));
    levels
}

/// The first `n` elements that 5-bit blocks from `pos` on hold. A block is
/// a scale, a zero and up to 20 bytes of packed levels; a block takes 20
/// bytes of levels where the payload has them, and what is left where it
/// has not.
pub open spec fn q5_1_decoded_from(bytes: Seq<u8>, pos: int, n: nat) -> Result<
    Seq<Sample>,
    DecodeError,
>
    decreases bytes.len() - pos,
{
    if n == 0 {
        Ok(Seq::empty())
    } else if pos < 0 || pos + 8 > bytes.len() {
        Err(DecodeError::UnexpectedEOF)
    } else {
        let scale = u32_of_le(bytes.subrange(pos, pos + 4));
        let zero = u32_of_le(bytes.subrange(pos + 4, pos + 8));
        if !scale_valid(scale) {
            Err(DecodeError::InvalidScale)
        } else {
            let packed = least(bytes.len() - pos - 8, 20);
            let levels = q5_levels(bytes.subrange(pos + 8, pos + 8 + packed));
            let taken = least(levels.len() as int, n as int);
            let block = Seq::new(
                taken as nat,
                |k: int| Sample { scale, zero, level: levels[k] },
            );
            join(block, q5_1_decoded_from(bytes, pos + 8 + packed, (n - taken) as nat))
        }
    }
}

/// The elements that a payload of 5-bit blocks holds for a tensor of `n`
/// elements.
pub open spec fn q5_1_decoded(bytes: Seq<u8>, n: nat) -> Result<Seq<Sample>, DecodeError> {
    q5_1_decoded_from(bytes, 0, n)
}

/// Decodes a payload of 5-bit blocks for a tensor with the axis lengths
/// `dims`. It stops at the declared number of elements: what the payload
/// holds behind them is not looked at.
pub fn try_decode_q5_1(bytes: &[u8], dims: &[u64]) -> (r: Result<Vec<Sample>, DecodeError>)
    ensures
        match r {
            Ok(samples) => q5_1_decoded(bytes@, element_count(dims@)) == Ok::<
                Seq<Sample>,
                DecodeError,
            >(samples@),
            Err(e) => q5_1_decoded(bytes@, element_count(dims@)) == Err::<Seq<Sample>, DecodeError>(
                e,
            ),
        },
        r matches Ok(samples) ==> samples@.len() == element_count(dims@),
{
    let count = count_elements(dims);
    let ghost n = element_count(dims@);
    proof {
        lemma_decoded_len(bytes@, 0, n);
    }
    let len = bytes.len();
    let mut decoded: Vec<Sample> = Vec::new();
    let mut pos: usize = 0;
    proof {
        lemma_join_nothing(q5_1_decoded_from(bytes@, 0, n));
    }
    while owed(decoded.len(), count)
        invariant
            len == bytes@.len(),
            pos <= len,
            n == element_count(dims@),
            match count {
                Some(c) => c == n,
                None => n > u64::MAX,
            },
            decoded@.len() <= n,
            q5_1_decoded(bytes@, n) == join(
                decoded@,
                q5_1_decoded_from(bytes@, pos as int, (n - decoded@.len()) as nat),
            ),
        decreases len - pos,
    {
        if len - pos < 8 {
            return Err(DecodeError::UnexpectedEOF);
        }
        let scale = get_u32(bytes, pos);
        let zero = get_u32(bytes, pos + 4);
        if !check_scale(scale) {
            return Err(DecodeError::InvalidScale);
        }
        let start = pos + 8;
        let remaining = len - start;
        let packed: usize = if remaining < 20 {
            remaining
        } else {
            20
        };
        let levels = unpack_q5(vstd::slice::slice_subrange(bytes, start, start + packed));
        let ghost front = decoded@;
        let ghost need = (n - front.len()) as nat;
        let ghost taken = least(levels@.len() as int, need as int);
        let ghost block = Seq::new(
            taken as nat,
            |k: int| Sample { scale, zero, level: levels@[k] },
        );
        let mut k: usize = 0;
        while k < levels.len() && owed(decoded.len(), count)
            invariant
                k <= levels@.len(),
                front.len() + need == n,
                taken == least(levels@.len() as int, need as int),
                match count {
                    Some(c) => c == n,
                    None => n > u64::MAX,
                },
                block == Seq::new(taken as nat, |k: int| Sample { scale, zero, level: levels@[k] }),
                k <= taken,
                decoded@ == front + block.take(k as int),
            decreases levels@.len() - k,
        {
            decoded.push(Sample { scale, zero, level: levels[k] });
            assert(decoded@ =~= front + block.take(k + 1));
            k += 1;
        }
        proof {
            assert(block.take(taken) =~= block);
            lemma_join_block(
                front,
                block,
                q5_1_decoded_from(bytes@, start + packed, (need - taken) as nat),
            );
        }
        pos = start + packed;
    }
    proof {
        assert(decoded@ + Seq::<Sample>::empty() =~= decoded@);
    }
    Ok(decoded)
}

/// Decoding gives as many elements as were asked for, or fails.
pub proof fn lemma_decoded_len(bytes: Seq<u8>, pos: int, n: nat)
    ensures
        f32_decoded(bytes, n) matches Ok(floats) ==> floats.len() == n,
        q4_0_decoded_from(bytes, pos, n) matches Ok(samples) ==> samples.len() == n,
        q5_1_decoded_from(bytes, pos, n) matches Ok(samples) ==> samples.len() == n,
    decreases bytes.len() - pos,
{
    if n > 0 && 0 <= pos && pos + 8 <= bytes.len() {
        let four = least(bytes.len() - pos - 8, 16);
        let five = least(bytes.len() - pos - 8, 20);
        let levels = q5_levels(bytes.subrange(pos + 8, pos + 8 + five));
        lemma_decoded_len(bytes, pos + 8 + four, (n - least(2 * four, n as int)) as nat);
        lemma_decoded_len(bytes, pos + 8 + five, (n - least(levels.len() as int, n as int)) as nat);
    }
}

} // verus!
