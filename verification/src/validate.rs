//! Checking that the tensors of a container decode.

use crate::codec::{
    all_samples, blocks_of_tensor, lemma_q4_0_round_trip, lemma_q5_1_round_trip,
};
use crate::decoder::{
    element_count, f32_decoded, lemma_decoded_len, q4_0_decoded, q5_1_decoded, try_decode_f32,
    try_decode_q4_0, try_decode_q5_1, DecodeError,
};
use crate::quantize::{q4_0_encoded, q5_1_encoded, BlockView};
use crate::types::{GGUFTensor, TensorView, TYPE_F32, TYPE_Q4_0, TYPE_Q5_1};
use vstd::prelude::*;

verus! {

/// What the check of one tensor found.
#[derive(Debug, Clone, Copy, PartialEq, Eq, Structural)]
pub enum Verdict {
    /// The payload decodes to the declared number of elements.
    Passed { elements: usize },
    /// The payload does not decode.
    Failed(DecodeError),
    /// The type code names no codec of this library: nothing was checked.
    Skipped,
}

/// What the check of a tensor finds: by its type code the payload is
/// decoded as raw floats, as 4-bit blocks or as 5-bit blocks.
pub open spec fn verdict_of(tensor: TensorView) -> Verdict {
    let n = element_count(tensor.dims);
    if tensor.type_id == TYPE_F32 {
        match f32_decoded(tensor.values, n) {
            Ok(floats) => Verdict::Passed { elements: n as usize },
            Err(e) => Verdict::Failed(e),
        }
    } else if tensor.type_id == TYPE_Q4_0 {
        match q4_0_decoded(tensor.values, n) {
            Ok(samples) => Verdict::Passed { elements: n as usize },
            Err(e) => Verdict::Failed(e),
        }
    } else if tensor.type_id == TYPE_Q5_1 {
        match q5_1_decoded(tensor.values, n) {
            Ok(samples) => Verdict::Passed { elements: n as usize },
            Err(e) => Verdict::Failed(e),
        }
    } else {
        Verdict::Skipped
    }
}

/// The number of failures among verdicts.
pub open spec fn failures(verdicts: Seq<Verdict>) -> nat
    decreases verdicts.len(),
{
    if verdicts.len() == 0 {
        0
    } else {
        failures(verdicts.drop_last()) + if verdicts.last() is Failed {
            1nat
        } else {
            0nat
        }
    }
}

/// Checks one tensor: its payload must decode, by the codec that its type
/// code names, to as many elements as its axis lengths declare.
pub fn validate_tensor(tensor: &GGUFTensor) -> (verdict: Verdict)
    ensures
        verdict == verdict_of(tensor@),
        verdict matches Verdict::Passed { elements } ==> elements == element_count(tensor.dims@),
{
    proof {
        lemma_decoded_len(tensor.values@, 0, element_count(tensor.dims@));
    }
    if tensor.type_id == TYPE_F32 {
        match try_decode_f32(tensor.values.as_slice(), tensor.dims.as_slice()) {
            Ok(floats) => Verdict::Passed { elements: floats.len() },
            Err(e) => Verdict::Failed(e),
        }
    } else if tensor.type_id == TYPE_Q4_0 {
        match try_decode_q4_0(tensor.values.as_slice(), tensor.dims.as_slice()) {
            Ok(samples) => Verdict::Passed { elements: samples.len() },
            Err(e) => Verdict::Failed(e),
        }
    } else if tensor.type_id == TYPE_Q5_1 {
        match try_decode_q5_1(tensor.values.as_slice(), tensor.dims.as_slice()) {
            Ok(samples) => Verdict::Passed { elements: samples.len() },
            Err(e) => Verdict::Failed(e),
        }
    } else {
        Verdict::Skipped
    }
}

/// The verdicts on the tensors of a container, and how many of them are
/// failures.
#[derive(Debug, Clone, PartialEq, Eq)]
pub struct Report {
    pub verdicts: Vec<Verdict>,
    pub failed: usize,
}

/// Checks every tensor. A failure does not stop the check of the others.
pub fn validate_tensors(tensors: &[GGUFTensor]) -> (report: Report)
    ensures
        report.verdicts@.len() == tensors@.len(),
        forall|i: int|
            0 <= i < tensors@.len() ==> report.verdicts@[i] == verdict_of(#[trigger] tensors@[i]@),
        report.failed == failures(report.verdicts@),
{
    let mut verdicts: Vec<Verdict> = Vec::new();
    let mut failed: usize = 0;
    let mut i: usize = 0;
    while i < tensors.len()
        invariant
            i <= tensors@.len(),
            verdicts@.len() == i,
            forall|j: int| 0 <= j < i ==> verdicts@[j] == verdict_of(#[trigger] tensors@[j]@),
            failed == failures(verdicts@),
            failed <= i,
        decreases tensors@.len() - i,
    {
        let verdict = validate_tensor(&tensors[i]);
        let ghost before = verdicts@;
        verdicts.push(verdict);
        assert(verdicts@.drop_last() =~= before);
        match verdict {
            Verdict::Failed(_) => {
                failed = failed + 1;
            },
            _ => {},
        }
        i += 1;
    }
    Report { verdicts, failed }
}

/// The exit status of a validation run: 0 when no tensor failed, else 1.
pub fn exit_status(report: &Report) -> (status: i32)
    ensures
        status == if report.failed == 0 {
            0i32
        } else {
            1i32
        },
{
    if report.failed == 0 {
        0
    } else {
        1
    }
}

/// A tensor of raw floats passes when its payload holds four bytes for
/// each of its elements.
pub proof fn lemma_raw_tensor_passes(tensor: TensorView)
    requires
        tensor.type_id == TYPE_F32,
        tensor.values.len() == 4 * element_count(tensor.dims),
    ensures
        verdict_of(tensor) is Passed,
{
}

/// A tensor of blocks passes when its payload is the encoding of the
/// blocks of a tensor with as many elements as its axis lengths declare.
pub proof fn lemma_block_tensor_passes(tensor: TensorView, blocks: Seq<BlockView>)
    requires
        element_count(tensor.dims) == all_samples(blocks).len(),
        tensor.type_id == TYPE_Q4_0 ==> blocks_of_tensor(blocks, 15) && tensor.values
            == q4_0_encoded(blocks),
        tensor.type_id == TYPE_Q5_1 ==> blocks_of_tensor(blocks, 31) && tensor.values
            == q5_1_encoded(blocks),
        tensor.type_id == TYPE_Q4_0 || tensor.type_id == TYPE_Q5_1,
    ensures
        verdict_of(tensor) is Passed,
{
    if tensor.type_id == TYPE_Q4_0 {
        lemma_q4_0_round_trip(blocks);
    } else {
        lemma_q5_1_round_trip(blocks);
    }
}

} // verus!
