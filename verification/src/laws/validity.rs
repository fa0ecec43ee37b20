//! What holds of a block that is valid.

use vstd::prelude::*;
use crate::block::{output_commits, outputs_with, BlockData};
use crate::consensus::{reward_of, ChainParams};
use crate::error::Error;
use crate::secp::{
    amount_log, curve_order, is_told_apart, is_written_once, log_of, log_total, log_value,
    point_bytes, range_proof_check, sum_log, SecpError,
};
use crate::totals::lemma_total_of_one;
use crate::transaction::{fee_sum, kernel_check, KernelData, OutputData, OutputFeatures};
use crate::validate::{
    all_sorted, block_check, block_weight, coinbase_check, coinbase_kernel_sum,
    coinbase_output_sum, first_bad_proof, first_bad_signature, first_kernel_fault, io_sum_of,
    kernel_fault, kernel_sum_of, same_coinbase,
};

verus! {

/// There is no first fault just where there is none.
pub proof fn lemma_no_kernel_fault(kernels: Seq<KernelData>, height: u64)
    ensures
        first_kernel_fault(kernels, height) is None <==> forall|i: int|
            0 <= i < kernels.len() ==> kernel_fault(#[trigger] kernels[i], height) is None,
    decreases kernels.len(),
{
    if kernels.len() > 0 {
        let front = kernels.drop_last();
        lemma_no_kernel_fault(front, height);
        assert forall|i: int| 0 <= i < front.len() implies front[i] == #[trigger] kernels[i] by {}
        assert(kernels[kernels.len() - 1] == kernels.last());
        if first_kernel_fault(front, height) is Some {
            let i = choose|i: int|
                0 <= i < front.len() && kernel_fault(#[trigger] front[i], height) is Some;
            assert(kernel_fault(kernels[i], height) is Some);
        }
    }
}

/// Where no range proof is the first to fail, none fails.
pub proof fn lemma_no_bad_proof(outputs: Seq<OutputData>, i: int)
    requires
        first_bad_proof(outputs) is None,
        0 <= i < outputs.len(),
    ensures
        range_proof_check(outputs[i].commit, outputs[i].proof) is Ok,
    decreases outputs.len(),
{
    if i < outputs.len() - 1 {
        lemma_no_bad_proof(outputs.drop_last(), i);
    }
}

/// Where no signature is the first to fail, none fails.
pub proof fn lemma_no_bad_signature(kernels: Seq<KernelData>, i: int)
    requires
        first_bad_signature(kernels) is None,
        0 <= i < kernels.len(),
    ensures
        kernel_check(kernels[i]) is Ok,
    decreases kernels.len(),
{
    if i < kernels.len() - 1 {
        lemma_no_bad_signature(kernels.drop_last(), i);
    }
}

/// Even fees sum to an even number.
pub proof fn lemma_even_fees(kernels: Seq<KernelData>)
    requires
        forall|i: int| 0 <= i < kernels.len() ==> (#[trigger] kernels[i]).fee % 2 == 0,
    ensures
        fee_sum(kernels) % 2 == 0,
    decreases kernels.len(),
{
    if kernels.len() > 0 {
        assert forall|i: int| 0 <= i < kernels.drop_last().len() implies (
        #[trigger] kernels.drop_last()[i]).fee % 2 == 0 by {
            assert(kernels.drop_last()[i] == kernels[i]);
        }
        lemma_even_fees(kernels.drop_last());
        assert(kernels[kernels.len() - 1].fee % 2 == 0);
    }
}

/// The check of the reward depends on the outputs and kernels of the reward and on the fees,
/// and on nothing else in a block.
pub proof fn law_coinbase_check_is_local(params: ChainParams, a: BlockData, b: BlockData)
    requires
        same_coinbase(a, b),
        fee_sum(a.kernels) == fee_sum(b.kernels),
    ensures
        coinbase_check(params, a) == coinbase_check(params, b),
{
}

/// The commitment to the reward of a block.
pub open spec fn reward_commit(params: ChainParams, b: BlockData) -> Seq<u8> {
    point_bytes(amount_log(reward_of(params, fee_sum(b.kernels))))
}

/// Outputs and kernels of a reward that pass for one reward are refused for another one whose
/// commitment is read as another point, as commitments to different values are.
pub proof fn law_other_reward_is_refused(params: ChainParams, a: BlockData, b: BlockData)
    requires
        params.wf(),
        fee_sum(a.kernels) <= u64::MAX,
        fee_sum(b.kernels) <= u64::MAX,
        same_coinbase(a, b),
        reward_of(params, fee_sum(a.kernels)) != reward_of(params, fee_sum(b.kernels)),
        reward_of(params, fee_sum(a.kernels)) > 0,
        reward_of(params, fee_sum(b.kernels)) > 0,
        coinbase_check(params, a) is Ok,
        is_told_apart(reward_commit(params, a), reward_of(params, fee_sum(a.kernels)) as u64),
        coinbase_output_sum(params, a) matches Ok(sum) ==> is_written_once(sum) && log_of(sum)
            == sum_log(
            output_commits(outputs_with(a.outputs, OutputFeatures::Coinbase)),
            seq![reward_commit(params, a)],
        ),
    ensures
        coinbase_check(params, b) is Err,
{
    let outs = output_commits(outputs_with(a.outputs, OutputFeatures::Coinbase));
    let (ca, cb) = (reward_commit(params, a), reward_commit(params, b));
    let log = |c: Seq<u8>| log_value(c);
    lemma_total_of_one(ca, log);
    lemma_total_of_one(cb, log);
    if coinbase_check(params, b) is Ok {
        let n = curve_order() as int;
        let (ta, tb) = ((log_total(outs) - log_value(ca)) % n, (log_total(outs) - log_value(cb)) % n);
        assert(coinbase_output_sum(params, a) == coinbase_output_sum(params, b));
        assert(seq![cb][0] == cb);
        assert(point_bytes(tb as nat) == coinbase_output_sum(params, a)->Ok_0);
        assert(ta == tb);
        let value = reward_of(params, fee_sum(a.kernels)) as u64;
        let other = reward_of(params, fee_sum(b.kernels)) as u64;
        assert(cb == point_bytes(amount_log(other as nat)));
        assert((log_value(ca) - log_value(cb)) % n != 0);
    }
}

/// A valid block is not too heavy and has its lists in order. No fee in it is odd, and so
/// their sum is even; no kernel in it is locked beyond its height. All its range proofs and
/// all its signatures are right. Its kernels sum to what its outputs and inputs do, and the
/// kernels of the reward to what the outputs of the reward do.
pub proof fn law_valid_block(params: ChainParams, b: BlockData)
    requires
        block_check(params, b) == Ok::<(), Error>(()),
    ensures
        block_weight(params, b) <= params.max_weight,
        all_sorted(b),
        forall|i: int| 0 <= i < b.kernels.len() ==> (#[trigger] b.kernels[i]).fee % 2 == 0,
        fee_sum(b.kernels) % 2 == 0,
        forall|i: int|
            0 <= i < b.kernels.len() ==> (#[trigger] b.kernels[i]).lock_height <= b.header.height,
        forall|i: int|
            0 <= i < b.outputs.len() ==> range_proof_check(
                (#[trigger] b.outputs[i]).commit,
                b.outputs[i].proof,
            ) is Ok,
        forall|i: int| 0 <= i < b.kernels.len() ==> kernel_check(#[trigger] b.kernels[i]) is Ok,
        exists|sum: Seq<u8>|
            io_sum_of(params, b) == Ok::<Seq<u8>, SecpError>(sum) && #[trigger] kernel_sum_of(b)
                == Ok::<Seq<u8>, Error>(sum),
        coinbase_output_sum(params, b) is Ok,
        coinbase_output_sum(params, b) == coinbase_kernel_sum(b),
{
    lemma_no_kernel_fault(b.kernels, b.header.height);
    assert forall|i: int| 0 <= i < b.kernels.len() implies (#[trigger] b.kernels[i]).fee % 2 == 0
        && b.kernels[i].lock_height <= b.header.height by {
        assert(kernel_fault(b.kernels[i], b.header.height) is None);
    }
    lemma_even_fees(b.kernels);
    assert forall|i: int| 0 <= i < b.outputs.len() implies range_proof_check(
        (#[trigger] b.outputs[i]).commit,
        b.outputs[i].proof,
    ) is Ok by {
        lemma_no_bad_proof(b.outputs, i);
    }
    assert forall|i: int| 0 <= i < b.kernels.len() implies kernel_check(
        #[trigger] b.kernels[i],
    ) is Ok by {
        lemma_no_bad_signature(b.kernels, i);
    }
}

} // verus!
