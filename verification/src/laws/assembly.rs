//! What a block is built of.

use vstd::prelude::*;
use crate::block::BlockData;
use crate::consensus::ChainParams;
use crate::error::{Error, KeychainError};
use crate::filters::{lemma_contains_multiset, lemma_filter_agree, lemma_filter_multiset};
use crate::hash::blake2b_256;
use crate::header::{hashed_header, HeaderData};
use crate::laws::amounts::law_excess;
use crate::laws::building::lemma_all_candidates_valid;
use crate::laws::cutting::{law_cut_through_keeps_order, law_cut_through_matches_by_commitment};
use crate::laws::lists::law_items_of_candidates;
use crate::mining::{
    built, can_follow, first_invalid, gathered, reward_output_of, transactions_of, valid_build,
    BuildData, RewardReply,
};
use crate::order::{lemma_sorted_form, lex_le, Wire};
use crate::secp::{curve_order, log_of, point_bytes, value_log, SecpError};
use crate::transaction::{
    all_inputs, all_kernels, all_outputs, CandidateData, Input, InputData, KernelData,
    KernelFeatures, Output, OutputData, OutputFeatures, TxKernel,
};

verus! {

broadcast use vstd::seq_lib::group_to_multiset_ensures;

/// The reward of a block at any height is an output and a kernel made of what the keeper of keys
/// answered: the kernel pays no fee, is locked to the height of the block, and its excess is what
/// the subsidy and half of the fees leave of the commitment. What fails first is reported.
pub proof fn law_reward(params: ChainParams, reply: RewardReply, fees: u64, height: u64)
    requires
        params.subsidy <= i64::MAX,
    ensures
        ({
            let r = reward_output_of(params, reply, fees as nat, height);
            let over = point_bytes(
                (((params.subsidy + fees as int / 2) * value_log(1)) % curve_order() as int) as nat,
            );
            let commit = reply.commit->Ok_0@;
            let left = (log_of(commit)->0 - log_of(over)->0) % curve_order() as int;
            let points = log_of(commit) is Some && log_of(over) is Some;
            let asked = reply.commit is Ok && reply.switch_commit_hash is Ok && reply.range_proof
                is Ok;
            &&& r is Ok <==> asked && points && left != 0 && reply.sig is Ok
            &&& r matches Ok((output, kernel)) ==> {
                &&& output.features == OutputFeatures::Coinbase
                &&& output.commit == commit
                &&& output.switch_commit_hash == reply.switch_commit_hash->Ok_0@
                &&& output.proof == reply.range_proof->Ok_0@
                &&& kernel.features == KernelFeatures::Coinbase
                &&& kernel.fee == 0
                &&& kernel.lock_height == height
                &&& kernel.excess == point_bytes(left as nat)
                &&& kernel.excess_sig == reply.sig->Ok_0@
            }
            &&& r matches Err(e) ==> e == (if reply.commit is Err {
                reply.commit->Err_0
            } else if reply.switch_commit_hash is Err {
                reply.switch_commit_hash->Err_0
            } else if reply.range_proof is Err {
                reply.range_proof->Err_0
            } else if !points {
                KeychainError::Secp(SecpError::InvalidCommit)
            } else if left == 0 {
                KeychainError::Secp(SecpError::IncorrectCommitSum)
            } else {
                reply.sig->Err_0
            })
        }),
{
    law_excess(reply.commit->Ok_0@, (params.subsidy + fees as int / 2) as u64);
}

/// Where the height and the total difficulty of the next block fit, nothing else is asked for to
/// build it, whatever the candidates and their offsets.
pub proof fn law_a_block_can_follow(
    prev: HeaderData,
    txs: Seq<CandidateData>,
    difficulty: u64,
    offset: Result<Seq<u8>, SecpError>,
)
    requires
        prev.height < u64::MAX,
        difficulty + prev.total_difficulty <= u64::MAX,
    ensures
        can_follow(prev, txs, difficulty, offset),
{
}

/// The first candidate that is not valid decides, wherever in the list it stands.
pub proof fn law_first_invalid_candidate(txs: Seq<CandidateData>, i: int)
    requires
        0 <= i < txs.len(),
        txs[i].verdict is Err,
        forall|k: int| 0 <= k < i ==> (#[trigger] txs[k]).verdict is Ok,
    ensures
        first_invalid(txs) == Some(txs[i].verdict->Err_0),
    decreases txs.len(),
{
    let front = txs.drop_last();
    assert forall|k: int| 0 <= k < front.len() implies front[k] == #[trigger] txs[k] by {}
    if i < front.len() {
        law_first_invalid_candidate(front, i);
    } else {
        lemma_all_candidates_valid(front);
    }
}

proof fn lemma_least_invalid(txs: Seq<CandidateData>) -> (i: int)
    requires
        exists|i: int| 0 <= i < txs.len() && (#[trigger] txs[i]).verdict is Err,
    ensures
        0 <= i < txs.len(),
        txs[i].verdict is Err,
        forall|k: int| 0 <= k < i ==> (#[trigger] txs[k]).verdict is Ok,
    decreases txs.len(),
{
    let front = txs.drop_last();
    assert forall|k: int| 0 <= k < front.len() implies front[k] == #[trigger] txs[k] by {}
    if exists|i: int| 0 <= i < front.len() && (#[trigger] front[i]).verdict is Err {
        let i = lemma_least_invalid(front);
        assert forall|k: int| 0 <= k < i implies (#[trigger] txs[k]).verdict is Ok by {
            assert(front[k].verdict is Ok);
        }
        i
    } else {
        let i = txs.len() - 1;
        let w = choose|w: int| 0 <= w < txs.len() && (#[trigger] txs[w]).verdict is Err;
        if w < i {
            assert(front[w].verdict is Err);
        }
        assert forall|k: int| 0 <= k < i implies (#[trigger] txs[k]).verdict is Ok by {
            assert(front[k].verdict is Ok);
        }
        i
    }
}

/// A block is built just where every candidate is valid and the offsets have a sum, whatever the
/// height and the difficulty. Where a candidate is not valid, the error is that of the first one;
/// where all are, it is that of the sum.
pub proof fn law_every_candidate_is_checked(
    proof_size: nat,
    d: BuildData,
    offset: Result<Seq<u8>, SecpError>,
    timestamp: i64,
)
    ensures
        ({
            let r = built(proof_size, d, offset, timestamp);
            &&& r is Ok <==> offset is Ok && forall|i: int|
                0 <= i < d.txs.len() ==> (#[trigger] d.txs[i]).verdict is Ok
            &&& (exists|i: int| 0 <= i < d.txs.len() && (#[trigger] d.txs[i]).verdict is Err)
                ==> exists|i: int|
                0 <= i < d.txs.len() && (#[trigger] d.txs[i]).verdict is Err && (forall|k: int|
                    0 <= k < i ==> (#[trigger] d.txs[k]).verdict is Ok) && r == Err::<
                    BlockData,
                    Error,
                >(Error::Transaction(d.txs[i].verdict->Err_0))
            &&& (forall|i: int| 0 <= i < d.txs.len() ==> (#[trigger] d.txs[i]).verdict is Ok)
                && offset is Err ==> r == Err::<BlockData, Error>(Error::Secp(offset->Err_0))
        }),
{
    lemma_all_candidates_valid(d.txs);
    if exists|i: int| 0 <= i < d.txs.len() && (#[trigger] d.txs[i]).verdict is Err {
        let i = lemma_least_invalid(d.txs);
        law_first_invalid_candidate(d.txs, i);
        assert(d.txs[i].verdict is Err);
    }
}

/// A block that was built follows the previous one, at whatever height, and holds what the
/// candidates and the reward hold: all kernels; all inputs but those for which some output that is
/// not that of a reward has their commitment; and all outputs but those that are not of a reward
/// and for which some input has their commitment. All lists are in order.
pub proof fn law_built_holds_what_was_given(
    proof_size: nat,
    d: BuildData,
    offset: Seq<u8>,
    timestamp: i64,
    b: BlockData,
)
    requires
        valid_build(d.txs, d.reward_out, d.reward_kern),
        built(proof_size, d, Ok::<Seq<u8>, SecpError>(offset), timestamp) == Ok::<BlockData, Error>(
            b,
        ),
        d.prev.height < u64::MAX,
        d.difficulty + d.prev.total_difficulty <= u64::MAX,
    ensures
        ({
            &&& b.header.version == 1
            &&& b.header.height == d.prev.height + 1
            &&& b.header.previous == blake2b_256(hashed_header(d.prev))
            &&& b.header.utxo_root == Seq::new(32, |i: int| 0u8)
            &&& b.header.range_proof_root == Seq::new(32, |i: int| 0u8)
            &&& b.header.kernel_root == Seq::new(32, |i: int| 0u8)
            &&& b.header.nonce == 0
            &&& b.header.pow == Seq::new(proof_size, |i: int| 0u32)
            &&& b.header.difficulty == 1
            &&& b.header.total_difficulty == d.difficulty + d.prev.total_difficulty
            &&& b.header.timestamp == timestamp
            &&& b.header.kernel_offset == offset
        }),
        ({
            let ins = d.txs.fold_left(
                Seq::<InputData>::empty(),
                (|all: Seq<InputData>, t: CandidateData| all + t.tx.inputs),
            );
            let outs = d.txs.fold_left(
                Seq::<OutputData>::empty(),
                (|all: Seq<OutputData>, t: CandidateData| all + t.tx.outputs),
            ).push(d.reward_out);
            let kerns = d.txs.fold_left(
                Seq::<KernelData>::empty(),
                (|all: Seq<KernelData>, t: CandidateData| all + t.tx.kernels),
            ).push(d.reward_kern);
            &&& b.kernels.to_multiset() == kerns.to_multiset()
            &&& b.inputs.to_multiset() == ins.filter(
                |x: InputData|
                    !exists|j: int|
                        0 <= j < outs.len() && (#[trigger] outs[j]).features
                            == OutputFeatures::Plain && outs[j].commit == x.commit,
            ).to_multiset()
            &&& b.outputs.to_multiset() == outs.filter(
                |x: OutputData|
                    x.features != OutputFeatures::Plain || !exists|i: int|
                        0 <= i < ins.len() && (#[trigger] ins[i]).commit == x.commit,
            ).to_multiset()
            &&& forall|i: int, j: int|
                0 <= i < j < b.inputs.len() ==> lex_le(
                    #[trigger] Input::encode(b.inputs[i]),
                    #[trigger] Input::encode(b.inputs[j]),
                )
            &&& forall|i: int, j: int|
                0 <= i < j < b.outputs.len() ==> lex_le(
                    #[trigger] Output::encode(b.outputs[i]),
                    #[trigger] Output::encode(b.outputs[j]),
                )
            &&& forall|i: int, j: int|
                0 <= i < j < b.kernels.len() ==> lex_le(
                    #[trigger] TxKernel::encode(b.kernels[i]),
                    #[trigger] TxKernel::encode(b.kernels[j]),
                )
        }),
{
    let txs = transactions_of(d.txs);
    let ins = all_inputs(txs);
    let outs = all_outputs(txs).push(d.reward_out);
    let kerns = all_kernels(txs).push(d.reward_kern);
    let g = gathered(proof_size, d, offset, timestamp);
    law_items_of_candidates(d.txs);
    lemma_sorted_form::<Input>(ins);
    lemma_sorted_form::<Output>(outs);
    lemma_sorted_form::<TxKernel>(kerns);
    law_cut_through_matches_by_commitment(g, b);
    law_cut_through_keeps_order(g);
    assert forall|v: OutputData| #[trigger] g.outputs.contains(v) <==> outs.contains(v) by {
        lemma_contains_multiset(g.outputs, outs, v);
    }
    assert forall|v: InputData| #[trigger] g.inputs.contains(v) <==> ins.contains(v) by {
        lemma_contains_multiset(g.inputs, ins, v);
    }
    let in_g = |x: InputData|
        !exists|j: int|
            0 <= j < g.outputs.len() && (#[trigger] g.outputs[j]).features == OutputFeatures::Plain
                && g.outputs[j].commit == x.commit;
    let in_all = |x: InputData|
        !exists|j: int|
            0 <= j < outs.len() && (#[trigger] outs[j]).features == OutputFeatures::Plain
                && outs[j].commit == x.commit;
    assert forall|i: int| 0 <= i < ins.len() implies in_g(#[trigger] ins[i]) == in_all(ins[i]) by {
        lemma_same_outputs(g.outputs, outs, ins[i].commit);
    }
    lemma_filter_multiset(g.inputs, ins, in_g);
    lemma_filter_agree(ins, in_g, in_all);
    let out_g = |x: OutputData|
        x.features != OutputFeatures::Plain || !exists|i: int|
            0 <= i < g.inputs.len() && (#[trigger] g.inputs[i]).commit == x.commit;
    let out_all = |x: OutputData|
        x.features != OutputFeatures::Plain || !exists|i: int|
            0 <= i < ins.len() && (#[trigger] ins[i]).commit == x.commit;
    assert forall|i: int| 0 <= i < outs.len() implies out_g(#[trigger] outs[i]) == out_all(
        outs[i],
    ) by {
        lemma_same_inputs(g.inputs, ins, outs[i].commit);
    }
    lemma_filter_multiset(g.outputs, outs, out_g);
    lemma_filter_agree(outs, out_g, out_all);
}

pub proof fn lemma_same_outputs(a: Seq<OutputData>, b: Seq<OutputData>, commit: Seq<u8>)
    requires
        forall|v: OutputData| #[trigger] a.contains(v) <==> b.contains(v),
    ensures
        (exists|j: int|
            0 <= j < a.len() && (#[trigger] a[j]).features == OutputFeatures::Plain && a[j].commit
                == commit) <==> (exists|j: int|
            0 <= j < b.len() && (#[trigger] b[j]).features == OutputFeatures::Plain && b[j].commit
                == commit),
{
    if exists|j: int|
        0 <= j < a.len() && (#[trigger] a[j]).features == OutputFeatures::Plain && a[j].commit
            == commit {
        let j = choose|j: int|
            0 <= j < a.len() && (#[trigger] a[j]).features == OutputFeatures::Plain && a[j].commit
                == commit;
        assert(a.contains(a[j]));
        assert(b.contains(a[j]));
        let k = choose|k: int| 0 <= k < b.len() && b[k] == a[j];
        assert(b[k].commit == commit);
    }
    if exists|j: int|
        0 <= j < b.len() && (#[trigger] b[j]).features == OutputFeatures::Plain && b[j].commit
            == commit {
        let j = choose|j: int|
            0 <= j < b.len() && (#[trigger] b[j]).features == OutputFeatures::Plain && b[j].commit
                == commit;
        assert(b.contains(b[j]));
        assert(a.contains(b[j]));
        let k = choose|k: int| 0 <= k < a.len() && a[k] == b[j];
        assert(a[k].commit == commit);
    }
}

pub proof fn lemma_same_inputs(a: Seq<InputData>, b: Seq<InputData>, commit: Seq<u8>)
    requires
        forall|v: InputData| #[trigger] a.contains(v) <==> b.contains(v),
    ensures
        (exists|j: int| 0 <= j < a.len() && (#[trigger] a[j]).commit == commit) <==> (exists|j: int|
            0 <= j < b.len() && (#[trigger] b[j]).commit == commit),
{
    if exists|j: int| 0 <= j < a.len() && (#[trigger] a[j]).commit == commit {
        let j = choose|j: int| 0 <= j < a.len() && (#[trigger] a[j]).commit == commit;
        assert(a.contains(a[j]));
        assert(b.contains(a[j]));
        let k = choose|k: int| 0 <= k < b.len() && b[k] == a[j];
        assert(b[k].commit == commit);
    }
    if exists|j: int| 0 <= j < b.len() && (#[trigger] b[j]).commit == commit {
        let j = choose|j: int| 0 <= j < b.len() && (#[trigger] b[j]).commit == commit;
        assert(b.contains(b[j]));
        assert(a.contains(b[j]));
        let k = choose|k: int| 0 <= k < a.len() && a[k] == b[j];
        assert(a[k].commit == commit);
    }
}

} // verus!
