//! Building blocks from transactions and a reward.

use vstd::prelude::*;
use crate::block::{cut_through_of, input_commits, output_commits, Block, BlockData};
use crate::consensus::{reward_of, ChainParams};
use crate::error::{Error, KeychainError};
use crate::hash::blake2b_256;
use crate::header::{default_header, hashed_header, BlockHeader, Difficulty, HeaderData};
use crate::laws::amounts::{
    law_candidate_fees_add_up, law_candidate_offsets_add_up, law_offsets_add_up,
};
use crate::laws::assembly::{law_built_holds_what_was_given, law_every_candidate_is_checked};
use crate::laws::building::{law_built_pays_the_fees, law_reward_is_right};
use crate::laws::cutting::law_cut_through_keeps_order;
use crate::laws::soundness::law_built_block_is_valid;
use crate::order::{all_valid, append_all, lex_le, sort, sorted_form, views, Wire};
use crate::secp::{
    all_points, commit_sum, commit_sum_of, commit_value, commit_value_of, curve_order, is_own_sum,
    log_of, log_total, log_value, offset_sum_of, outcome, range_proof_check, secret_key_of,
    sum_offsets, summable, value_log, zero_factor, BlindingFactor, Commitment, RangeProof,
    SecpError, Signature,
};
use crate::ser::be_value;
use crate::totals::lemma_total_of_one;
use crate::transaction::{
    all_inputs, all_kernels, all_outputs, checked_fee_sum, fee_sum, kernel_check, kernel_sig_msg,
    kernel_sig_msg_of, Candidate, CandidateData, Input, InputData, KernelData, KernelFeatures,
    Output, OutputData, OutputFeatures, SwitchCommitHash, TransactionData, TransactionError,
    TxKernel,
};
use crate::validate::{
    all_sorted, block_check, block_weight, coinbase_check, excesses, kernel_fault, kernel_log,
};

verus! {

/// What the keeper of keys is asked for a reward: a commitment to the value, the hash of the
/// switch commitment, a range proof of the value with no message, and a signature.
#[derive(Clone, Copy, Debug, PartialEq, Eq)]
pub struct RewardRequest {
    /// The value of the reward.
    pub value: u64,
    /// The message to be signed: the fee, which is zero, and the height of the block.
    pub msg: [u8; 32],
}

/// What the keeper of keys answers for a reward. What was not asked for because of an earlier
/// failure is of no account.
#[derive(Debug, PartialEq, Eq)]
pub struct RewardReply {
    /// The commitment to the value.
    pub commit: Result<Commitment, KeychainError>,
    /// The hash of the switch commitment.
    pub switch_commit_hash: Result<SwitchCommitHash, KeychainError>,
    /// The range proof of the value.
    pub range_proof: Result<RangeProof, KeychainError>,
    /// The signature of the message.
    pub sig: Result<Signature, KeychainError>,
}

impl RewardReply {
    /// Whether all that was asked for was answered.
    pub open spec fn is_complete(&self) -> bool {
        &&& self.commit is Ok
        &&& self.switch_commit_hash is Ok
        &&& self.range_proof is Ok
        &&& self.sig is Ok
    }
}

/// What is left of a commitment to `value` once the value is taken away.
pub open spec fn excess_of(commit: Seq<u8>, value: u64) -> Result<Seq<u8>, SecpError> {
    match commit_value_of(value) {
        Err(e) => Err(e),
        Ok(over) => commit_sum_of(seq![commit], seq![over]),
    }
}

/// Whether a commitment is the sum of a value and an excess, as points of the curve.
pub open spec fn is_value_and_excess(commit: Seq<u8>, value: nat, excess: Seq<u8>) -> bool {
    &&& log_of(commit) is Some
    &&& log_of(excess) is Some
    &&& (log_value(commit) - value * value_log(1) - log_value(excess)) % curve_order() as int == 0
}

/// What is left of a commitment to `value` once the value is taken away.
pub fn reward_excess(commit: &Commitment, value: u64) -> (r: Result<Commitment, SecpError>)
    ensures
        outcome(r) == excess_of(commit@, value),
        r matches Ok(excess) ==> is_own_sum(excess@),
        r matches Ok(excess) ==> (value > 0 ==> is_value_and_excess(
            commit@,
            value as nat,
            excess@,
        )),
        value > 0 ==> (r is Ok <==> log_of(commit@) is Some && (match log_of(commit@) {
                Some(log) => log as int,
                None => 0,
            } - value * value_log(1)) % curve_order() as int != 0),
        r matches Ok(excess) ==> (value > 0 ==> log_of(excess@) == Some(((match log_of(commit@) {
                Some(log) => log as int,
                None => 0,
            } - value * value_log(1)) % curve_order() as int) as nat)),
        value > 0 && log_of(commit@) is None ==> r == Err::<Commitment, SecpError>(
            SecpError::InvalidCommit,
        ),
        value > 0 && log_of(commit@) is Some && r is Err ==> r == Err::<Commitment, SecpError>(
            SecpError::IncorrectCommitSum,
        ),
{
    let over = match commit_value(value) {
        Ok(over) => over,
        Err(e) => return Err(e),
    };
    let positive: Vec<Commitment> = vec![*commit];
    let negative: Vec<Commitment> = vec![over];
    assert(views(positive@) =~= seq![commit@]);
    assert(views(negative@) =~= seq![over@]);
    proof {
        let log = |c: Seq<u8>| log_value(c);
        lemma_total_of_one(commit@, log);
        lemma_total_of_one(over@, log);
        assert(seq![commit@][0] == commit@);
    }
    commit_sum(&positive, &negative)
}

/// The output and the kernel of a reward, or the first failure: of the commitment, of the
/// switch commitment, of the range proof, of the excess or of the signature.
pub open spec fn reward_pair_of(
    reply: RewardReply,
    excess: Result<Seq<u8>, SecpError>,
    height: u64,
) -> Result<(OutputData, KernelData), KeychainError> {
    match reply.commit {
        Err(e) => Err(e),
        Ok(commit) => match reply.switch_commit_hash {
            Err(e) => Err(e),
            Ok(switch_commit_hash) => match reply.range_proof {
                Err(e) => Err(e),
                Ok(proof) => match excess {
                    Err(e) => Err(KeychainError::Secp(e)),
                    Ok(excess) => match reply.sig {
                        Err(e) => Err(e),
                        Ok(sig) => Ok(
                            (
                                OutputData {
                                    features: OutputFeatures::Coinbase,
                                    commit: commit@,
                                    switch_commit_hash: switch_commit_hash@,
                                    proof: proof@,
                                },
                                KernelData {
                                    features: KernelFeatures::Coinbase,
                                    fee: 0,
                                    lock_height: height,
                                    excess,
                                    excess_sig: sig@,
                                },
                            ),
                        ),
                    },
                },
            },
        },
    }
}

/// The outcome of making a reward, with output and kernel by their views.
pub open spec fn reward_outcome(r: Result<(Output, TxKernel), KeychainError>) -> Result<
    (OutputData, KernelData),
    KeychainError,
> {
    match r {
        Ok((output, kernel)) => Ok((output@, kernel@)),
        Err(e) => Err(e),
    }
}

/// The output and the kernel of a reward, made of what the keeper of keys answered and of the
/// excess.
pub fn reward_pair(
    reply: RewardReply,
    excess: Result<Commitment, SecpError>,
    height: u64,
) -> (r: Result<(Output, TxKernel), KeychainError>)
    ensures
        reward_outcome(r) == reward_pair_of(reply, outcome(excess), height),
        r is Ok <==> reply.commit is Ok && reply.switch_commit_hash is Ok && reply.range_proof is Ok
            && excess is Ok && reply.sig is Ok,
        r matches Ok((output, kernel)) ==> {
            &&& output@.features == OutputFeatures::Coinbase
            &&& output@.commit == reply.commit->Ok_0@
            &&& output@.switch_commit_hash == reply.switch_commit_hash->Ok_0@
            &&& output@.proof == reply.range_proof->Ok_0@
            &&& kernel@.features == KernelFeatures::Coinbase
            &&& kernel@.fee == 0
            &&& kernel@.lock_height == height
            &&& kernel@.excess == excess->Ok_0@
            &&& kernel@.excess_sig == reply.sig->Ok_0@
        },
        r matches Err(e) ==> e == (if reply.commit is Err {
            reply.commit->Err_0
        } else if reply.switch_commit_hash is Err {
            reply.switch_commit_hash->Err_0
        } else if reply.range_proof is Err {
            reply.range_proof->Err_0
        } else if excess is Err {
            KeychainError::Secp(excess->Err_0)
        } else {
            reply.sig->Err_0
        }),
{
    let commit = match reply.commit {
        Ok(commit) => commit,
        Err(e) => return Err(e),
    };
    let switch_commit_hash = match reply.switch_commit_hash {
        Ok(hash) => hash,
        Err(e) => return Err(e),
    };
    let range_proof = match reply.range_proof {
        Ok(bytes) => bytes,
        Err(e) => return Err(e),
    };
    let excess = match excess {
        Ok(excess) => excess,
        Err(e) => return Err(KeychainError::from(e)),
    };
    let excess_sig = match reply.sig {
        Ok(sig) => sig,
        Err(e) => return Err(e),
    };
    let output = Output {
        features: OutputFeatures::Coinbase,
        commit,
        switch_commit_hash,
        proof: range_proof,
    };
    // The lock height is the height of the block, so that the kernel is valid immediately, and
    // not the height at which the output can be spent.
    let kernel = TxKernel {
        features: KernelFeatures::Coinbase,
        fee: 0,
        lock_height: height,
        excess,
        excess_sig,
    };
    Ok((output, kernel))
}

/// The output and the kernel of the reward of a block.
pub open spec fn reward_output_of(
    params: ChainParams,
    reply: RewardReply,
    fees: nat,
    height: u64,
) -> Result<(OutputData, KernelData), KeychainError> {
    match reply.commit {
        Err(e) => Err(e),
        Ok(commit) => reward_pair_of(
            reply,
            excess_of(commit@, reward_of(params, fees) as u64),
            height,
        ),
    }
}

/// Reads the clock with `time::now_utc`, in whole seconds. Nothing is known of the time.
#[verifier::external_body]
fn current_time() -> (r: i64) {
    time::now_utc().to_timespec().sec
}

/// The transactions of some candidates.
pub open spec fn transactions_of(txs: Seq<CandidateData>) -> Seq<TransactionData> {
    Seq::new(txs.len(), |i: int| txs[i].tx)
}

/// The offsets of some candidates.
pub open spec fn offsets_of(txs: Seq<CandidateData>) -> Seq<Seq<u8>> {
    Seq::new(txs.len(), |i: int| txs[i].tx.offset)
}

/// Why the first candidate is not valid that is not.
pub open spec fn first_invalid(txs: Seq<CandidateData>) -> Option<TransactionError>
    decreases txs.len(),
{
    if txs.len() == 0 {
        None
    } else {
        match first_invalid(txs.drop_last()) {
            Some(e) => Some(e),
            None => match txs.last().verdict {
                Err(e) => Some(e),
                Ok(()) => None,
            },
        }
    }
}

/// The sum of all fees of some candidates.
pub open spec fn candidate_fees(txs: Seq<CandidateData>) -> nat {
    fee_sum(all_kernels(transactions_of(txs)))
}

/// What a block is built from, besides the offset and the time.
pub struct BuildData {
    pub prev: HeaderData,
    pub txs: Seq<CandidateData>,
    pub reward_out: OutputData,
    pub reward_kern: KernelData,
    pub difficulty: u64,
}

/// Whether all items that go into a block are views of values.
pub open spec fn valid_build(
    txs: Seq<CandidateData>,
    reward_out: OutputData,
    reward_kern: KernelData,
) -> bool {
    let txs = transactions_of(txs);
    &&& all_valid::<Input>(all_inputs(txs))
    &&& all_valid::<Output>(all_outputs(txs).push(reward_out))
    &&& all_valid::<TxKernel>(all_kernels(txs).push(reward_kern))
}

/// Whether none of the candidates holds an output or a kernel of a reward.
pub open spec fn without_rewards(txs: Seq<CandidateData>) -> bool {
    let txs = transactions_of(txs);
    &&& forall|i: int|
        0 <= i < all_outputs(txs).len() ==> (#[trigger] all_outputs(txs)[i]).features
            == OutputFeatures::Plain
    &&& forall|i: int|
        0 <= i < all_kernels(txs).len() ==> (#[trigger] all_kernels(txs)[i]).features
            == KernelFeatures::Plain
}

/// What an offset adds to the sum of offsets.
pub open spec fn counted(offset: Seq<u8>) -> int {
    if summable(offset) {
        be_value(offset) as int
    } else {
        0
    }
}

/// The number by which the outputs and the fee of a transaction miss its inputs, its excesses
/// and its offset.
pub open spec fn gap(tx: TransactionData) -> int {
    log_total(output_commits(tx.outputs)) + fee_sum(tx.kernels) * value_log(1) - log_total(
        input_commits(tx.inputs),
    ) - log_total(excesses(tx.kernels)) - counted(tx.offset)
}

/// Whether the outputs and the fee of a transaction sum to its inputs, its excesses and its
/// offset, as points of the curve.
pub open spec fn balances(tx: TransactionData) -> bool {
    gap(tx) % curve_order() as int == 0
}

/// Whether what a block `b` was built from is sound: all of its transactions balance, hold no
/// reward and obey the rules for kernels; all commitments are points of the curve, no two of
/// inputs and no two of outputs being the same; all range proofs and signatures are right; and
/// the block is not too heavy. That the kernels do not sum to the point at infinity, which is
/// no commitment, is asked for too.
pub open spec fn is_sound(params: ChainParams, d: BuildData, b: BlockData) -> bool {
    let txs = transactions_of(d.txs);
    let kernels = all_kernels(txs);
    let made = all_outputs(txs).push(d.reward_out);
    let proved = kernels.push(d.reward_kern);
    &&& forall|i: int| 0 <= i < txs.len() ==> balances(#[trigger] txs[i])
    &&& without_rewards(d.txs)
    &&& forall|i: int|
        0 <= i < kernels.len() ==> kernel_fault(
            #[trigger] kernels[i],
            (d.prev.height + 1) as u64,
        ) is None
    &&& all_points(input_commits(all_inputs(txs)))
    &&& all_points(output_commits(all_outputs(txs)))
    &&& all_points(excesses(kernels))
    &&& input_commits(all_inputs(txs)).no_duplicates()
    &&& output_commits(made).no_duplicates()
    &&& forall|i: int|
        0 <= i < made.len() ==> range_proof_check(
            (#[trigger] made[i]).commit,
            made[i].proof,
        ) is Ok
    &&& forall|i: int| 0 <= i < proved.len() ==> kernel_check(#[trigger] proved[i]) is Ok
    &&& reward_of(params, candidate_fees(d.txs)) > 0
    &&& block_weight(params, b) <= params.max_weight
    &&& kernel_log(b) % curve_order() as int != 0
}

/// The header of a block that follows `prev`.
pub open spec fn next_header(
    proof_size: nat,
    prev: HeaderData,
    difficulty: u64,
    offset: Seq<u8>,
    timestamp: i64,
) -> HeaderData {
    HeaderData {
        height: (prev.height + 1) as u64,
        timestamp,
        previous: blake2b_256(hashed_header(prev)),
        total_difficulty: (difficulty + prev.total_difficulty) as u64,
        kernel_offset: offset,
        ..default_header(proof_size)
    }
}

/// The block with all that the candidates hold and with the reward, in order.
pub open spec fn gathered(
    proof_size: nat,
    d: BuildData,
    offset: Seq<u8>,
    timestamp: i64,
) -> BlockData {
    let txs = transactions_of(d.txs);
    BlockData {
        header: next_header(proof_size, d.prev, d.difficulty, offset, timestamp),
        inputs: sorted_form::<Input>(all_inputs(txs)),
        outputs: sorted_form::<Output>(all_outputs(txs).push(d.reward_out)),
        kernels: sorted_form::<TxKernel>(all_kernels(txs).push(d.reward_kern)),
    }
}

/// The block that is built, or why there is none: the first candidate that is not valid, or
/// else the failure to sum the offsets.
pub open spec fn built(
    proof_size: nat,
    d: BuildData,
    offset: Result<Seq<u8>, SecpError>,
    timestamp: i64,
) -> Result<BlockData, Error> {
    match first_invalid(d.txs) {
        Some(e) => Err(Error::Transaction(e)),
        None => match offset {
            Err(e) => Err(Error::Secp(e)),
            Ok(offset) => Ok(cut_through_of(gathered(proof_size, d, offset, timestamp))),
        },
    }
}

/// The outcome of building a block, with the block by its view.
pub open spec fn build_outcome(r: Result<Block, Error>) -> Result<BlockData, Error> {
    match r {
        Ok(block) => Ok(block@),
        Err(e) => Err(e),
    }
}

/// When a block was built, if it was.
pub open spec fn build_time(r: Result<Block, Error>) -> i64 {
    match r {
        Ok(block) => block.header.timestamp,
        Err(_) => 0,
    }
}

/// Whether the height and the total difficulty of a block after `prev` fit, where there is to
/// be such a block: all candidates are valid, and their offsets have a sum.
pub open spec fn can_follow(
    prev: HeaderData,
    txs: Seq<CandidateData>,
    difficulty: u64,
    offset: Result<Seq<u8>, SecpError>,
) -> bool {
    first_invalid(txs) is None && offset is Ok ==> {
        &&& prev.height < u64::MAX
        &&& difficulty + prev.total_difficulty <= u64::MAX
    }
}

/// Why the first candidate is not valid that is not.
fn find_invalid(txs: &Vec<Candidate>) -> (r: Option<TransactionError>)
    ensures
        r == first_invalid(views(txs@)),
{
    let ghost all = views(txs@);
    let mut i: usize = 0;
    while i < txs.len()
        invariant
            i <= txs@.len(),
            all == views(txs@),
            first_invalid(all.take(i as int)) is None,
        decreases txs@.len() - i,
    {
        assert(all.take(i + 1).drop_last() =~= all.take(i as int));
        match txs[i].verdict {
            Ok(()) => {},
            Err(e) => {
                proof {
                    lemma_first_invalid(all, i + 1);
                }
                return Some(e);
            },
        }
        i += 1;
    }
    assert(all.take(i as int) =~= all);
    None
}

proof fn lemma_candidates_are_checked(
    proof_size: nat,
    d: BuildData,
    offset: Result<Seq<u8>, SecpError>,
    timestamp: i64,
    txs: Seq<Candidate>,
)
    requires
        d.txs == views(txs),
    ensures
        ({
            let r = built(proof_size, d, offset, timestamp);
            &&& r is Ok <==> offset is Ok && forall|i: int|
                0 <= i < txs.len() ==> (#[trigger] txs[i]).verdict is Ok
            &&& (exists|i: int| 0 <= i < txs.len() && (#[trigger] txs[i]).verdict is Err)
                ==> exists|i: int|
                0 <= i < txs.len() && (#[trigger] txs[i]).verdict is Err && (forall|k: int|
                    0 <= k < i ==> (#[trigger] txs[k]).verdict is Ok) && r == Err::<
                    BlockData,
                    Error,
                >(Error::Transaction(txs[i].verdict->Err_0))
            &&& (forall|i: int| 0 <= i < txs.len() ==> (#[trigger] txs[i]).verdict is Ok)
                && offset is Err ==> r == Err::<BlockData, Error>(Error::Secp(offset->Err_0))
        }),
{
    let r = built(proof_size, d, offset, timestamp);
    law_every_candidate_is_checked(proof_size, d, offset, timestamp);
    assert forall|i: int| 0 <= i < txs.len() implies d.txs[i].verdict == (
    #[trigger] txs[i]).verdict by {}
    if exists|i: int| 0 <= i < txs.len() && (#[trigger] txs[i]).verdict is Err {
        let w = choose|i: int| 0 <= i < txs.len() && (#[trigger] txs[i]).verdict is Err;
        assert(d.txs[w].verdict is Err);
        let i = choose|i: int|
            0 <= i < d.txs.len() && (#[trigger] d.txs[i]).verdict is Err && (forall|k: int|
                0 <= k < i ==> (#[trigger] d.txs[k]).verdict is Ok) && r == Err::<
                BlockData,
                Error,
            >(Error::Transaction(d.txs[i].verdict->Err_0));
        assert(txs[i].verdict is Err);
        assert forall|k: int| 0 <= k < i implies (#[trigger] txs[k]).verdict is Ok by {
            assert(d.txs[k].verdict is Ok);
        }
    }
    if forall|i: int| 0 <= i < txs.len() ==> (#[trigger] txs[i]).verdict is Ok {
        assert forall|i: int| 0 <= i < d.txs.len() implies (#[trigger] d.txs[i]).verdict is Ok by {
            assert(txs[i].verdict is Ok);
        }
    }
}

proof fn lemma_first_invalid(txs: Seq<CandidateData>, n: int)
    requires
        0 <= n <= txs.len(),
        first_invalid(txs.take(n)) is Some,
    ensures
        first_invalid(txs) == first_invalid(txs.take(n)),
    decreases txs.len(),
{
    if n < txs.len() {
        assert(txs.drop_last().take(n) =~= txs.take(n));
        lemma_first_invalid(txs.drop_last(), n);
    } else {
        assert(txs.take(n) =~= txs);
    }
}

/// Fees add up over the kernels of two lists.
pub proof fn lemma_fee_sum_of_both(a: Seq<KernelData>, b: Seq<KernelData>)
    ensures
        fee_sum(a + b) == fee_sum(a) + fee_sum(b),
    decreases b.len(),
{
    if b.len() == 0 {
        assert(a + b =~= a);
    } else {
        assert((a + b).drop_last() =~= a + b.drop_last());
        lemma_fee_sum_of_both(a, b.drop_last());
    }
}

proof fn lemma_fees_of_prefix(txs: Seq<TransactionData>, n: int)
    requires
        0 <= n <= txs.len(),
    ensures
        fee_sum(all_kernels(txs.take(n))) <= fee_sum(all_kernels(txs)),
    decreases txs.len(),
{
    if n < txs.len() {
        assert(txs.drop_last().take(n) =~= txs.take(n));
        lemma_fees_of_prefix(txs.drop_last(), n);
        lemma_fee_sum_of_both(all_kernels(txs.drop_last()), txs.last().kernels);
    } else {
        assert(txs.take(n) =~= txs);
    }
}

/// The sum of all fees of some candidates, if it fits.
pub fn checked_candidate_fees(txs: &Vec<Candidate>) -> (r: Option<u64>)
    ensures
        match r {
            Some(sum) => sum == candidate_fees(views(txs@)),
            None => candidate_fees(views(txs@)) > u64::MAX,
        },
        match r {
            Some(sum) => sum == views(txs@).fold_left(
                0int,
                (|sum: int, c: CandidateData|
                    sum + c.tx.kernels.fold_left(0int, (|fees: int, k: KernelData| fees + k.fee))),
            ),
            None => views(txs@).fold_left(
                0int,
                (|sum: int, c: CandidateData|
                    sum + c.tx.kernels.fold_left(0int, (|fees: int, k: KernelData| fees + k.fee))),
            ) > u64::MAX,
        },
{
    proof {
        law_candidate_fees_add_up(views(txs@));
    }
    let ghost all = transactions_of(views(txs@));
    let mut sum: u64 = 0;
    let mut i: usize = 0;
    while i < txs.len()
        invariant
            i <= txs@.len(),
            all == transactions_of(views(txs@)),
            sum == fee_sum(all_kernels(all.take(i as int))),
        decreases txs@.len() - i,
    {
        proof {
            let next = all.take(i + 1);
            assert(next.drop_last() =~= all.take(i as int));
            lemma_fee_sum_of_both(all_kernels(next.drop_last()), next.last().kernels);
            lemma_fees_of_prefix(all, i + 1);
            law_candidate_fees_add_up(views(txs@));
        }
        let fee = match checked_fee_sum(&txs[i].tx.kernels) {
            Some(fee) => fee,
            None => return None,
        };
        match sum.checked_add(fee) {
            Some(more) => {
                sum = more;
            },
            None => return None,
        }
        i += 1;
    }
    assert(all.take(i as int) =~= all);
    Some(sum)
}

/// The offsets of some candidates.
fn collect_offsets(txs: &Vec<Candidate>) -> (r: Vec<BlindingFactor>)
    ensures
        views(r@) == offsets_of(views(txs@)),
{
    let mut r: Vec<BlindingFactor> = Vec::new();
    let mut i: usize = 0;
    while i < txs.len()
        invariant
            i <= txs@.len(),
            views(r@) == offsets_of(views(txs@)).take(i as int),
        decreases txs@.len() - i,
    {
        let ghost before = views(r@);
        r.push(txs[i].tx.offset);
        assert(views(r@) =~= before.push(txs@[i as int]@.tx.offset));
        i += 1;
    }
    assert(views(r@) =~= offsets_of(views(txs@)));
    r
}

impl Block {
    /// What the keeper of keys is asked for the reward of a block.
    pub fn reward_request(params: &ChainParams, fees: u64, height: u64) -> (r: RewardRequest)
        requires
            params.wf(),
        ensures
            r.value == reward_of(*params, fees as nat),
            r.value == params.subsidy + fees as int / 2,
            2 * (r.value - params.subsidy) <= fees < 2 * (r.value - params.subsidy) + 2,
            r.msg@ == kernel_sig_msg_of(0, height),
            forall|i: int| 0 <= i < 24 ==> r.msg@[i] == 0,
            be_value(r.msg@.subrange(24, 32)) == height,
    {
        RewardRequest { value: params.reward(fees), msg: kernel_sig_msg(0, height) }
    }

    /// Builds the blinded output and related signature proof for the block reward, from what
    /// the keeper of keys answered to [`Block::reward_request`].
    pub fn reward_output(params: &ChainParams, reply: RewardReply, fees: u64, height: u64) -> (r:
        Result<(Output, TxKernel), KeychainError>)
        requires
            params.wf(),
        ensures
            reward_outcome(r) == reward_output_of(*params, reply, fees as nat, height),
            r matches Ok((_, kernel)) ==> is_own_sum(kernel@.excess),
            r matches Ok((output, kernel)) ==> (reward_of(*params, fees as nat) > 0
                ==> is_value_and_excess(
                output@.commit,
                reward_of(*params, fees as nat),
                kernel@.excess,
            )),
            r is Ok ==> reply.commit is Ok && reply.switch_commit_hash is Ok
                && reply.range_proof is Ok && reply.sig is Ok,
            r matches Ok((output, kernel)) ==> {
                &&& output@.features == OutputFeatures::Coinbase
                &&& output@.commit == reply.commit->Ok_0@
                &&& output@.switch_commit_hash == reply.switch_commit_hash->Ok_0@
                &&& output@.proof == reply.range_proof->Ok_0@
                &&& kernel@.features == KernelFeatures::Coinbase
                &&& kernel@.fee == 0
                &&& kernel@.lock_height == height
                &&& kernel@.excess_sig == reply.sig->Ok_0@
            },
            params.subsidy + fees as int / 2 > 0 && reply.commit is Ok && reply.switch_commit_hash
                is Ok && reply.range_proof is Ok && reply.sig is Ok ==> (r is Ok <==> log_of(
                reply.commit->Ok_0@,
            ) is Some && (log_of(reply.commit->Ok_0@)->0 - (params.subsidy + fees as int / 2)
                * value_log(1)) % curve_order() as int != 0),
            r matches Ok((output, kernel)) ==> (params.subsidy + fees as int / 2 > 0 ==> log_of(
                kernel@.excess,
            ) == Some(
                ((log_of(reply.commit->Ok_0@)->0 - (params.subsidy + fees as int / 2) * value_log(
                    1,
                )) % curve_order() as int) as nat,
            )),
            reply.commit is Err ==> r == Err::<(Output, TxKernel), KeychainError>(
                reply.commit->Err_0,
            ),
            reply.commit is Ok && reply.switch_commit_hash is Err ==> r == Err::<
                (Output, TxKernel),
                KeychainError,
            >(reply.switch_commit_hash->Err_0),
            reply.commit is Ok && reply.switch_commit_hash is Ok && reply.range_proof is Err ==> r
                == Err::<(Output, TxKernel), KeychainError>(reply.range_proof->Err_0),
    {
        let excess = match reply.commit {
            Ok(commit) => reward_excess(&commit, params.reward(fees)),
            Err(e) => return Err(e),
        };
        reward_pair(reply, excess, height)
    }

    /// Builds a new block from the header of the previous block, a vector of transactions and
    /// what the keeper of keys answered for the reward. Checks that all transactions are valid.
    /// Where the transactions hold no reward, that of the block is right; where all that it is
    /// built from is sound, the block is valid.
    pub fn new(
        params: &ChainParams,
        prev: &BlockHeader,
        txs: &Vec<Candidate>,
        reply: RewardReply,
        difficulty: Difficulty,
    ) -> (r: Result<Block, Error>)
        requires
            params.wf(),
            candidate_fees(views(txs@)) <= u64::MAX,
            prev.height < u64::MAX,
            reply.is_complete() ==> can_follow(
                prev@,
                views(txs@),
                difficulty.num,
                offset_sum_of(offsets_of(views(txs@))),
            ),
        ensures
            match reward_output_of(
                *params,
                reply,
                candidate_fees(views(txs@)),
                (prev.height + 1) as u64,
            ) {
                Err(e) => r == Err::<Block, Error>(Error::Keychain(e)),
                Ok((reward_out, reward_kern)) => {
                    let d = BuildData {
                        prev: prev@,
                        txs: views(txs@),
                        reward_out,
                        reward_kern,
                        difficulty: difficulty.num,
                    };
                    &&& build_outcome(r) == built(
                        params.proof_size as nat,
                        d,
                        offset_sum_of(offsets_of(views(txs@))),
                        build_time(r),
                    )
                    &&& r is Ok ==> valid_build(views(txs@), reward_out, reward_kern)
                    &&& r matches Ok(block) ==> (is_sound(*params, d, block@) ==> block_check(
                        *params,
                        block@,
                    ) == Ok::<(), Error>(()))
                },
            },
            r matches Ok(block) ==> all_sorted(block@),
            r matches Ok(block) ==> block@.header.kernel_offset == zero_factor() || secret_key_of(
                block@.header.kernel_offset,
            ) is Ok,
            r matches Ok(block) ==> fee_sum(block@.kernels) == candidate_fees(views(txs@)),
            r matches Ok(block) ==> (without_rewards(views(txs@)) ==> coinbase_check(
                *params,
                block@,
            ) == Ok::<(), Error>(())),
            ({
                let reward = reward_output_of(
                    *params,
                    reply,
                    candidate_fees(views(txs@)),
                    (prev.height + 1) as u64,
                );
                let valid = forall|i: int|
                    0 <= i < txs@.len() ==> (#[trigger] txs@[i]).verdict is Ok;
                let sum = views(txs@).fold_left(
                    0int,
                    (|sum: int, x: CandidateData|
                        if 0 < be_value(x.tx.offset) < curve_order() {
                            sum + be_value(x.tx.offset)
                        } else {
                            sum
                        }),
                ) % curve_order() as int;
                let some = exists|i: int|
                    0 <= i < views(txs@).len() && 0 < be_value(
                        (#[trigger] views(txs@)[i]).tx.offset,
                    ) < curve_order();
                &&& r is Ok ==> valid
                &&& reward is Ok ==> (r is Ok <==> valid && !(some && sum == 0))
                &&& reward is Ok && !valid ==> exists|i: int|
                    0 <= i < txs@.len() && (#[trigger] txs@[i]).verdict is Err && (forall|k: int|
                        0 <= k < i ==> (#[trigger] txs@[k]).verdict is Ok) && r == Err::<
                        Block,
                        Error,
                    >(Error::Transaction(txs@[i].verdict->Err_0))
                &&& reward is Ok && valid && some && sum == 0 ==> r == Err::<Block, Error>(
                    Error::Secp(SecpError::InvalidSecretKey),
                )
                &&& r matches Ok(block) ==> block@.header.kernel_offset.len() == 32 && be_value(
                    block@.header.kernel_offset,
                ) == sum
            }),
            r matches Ok(block) ==> ({
                &&& block@.header.version == 1
                &&& block@.header.height == prev@.height + 1
                &&& block@.header.previous == blake2b_256(hashed_header(prev@))
                &&& block@.header.utxo_root == Seq::new(32, |i: int| 0u8)
                &&& block@.header.range_proof_root == Seq::new(32, |i: int| 0u8)
                &&& block@.header.kernel_root == Seq::new(32, |i: int| 0u8)
                &&& block@.header.nonce == 0
                &&& block@.header.pow == Seq::new(params.proof_size as nat, |i: int| 0u32)
                &&& block@.header.difficulty == 1
                &&& block@.header.total_difficulty == difficulty.num + prev@.total_difficulty
            }),
            r matches Ok(block) ==> ({
                let reward = reward_output_of(
                    *params,
                    reply,
                    candidate_fees(views(txs@)),
                    (prev.height + 1) as u64,
                );
                let ins = views(txs@).fold_left(
                    Seq::<InputData>::empty(),
                    (|all: Seq<InputData>, t: CandidateData| all + t.tx.inputs),
                );
                let outs = views(txs@).fold_left(
                    Seq::<OutputData>::empty(),
                    (|all: Seq<OutputData>, t: CandidateData| all + t.tx.outputs),
                ).push((reward->Ok_0).0);
                let kerns = views(txs@).fold_left(
                    Seq::<KernelData>::empty(),
                    (|all: Seq<KernelData>, t: CandidateData| all + t.tx.kernels),
                ).push((reward->Ok_0).1);
                &&& block@.kernels.to_multiset() == kerns.to_multiset()
                &&& block@.inputs.to_multiset() == ins.filter(
                    |x: InputData|
                        !exists|j: int|
                            0 <= j < outs.len() && (#[trigger] outs[j]).features
                                == OutputFeatures::Plain && outs[j].commit == x.commit,
                ).to_multiset()
                &&& block@.outputs.to_multiset() == outs.filter(
                    |x: OutputData|
                        x.features != OutputFeatures::Plain || !exists|i: int|
                            0 <= i < ins.len() && (#[trigger] ins[i]).commit == x.commit,
                ).to_multiset()
                &&& forall|i: int, j: int|
                    0 <= i < j < block@.inputs.len() ==> lex_le(
                        #[trigger] Input::encode(block@.inputs[i]),
                        #[trigger] Input::encode(block@.inputs[j]),
                    )
                &&& forall|i: int, j: int|
                    0 <= i < j < block@.outputs.len() ==> lex_le(
                        #[trigger] Output::encode(block@.outputs[i]),
                        #[trigger] Output::encode(block@.outputs[j]),
                    )
                &&& forall|i: int, j: int|
                    0 <= i < j < block@.kernels.len() ==> lex_le(
                        #[trigger] TxKernel::encode(block@.kernels[i]),
                        #[trigger] TxKernel::encode(block@.kernels[j]),
                    )
            }),
    {
        let fees: u64 = match checked_candidate_fees(txs) {
            Some(fees) => fees,
            None => 0,
        };
        match Block::reward_output(params, reply, fees, prev.height + 1) {
            Ok((reward_out, reward_kern)) => {
                let ghost d = BuildData {
                    prev: prev@,
                    txs: views(txs@),
                    reward_out: reward_out@,
                    reward_kern: reward_kern@,
                    difficulty: difficulty.num,
                };
                let r = Block::with_reward(
                    params,
                    prev,
                    txs,
                    reward_out,
                    reward_kern,
                    difficulty,
                );
                proof {
                    if r is Ok {
                        law_built_pays_the_fees(
                            params.proof_size as nat,
                            d,
                            offset_sum_of(offsets_of(d.txs))->Ok_0,
                            build_time(r),
                        );
                    }
                    if r is Ok && without_rewards(d.txs) {
                        law_reward_is_right(
                            *params,
                            d,
                            offset_sum_of(offsets_of(d.txs))->Ok_0,
                            build_time(r),
                        );
                    }
                    if r is Ok && is_sound(*params, d, r->Ok_0@) {
                        law_built_block_is_valid(
                            *params,
                            d,
                            offset_sum_of(offsets_of(d.txs))->Ok_0,
                            build_time(r),
                            r->Ok_0@,
                        );
                    }
                }
                r
            },
            Err(e) => Err(Error::from(e)),
        }
    }

    /// Builds a new block ready to mine from the header of the previous block, a vector of
    /// transactions and the reward information. Checks that all transactions are valid.
    pub fn with_reward(
        params: &ChainParams,
        prev: &BlockHeader,
        txs: &Vec<Candidate>,
        reward_out: Output,
        reward_kern: TxKernel,
        difficulty: Difficulty,
    ) -> (r: Result<Block, Error>)
        requires
            can_follow(
                prev@,
                views(txs@),
                difficulty.num,
                offset_sum_of(offsets_of(views(txs@))),
            ),
        ensures
            build_outcome(r) == built(
                params.proof_size as nat,
                (BuildData {
                    prev: prev@,
                    txs: views(txs@),
                    reward_out: reward_out@,
                    reward_kern: reward_kern@,
                    difficulty: difficulty.num,
                }),
                offset_sum_of(offsets_of(views(txs@))),
                build_time(r),
            ),
            r is Ok ==> valid_build(views(txs@), reward_out@, reward_kern@),
            r matches Ok(block) ==> all_sorted(block@),
            r matches Ok(block) ==> block@.header.kernel_offset == zero_factor() || secret_key_of(
                block@.header.kernel_offset,
            ) is Ok,
            ({
                let valid = forall|i: int|
                    0 <= i < txs@.len() ==> (#[trigger] txs@[i]).verdict is Ok;
                let sum = views(txs@).fold_left(
                    0int,
                    (|sum: int, x: CandidateData|
                        if 0 < be_value(x.tx.offset) < curve_order() {
                            sum + be_value(x.tx.offset)
                        } else {
                            sum
                        }),
                ) % curve_order() as int;
                let some = exists|i: int|
                    0 <= i < views(txs@).len() && 0 < be_value(
                        (#[trigger] views(txs@)[i]).tx.offset,
                    ) < curve_order();
                &&& r is Ok ==> valid
                &&& r is Ok <==> valid && !(some && sum == 0)
                &&& !valid ==> exists|i: int|
                    0 <= i < txs@.len() && (#[trigger] txs@[i]).verdict is Err && (forall|k: int|
                        0 <= k < i ==> (#[trigger] txs@[k]).verdict is Ok) && r == Err::<
                        Block,
                        Error,
                    >(Error::Transaction(txs@[i].verdict->Err_0))
                &&& valid && some && sum == 0 ==> r == Err::<Block, Error>(
                    Error::Secp(SecpError::InvalidSecretKey),
                )
                &&& r matches Ok(block) ==> block@.header.kernel_offset.len() == 32 && be_value(
                    block@.header.kernel_offset,
                ) == sum
            }),
            r matches Ok(block) ==> ({
                &&& block@.header.version == 1
                &&& block@.header.height == prev@.height + 1
                &&& block@.header.previous == blake2b_256(hashed_header(prev@))
                &&& block@.header.utxo_root == Seq::new(32, |i: int| 0u8)
                &&& block@.header.range_proof_root == Seq::new(32, |i: int| 0u8)
                &&& block@.header.kernel_root == Seq::new(32, |i: int| 0u8)
                &&& block@.header.nonce == 0
                &&& block@.header.pow == Seq::new(params.proof_size as nat, |i: int| 0u32)
                &&& block@.header.difficulty == 1
                &&& block@.header.total_difficulty == difficulty.num + prev@.total_difficulty
            }),
            r matches Ok(block) ==> ({
                let ins = views(txs@).fold_left(
                    Seq::<InputData>::empty(),
                    (|all: Seq<InputData>, t: CandidateData| all + t.tx.inputs),
                );
                let outs = views(txs@).fold_left(
                    Seq::<OutputData>::empty(),
                    (|all: Seq<OutputData>, t: CandidateData| all + t.tx.outputs),
                ).push(reward_out@);
                let kerns = views(txs@).fold_left(
                    Seq::<KernelData>::empty(),
                    (|all: Seq<KernelData>, t: CandidateData| all + t.tx.kernels),
                ).push(reward_kern@);
                &&& block@.kernels.to_multiset() == kerns.to_multiset()
                &&& block@.inputs.to_multiset() == ins.filter(
                    |x: InputData|
                        !exists|j: int|
                            0 <= j < outs.len() && (#[trigger] outs[j]).features
                                == OutputFeatures::Plain && outs[j].commit == x.commit,
                ).to_multiset()
                &&& block@.outputs.to_multiset() == outs.filter(
                    |x: OutputData|
                        x.features != OutputFeatures::Plain || !exists|i: int|
                            0 <= i < ins.len() && (#[trigger] ins[i]).commit == x.commit,
                ).to_multiset()
                &&& forall|i: int, j: int|
                    0 <= i < j < block@.inputs.len() ==> lex_le(
                        #[trigger] Input::encode(block@.inputs[i]),
                        #[trigger] Input::encode(block@.inputs[j]),
                    )
                &&& forall|i: int, j: int|
                    0 <= i < j < block@.outputs.len() ==> lex_le(
                        #[trigger] Output::encode(block@.outputs[i]),
                        #[trigger] Output::encode(block@.outputs[j]),
                    )
                &&& forall|i: int, j: int|
                    0 <= i < j < block@.kernels.len() ==> lex_le(
                        #[trigger] TxKernel::encode(block@.kernels[i]),
                        #[trigger] TxKernel::encode(block@.kernels[j]),
                    )
            }),
    {
        proof {
            law_candidate_offsets_add_up(views(txs@));
            law_offsets_add_up(offsets_of(views(txs@)));
        }
        let offset = sum_offsets(&collect_offsets(txs));
        Block::assemble(
            params,
            prev,
            txs,
            reward_out,
            reward_kern,
            difficulty,
            offset,
            current_time(),
        )
    }

    /// Builds a new block from the header of the previous block, a vector of transactions, the
    /// reward information, the sum of the offsets of the transactions and the time.
    pub fn assemble(
        params: &ChainParams,
        prev: &BlockHeader,
        txs: &Vec<Candidate>,
        reward_out: Output,
        reward_kern: TxKernel,
        difficulty: Difficulty,
        offset: Result<BlindingFactor, SecpError>,
        timestamp: i64,
    ) -> (r: Result<Block, Error>)
        requires
            can_follow(prev@, views(txs@), difficulty.num, outcome(offset)),
        ensures
            build_outcome(r) == built(
                params.proof_size as nat,
                (BuildData {
                    prev: prev@,
                    txs: views(txs@),
                    reward_out: reward_out@,
                    reward_kern: reward_kern@,
                    difficulty: difficulty.num,
                }),
                outcome(offset),
                timestamp,
            ),
            r is Ok ==> valid_build(views(txs@), reward_out@, reward_kern@),
            r matches Ok(block) ==> all_sorted(block@),
            ({
                let valid = forall|i: int|
                    0 <= i < txs@.len() ==> (#[trigger] txs@[i]).verdict is Ok;
                &&& r is Ok <==> valid && offset is Ok
                &&& !valid ==> exists|i: int|
                    0 <= i < txs@.len() && (#[trigger] txs@[i]).verdict is Err && (forall|k: int|
                        0 <= k < i ==> (#[trigger] txs@[k]).verdict is Ok) && r == Err::<
                        Block,
                        Error,
                    >(Error::Transaction(txs@[i].verdict->Err_0))
                &&& valid && offset is Err ==> r == Err::<Block, Error>(Error::Secp(offset->Err_0))
            }),
            r matches Ok(block) ==> ({
                &&& block@.header.version == 1
                &&& block@.header.height == prev@.height + 1
                &&& block@.header.previous == blake2b_256(hashed_header(prev@))
                &&& block@.header.utxo_root == Seq::new(32, |i: int| 0u8)
                &&& block@.header.range_proof_root == Seq::new(32, |i: int| 0u8)
                &&& block@.header.kernel_root == Seq::new(32, |i: int| 0u8)
                &&& block@.header.nonce == 0
                &&& block@.header.pow == Seq::new(params.proof_size as nat, |i: int| 0u32)
                &&& block@.header.difficulty == 1
                &&& block@.header.total_difficulty == difficulty.num + prev@.total_difficulty
                &&& block@.header.timestamp == timestamp
                &&& block@.header.kernel_offset == offset->Ok_0@
            }),
            r matches Ok(block) ==> ({
                let ins = views(txs@).fold_left(
                    Seq::<InputData>::empty(),
                    (|all: Seq<InputData>, t: CandidateData| all + t.tx.inputs),
                );
                let outs = views(txs@).fold_left(
                    Seq::<OutputData>::empty(),
                    (|all: Seq<OutputData>, t: CandidateData| all + t.tx.outputs),
                ).push(reward_out@);
                let kerns = views(txs@).fold_left(
                    Seq::<KernelData>::empty(),
                    (|all: Seq<KernelData>, t: CandidateData| all + t.tx.kernels),
                ).push(reward_kern@);
                &&& block@.kernels.to_multiset() == kerns.to_multiset()
                &&& block@.inputs.to_multiset() == ins.filter(
                    |x: InputData|
                        !exists|j: int|
                            0 <= j < outs.len() && (#[trigger] outs[j]).features
                                == OutputFeatures::Plain && outs[j].commit == x.commit,
                ).to_multiset()
                &&& block@.outputs.to_multiset() == outs.filter(
                    |x: OutputData|
                        x.features != OutputFeatures::Plain || !exists|i: int|
                            0 <= i < ins.len() && (#[trigger] ins[i]).commit == x.commit,
                ).to_multiset()
                &&& forall|i: int, j: int|
                    0 <= i < j < block@.inputs.len() ==> lex_le(
                        #[trigger] Input::encode(block@.inputs[i]),
                        #[trigger] Input::encode(block@.inputs[j]),
                    )
                &&& forall|i: int, j: int|
                    0 <= i < j < block@.outputs.len() ==> lex_le(
                        #[trigger] Output::encode(block@.outputs[i]),
                        #[trigger] Output::encode(block@.outputs[j]),
                    )
                &&& forall|i: int, j: int|
                    0 <= i < j < block@.kernels.len() ==> lex_le(
                        #[trigger] TxKernel::encode(block@.kernels[i]),
                        #[trigger] TxKernel::encode(block@.kernels[j]),
                    )
            }),
    {
        let ghost d = BuildData {
            prev: prev@,
            txs: views(txs@),
            reward_out: reward_out@,
            reward_kern: reward_kern@,
            difficulty: difficulty.num,
        };
        proof {
            lemma_candidates_are_checked(
                params.proof_size as nat,
                d,
                outcome(offset),
                timestamp,
                txs@,
            );
        }
        match find_invalid(txs) {
            Some(e) => return Err(Error::from(e)),
            None => {},
        }
        let kernel_offset = match offset {
            Ok(offset) => offset,
            Err(e) => return Err(Error::from(e)),
        };
        let ghost all = transactions_of(views(txs@));
        let mut inputs: Vec<Input> = Vec::new();
        let mut outputs: Vec<Output> = Vec::new();
        let mut kernels: Vec<TxKernel> = Vec::new();
        let mut i: usize = 0;
        assert(views(inputs@) =~= all_inputs(all.take(0)));
        assert(views(outputs@) =~= all_outputs(all.take(0)));
        assert(views(kernels@) =~= all_kernels(all.take(0)));
        while i < txs.len()
            invariant
                i <= txs@.len(),
                all == transactions_of(views(txs@)),
                views(inputs@) == all_inputs(all.take(i as int)),
                views(outputs@) == all_outputs(all.take(i as int)),
                views(kernels@) == all_kernels(all.take(i as int)),
            decreases txs@.len() - i,
        {
            assert(all.take(i + 1).drop_last() =~= all.take(i as int));
            append_all(&mut inputs, &txs[i].tx.inputs);
            append_all(&mut outputs, &txs[i].tx.outputs);
            append_all(&mut kernels, &txs[i].tx.kernels);
            i += 1;
        }
        assert(all.take(i as int) =~= all);
        let ghost made = views(outputs@);
        let ghost proved = views(kernels@);
        kernels.push(reward_kern);
        outputs.push(reward_out);
        assert(views(outputs@) =~= made.push(reward_out@));
        assert(views(kernels@) =~= proved.push(reward_kern@));
        let header = BlockHeader {
            height: prev.height + 1,
            timestamp,
            previous: prev.hash(),
            total_difficulty: difficulty.plus(&prev.total_difficulty),
            kernel_offset,
            ..BlockHeader::default(params.proof_size)
        };
        let block = Block {
            header,
            inputs: sort(&inputs),
            outputs: sort(&outputs),
            kernels: sort(&kernels),
        };
        proof {
            law_cut_through_keeps_order(block@);
            law_built_holds_what_was_given(
                params.proof_size as nat,
                d,
                kernel_offset@,
                timestamp,
                cut_through_of(block@),
            );
        }
        Ok(block.cut_through())
    }
}

} // verus!
