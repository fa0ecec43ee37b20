//! Validation of blocks.

use vstd::prelude::*;
use crate::block::{
    collect_commits_with, collect_input_commits, collect_output_commits, input_commits,
    kernels_with, output_commits, outputs_with, Block, BlockData,
};
use crate::consensus::{overage_of, reward_of, ChainParams, ConsensusError};
use crate::error::{Error, KeychainError};
use crate::laws::amounts::{
    law_coinbase_excesses_add_up, law_coinbase_outputs_add_up, law_excesses_add_up,
    law_fees_add_up, law_inputs_add_up, law_outputs_add_up,
};
use crate::laws::lists::law_commitments_of_items;
use crate::laws::rules::{
    law_kernel_sum, law_range_proofs, law_sort_check,
};
use crate::laws::validity::law_other_reward_is_refused;
use crate::order::{lex_le, sorted, verify_sort_order, views, Wire};
use crate::secp::{
    all_points, amount_log, commit, commit_sum, commit_sum_of, commit_value, commit_value_of,
    curve_order, log_of, log_total, log_value, outcome, point_at, point_bytes, range_proof_check,
    secret_key_of, signature_check,
    value_log, zero_factor, Commitment, SecpError,
};
use crate::ser::{be_bytes, be_value, lemma_value_of_zeros};
use crate::totals::{lemma_total_of_one, lemma_total_push};
use crate::transaction::{
    fee_sum, kernel_check, Input, InputData, KernelData, KernelFeatures, Output, OutputData,
    OutputFeatures, OutputIdentifier, TxKernel,
};

verus! {

/// The excesses of some kernels.
pub open spec fn excesses(kernels: Seq<KernelData>) -> Seq<Seq<u8>> {
    Seq::new(kernels.len(), |i: int| kernels[i].excess)
}

fn collect_excesses(kernels: &Vec<TxKernel>) -> (r: Vec<Commitment>)
    ensures
        views(r@) == excesses(views(kernels@)),
{
    let mut r: Vec<Commitment> = Vec::new();
    let mut i: usize = 0;
    while i < kernels.len()
        invariant
            i <= kernels@.len(),
            views(r@) == excesses(views(kernels@)).take(i as int),
        decreases kernels@.len() - i,
    {
        let ghost before = views(r@);
        r.push(kernels[i].excess);
        assert(views(r@) =~= before.push(kernels@[i as int]@.excess));
        i += 1;
    }
    assert(views(r@) =~= excesses(views(kernels@)));
    r
}

fn collect_excesses_with(kernels: &Vec<TxKernel>, features: KernelFeatures) -> (r: Vec<Commitment>)
    ensures
        views(r@) == excesses(kernels_with(views(kernels@), features)),
{
    let ghost all = views(kernels@);
    let ghost wanted = |k: KernelData| k.features == features;
    let mut r: Vec<Commitment> = Vec::new();
    let mut i: usize = 0;
    assert(views(r@) =~= excesses(all.take(0).filter(wanted))) by {
        reveal(Seq::filter);
    }
    while i < kernels.len()
        invariant
            i <= kernels@.len(),
            all == views(kernels@),
            wanted == (|k: KernelData| k.features == features),
            views(r@) == excesses(all.take(i as int).filter(wanted)),
        decreases kernels@.len() - i,
    {
        let ghost before = views(r@);
        let ghost kept = all.take(i as int).filter(wanted);
        proof {
            assert(all.take(i + 1) =~= all.take(i as int).push(all[i as int]));
            all.take(i as int).lemma_filter_push(all[i as int], wanted);
        }
        if kernels[i].features == features {
            r.push(kernels[i].excess);
            assert(views(r@) =~= before.push(all[i as int].excess));
            assert(excesses(kept.push(all[i as int])) =~= excesses(kept).push(
                all[i as int].excess,
            ));
        }
        i += 1;
    }
    assert(all.take(i as int) =~= all);
    r
}

/// The weight of a block.
pub open spec fn block_weight(params: ChainParams, b: BlockData) -> nat {
    params.weight(b.inputs.len(), b.outputs.len(), b.kernels.len())
}

/// Whether a block is not too heavy.
pub open spec fn weight_check(params: ChainParams, b: BlockData) -> Result<(), Error> {
    if block_weight(params, b) > params.max_weight {
        Err(Error::WeightExceeded)
    } else {
        Ok(())
    }
}

/// Whether all lists of a block are in order.
pub open spec fn all_sorted(b: BlockData) -> bool {
    &&& sorted::<Input>(b.inputs)
    &&& sorted::<Output>(b.outputs)
    &&& sorted::<TxKernel>(b.kernels)
}

/// Whether all lists of a block are in order.
pub open spec fn sort_check(b: BlockData) -> Result<(), Error> {
    if all_sorted(b) {
        Ok(())
    } else {
        Err(Error::Consensus(ConsensusError::SortError))
    }
}

/// The sum of the outputs of the reward, less its value.
pub open spec fn coinbase_output_sum(params: ChainParams, b: BlockData) -> Result<
    Seq<u8>,
    SecpError,
> {
    match commit_value_of(reward_of(params, fee_sum(b.kernels)) as u64) {
        Err(e) => Err(e),
        Ok(over) => commit_sum_of(
            output_commits(outputs_with(b.outputs, OutputFeatures::Coinbase)),
            seq![over],
        ),
    }
}

/// The sum of the excesses of the kernels of the reward.
pub open spec fn coinbase_kernel_sum(b: BlockData) -> Result<Seq<u8>, SecpError> {
    commit_sum_of(
        excesses(kernels_with(b.kernels, KernelFeatures::Coinbase)),
        Seq::empty(),
    )
}

/// What follows from the two sums of a reward, which have to be equal.
pub open spec fn coinbase_verdict(
    out_sum: Result<Seq<u8>, SecpError>,
    kern_sum: Result<Seq<u8>, SecpError>,
) -> Result<(), Error> {
    match out_sum {
        Err(e) => Err(Error::Secp(e)),
        Ok(outs) => match kern_sum {
            Err(e) => Err(Error::Secp(e)),
            Ok(kerns) => if kerns == outs {
                Ok(())
            } else {
                Err(Error::CoinbaseSumMismatch)
            },
        },
    }
}

/// Compares the two sums of a reward.
pub fn compare_coinbase_sums(
    out_sum: Result<Commitment, SecpError>,
    kern_sum: Result<Commitment, SecpError>,
) -> (r: Result<(), Error>)
    ensures
        r == coinbase_verdict(outcome(out_sum), outcome(kern_sum)),
        r is Ok <==> out_sum is Ok && kern_sum is Ok && out_sum->Ok_0@ == kern_sum->Ok_0@,
        out_sum matches Err(e) ==> r == Err::<(), Error>(Error::Secp(e)),
        out_sum is Ok && kern_sum is Err ==> r == Err::<(), Error>(Error::Secp(kern_sum->Err_0)),
        out_sum is Ok && kern_sum is Ok && out_sum->Ok_0@ != kern_sum->Ok_0@ ==> r == Err::<
            (),
            Error,
        >(Error::CoinbaseSumMismatch),
{
    let outs = match out_sum {
        Ok(outs) => outs,
        Err(e) => return Err(Error::from(e)),
    };
    let kerns = match kern_sum {
        Ok(kerns) => kerns,
        Err(e) => return Err(Error::from(e)),
    };
    if kerns.same(&outs) {
        Ok(())
    } else {
        Err(Error::CoinbaseSumMismatch)
    }
}

/// Whether the outputs and kernels of the reward match each other and its value.
pub open spec fn coinbase_check(params: ChainParams, b: BlockData) -> Result<(), Error> {
    coinbase_verdict(coinbase_output_sum(params, b), coinbase_kernel_sum(b))
}

/// Whether two blocks have the same outputs and kernels of the reward, in the same order.
pub open spec fn same_coinbase(a: BlockData, b: BlockData) -> bool {
    &&& outputs_with(a.outputs, OutputFeatures::Coinbase) == outputs_with(
        b.outputs,
        OutputFeatures::Coinbase,
    )
    &&& kernels_with(a.kernels, KernelFeatures::Coinbase) == kernels_with(
        b.kernels,
        KernelFeatures::Coinbase,
    )
}

/// What is wrong with the fee or the lock height of a kernel in a block of the given height.
pub open spec fn kernel_fault(k: KernelData, height: u64) -> Option<Error> {
    if k.fee % 2 != 0 {
        Some(Error::OddKernelFee)
    } else if k.lock_height > height {
        Some(Error::KernelLockHeight(k.lock_height))
    } else {
        None
    }
}

/// What is wrong with the fee or the lock height of the first kernel with such a fault.
pub open spec fn first_kernel_fault(kernels: Seq<KernelData>, height: u64) -> Option<Error>
    decreases kernels.len(),
{
    if kernels.len() == 0 {
        None
    } else {
        match first_kernel_fault(kernels.drop_last(), height) {
            Some(e) => Some(e),
            None => kernel_fault(kernels.last(), height),
        }
    }
}

proof fn lemma_first_kernel_fault(kernels: Seq<KernelData>, height: u64, n: int)
    requires
        0 <= n <= kernels.len(),
        first_kernel_fault(kernels.take(n), height) is Some,
    ensures
        first_kernel_fault(kernels, height) == first_kernel_fault(kernels.take(n), height),
    decreases kernels.len(),
{
    if n < kernels.len() {
        assert(kernels.drop_last().take(n) =~= kernels.take(n));
        lemma_first_kernel_fault(kernels.drop_last(), height, n);
    } else {
        assert(kernels.take(n) =~= kernels);
    }
}

/// Why the first range proof fails that does.
pub open spec fn first_bad_proof(outputs: Seq<OutputData>) -> Option<SecpError>
    decreases outputs.len(),
{
    if outputs.len() == 0 {
        None
    } else {
        match first_bad_proof(outputs.drop_last()) {
            Some(e) => Some(e),
            None => match range_proof_check(outputs.last().commit, outputs.last().proof) {
                Err(e) => Some(e),
                Ok(()) => None,
            },
        }
    }
}

proof fn lemma_first_bad_proof(outputs: Seq<OutputData>, n: int)
    requires
        0 <= n <= outputs.len(),
        first_bad_proof(outputs.take(n)) is Some,
    ensures
        first_bad_proof(outputs) == first_bad_proof(outputs.take(n)),
    decreases outputs.len(),
{
    if n < outputs.len() {
        assert(outputs.drop_last().take(n) =~= outputs.take(n));
        lemma_first_bad_proof(outputs.drop_last(), n);
    } else {
        assert(outputs.take(n) =~= outputs);
    }
}

/// Why the first signature fails that does.
pub open spec fn first_bad_signature(kernels: Seq<KernelData>) -> Option<SecpError>
    decreases kernels.len(),
{
    if kernels.len() == 0 {
        None
    } else {
        match first_bad_signature(kernels.drop_last()) {
            Some(e) => Some(e),
            None => match kernel_check(kernels.last()) {
                Err(e) => Some(e),
                Ok(()) => None,
            },
        }
    }
}

proof fn lemma_first_bad_signature(kernels: Seq<KernelData>, n: int)
    requires
        0 <= n <= kernels.len(),
        first_bad_signature(kernels.take(n)) is Some,
    ensures
        first_bad_signature(kernels) == first_bad_signature(kernels.take(n)),
    decreases kernels.len(),
{
    if n < kernels.len() {
        assert(kernels.drop_last().take(n) =~= kernels.take(n));
        lemma_first_bad_signature(kernels.drop_last(), n);
    } else {
        assert(kernels.take(n) =~= kernels);
    }
}

/// The commitments that count for the sum of a block: those of its outputs and, where the
/// overage is positive, the commitment to it.
pub open spec fn positive_commits(outputs: Seq<OutputData>, overage: int, over: Seq<u8>) -> Seq<
    Seq<u8>,
> {
    if overage > 0 {
        output_commits(outputs).push(over)
    } else {
        output_commits(outputs)
    }
}

/// The commitments that count against the sum of a block: those of its inputs and, where the
/// overage is negative, the commitment to its absolute value.
pub open spec fn negative_commits(inputs: Seq<InputData>, overage: int, over: Seq<u8>) -> Seq<
    Seq<u8>,
> {
    if overage < 0 {
        input_commits(inputs).push(over)
    } else {
        input_commits(inputs)
    }
}

/// The absolute value of an amount.
pub open spec fn magnitude(x: int) -> nat {
    if x < 0 {
        (-x) as nat
    } else {
        x as nat
    }
}

/// Which multiple of the generator the sum of all outputs less all inputs is, with the
/// overage.
pub open spec fn io_log(params: ChainParams, b: BlockData) -> int {
    log_total(output_commits(b.outputs)) - log_total(input_commits(b.inputs)) + overage_of(
        params,
        fee_sum(b.kernels),
    ) * value_log(1)
}

/// The sum of all outputs less all inputs, with the overage, once all range proofs hold.
pub open spec fn io_sum_of(params: ChainParams, b: BlockData) -> Result<Seq<u8>, SecpError> {
    match first_bad_proof(b.outputs) {
        Some(e) => Err(e),
        None => if all_points(output_commits(b.outputs)) && all_points(input_commits(b.inputs)) {
            point_at(io_log(params, b))
        } else {
            Err(SecpError::InvalidCommit)
        },
    }
}

/// Whether the offset of a block is of use: it is zero, or a secret key.
pub open spec fn offset_check(offset: Seq<u8>) -> Result<(), SecpError> {
    if offset == zero_factor() {
        Ok(())
    } else {
        match secret_key_of(offset) {
            Err(e) => Err(e),
            Ok(_) => Ok(()),
        }
    }
}

/// Which multiple of the generator the sum of all excesses is, with the offset.
pub open spec fn kernel_log(b: BlockData) -> int {
    log_total(excesses(b.kernels)) + be_value(b.header.kernel_offset)
}

/// The sum of all excesses and of the offset, unless that is zero.
pub open spec fn kernel_sum_of(b: BlockData) -> Result<Seq<u8>, Error> {
    match offset_check(b.header.kernel_offset) {
        Err(e) => Err(Error::Keychain(KeychainError::Secp(e))),
        Ok(()) => if all_points(excesses(b.kernels)) {
            match point_at(kernel_log(b)) {
                Err(e) => Err(Error::Secp(e)),
                Ok(sum) => Ok(sum),
            }
        } else {
            Err(Error::Secp(SecpError::InvalidCommit))
        },
    }
}

proof fn lemma_congruent(x: int, y: int)
    ensures
        x % curve_order() as int == y % curve_order() as int <==> (x - y) % curve_order() as int
            == 0,
{
    vstd::arithmetic::div_mod::lemma_mod_equivalence(x, y, curve_order() as int);
}

proof fn lemma_reduced_term(a: int, m: int)
    ensures
        (a + m % curve_order() as int) % curve_order() as int == (a + m) % curve_order() as int,
        (a - m % curve_order() as int) % curve_order() as int == (a - m) % curve_order() as int,
{
}

proof fn lemma_one_more_point(commits: Seq<Seq<u8>>, c: Seq<u8>)
    requires
        log_of(c) is Some,
    ensures
        all_points(commits.push(c)) <==> all_points(commits),
        log_total(commits.push(c)) == log_total(commits) + log_value(c),
{
    lemma_total_push(commits, c, |c: Seq<u8>| log_value(c));
    assert(commits.push(c)[commits.len() as int] == c);
    if all_points(commits.push(c)) {
        assert forall|i: int| 0 <= i < commits.len() implies log_of(#[trigger] commits[i]) is Some by {
            assert(commits.push(c)[i] == commits[i]);
        }
    }
}

proof fn lemma_sum_with_overage(b: BlockData, overage: int, over: Seq<u8>)
    requires
        overage != 0,
        log_of(over) == Some(amount_log(magnitude(overage))),
    ensures
        commit_sum_of(
            positive_commits(b.outputs, overage, over),
            negative_commits(b.inputs, overage, over),
        ) == (if all_points(output_commits(b.outputs)) && all_points(input_commits(b.inputs)) {
            point_at(
                log_total(output_commits(b.outputs)) - log_total(input_commits(b.inputs)) + overage
                    * value_log(1),
            )
        } else {
            Err(SecpError::InvalidCommit)
        }),
        (log_total(positive_commits(b.outputs, overage, over)) - log_total(
            negative_commits(b.inputs, overage, over),
        )) % curve_order() as int == (log_total(output_commits(b.outputs)) - log_total(
            input_commits(b.inputs),
        ) + overage * value_log(1)) % curve_order() as int,
{
    let outs = output_commits(b.outputs);
    let ins = input_commits(b.inputs);
    let amount = magnitude(overage) * value_log(1);
    lemma_reduced_term(log_total(outs) - log_total(ins), amount as int);
    lemma_one_more_point(outs, over);
    lemma_one_more_point(ins, over);
    let (v, u) = (overage, value_log(1) as int);
    assert((-v) * u == -(v * u)) by (nonlinear_arith);
    if overage > 0 {
        assert(amount == overage * value_log(1));
    } else {
        assert(amount == (-v) * u);
    }
}

/// The outcome of summing the kernels, with the sum by its view.
pub open spec fn kernel_sum_outcome(r: Result<Commitment, Error>) -> Result<Seq<u8>, Error> {
    match r {
        Ok(sum) => Ok(sum@),
        Err(e) => Err(e),
    }
}

/// What follows from the two sums of a block, which have to be equal.
pub open spec fn sums_verdict(
    io_sum: Result<Seq<u8>, SecpError>,
    kernel_sum: Result<Seq<u8>, Error>,
) -> Result<(), Error> {
    match io_sum {
        Err(e) => Err(Error::Secp(e)),
        Ok(io) => match kernel_sum {
            Err(e) => Err(e),
            Ok(kernels) => if kernels == io {
                Ok(())
            } else {
                Err(Error::KernelSumMismatch)
            },
        },
    }
}

/// Compares the two sums of a block.
pub fn compare_kernel_sums(
    io_sum: Result<Commitment, SecpError>,
    kernel_sum: Result<Commitment, Error>,
) -> (r: Result<(), Error>)
    ensures
        r == sums_verdict(outcome(io_sum), kernel_sum_outcome(kernel_sum)),
        r is Ok <==> io_sum is Ok && kernel_sum is Ok && io_sum->Ok_0@ == kernel_sum->Ok_0@,
        io_sum matches Err(e) ==> r == Err::<(), Error>(Error::Secp(e)),
        io_sum is Ok && kernel_sum is Err ==> r == Err::<(), Error>(kernel_sum->Err_0),
        io_sum is Ok && kernel_sum is Ok && io_sum->Ok_0@ != kernel_sum->Ok_0@ ==> r == Err::<
            (),
            Error,
        >(Error::KernelSumMismatch),
{
    let io = match io_sum {
        Ok(io) => io,
        Err(e) => return Err(Error::from(e)),
    };
    let kernels = match kernel_sum {
        Ok(kernels) => kernels,
        Err(e) => return Err(e),
    };
    if kernels.same(&io) {
        Ok(())
    } else {
        Err(Error::KernelSumMismatch)
    }
}

/// Whether the kernels of a block obey the rules, match its inputs and outputs, and are
/// signed.
pub open spec fn kernels_check(params: ChainParams, b: BlockData) -> Result<(), Error> {
    match first_kernel_fault(b.kernels, b.header.height) {
        Some(e) => Err(e),
        None => match sums_verdict(io_sum_of(params, b), kernel_sum_of(b)) {
            Err(e) => Err(e),
            Ok(()) => match first_bad_signature(b.kernels) {
                Some(e) => Err(Error::Secp(e)),
                None => Ok(()),
            },
        },
    }
}

/// Whether a block is valid as far as that can be told without other data.
pub open spec fn block_check(params: ChainParams, b: BlockData) -> Result<(), Error> {
    match weight_check(params, b) {
        Err(e) => Err(e),
        Ok(()) => match sort_check(b) {
            Err(e) => Err(e),
            Ok(()) => match coinbase_check(params, b) {
                Err(e) => Err(e),
                Ok(()) => kernels_check(params, b),
            },
        },
    }
}

/// Whether a block has the output that an input spends.
pub open spec fn has_output(b: BlockData, input: InputData) -> bool {
    exists|i: int|
        0 <= i < b.outputs.len() && (#[trigger] b.outputs[i]).features == input.features
            && b.outputs[i].commit == input.commit
}

impl Block {
    /// Validates all the elements in a block that can be checked without additional data:
    /// weight, order, reward, commitment sums and kernels.
    pub fn validate(&self, params: &ChainParams) -> (r: Result<(), Error>)
        requires
            params.wf(),
            block_weight(*params, self@) <= params.max_weight && all_sorted(self@) ==> fee_sum(
                self@.kernels,
            ) <= u64::MAX,
        ensures
            r == block_check(*params, self@),
            kernels_with(self@.kernels, KernelFeatures::Coinbase).len() == 0 ==> r is Err,
            ({
                let n = curve_order() as int;
                let weight = self@.inputs.len() * params.input_weight + self@.outputs.len()
                    * params.output_weight + self@.kernels.len() * params.kernel_weight;
                let ordered = (forall|i: int, j: int|
                    0 <= i < j < self@.inputs.len() ==> lex_le(
                        #[trigger] Input::encode(self@.inputs[i]),
                        #[trigger] Input::encode(self@.inputs[j]),
                    )) && (forall|i: int, j: int|
                    0 <= i < j < self@.outputs.len() ==> lex_le(
                        #[trigger] Output::encode(self@.outputs[i]),
                        #[trigger] Output::encode(self@.outputs[j]),
                    )) && (forall|i: int, j: int|
                    0 <= i < j < self@.kernels.len() ==> lex_le(
                        #[trigger] TxKernel::encode(self@.kernels[i]),
                        #[trigger] TxKernel::encode(self@.kernels[j]),
                    ));
                let made = self@.outputs.fold_left(
                    0int,
                    (|sum: int, x: OutputData|
                        sum + match log_of(x.commit) {
                            Some(log) => log as int,
                            None => 0,
                        }),
                );
                let spent = self@.inputs.fold_left(
                    0int,
                    (|sum: int, x: InputData|
                        sum + match log_of(x.commit) {
                            Some(log) => log as int,
                            None => 0,
                        }),
                );
                let fees = self@.kernels.fold_left(0int, (|sum: int, k: KernelData| sum + k.fee));
                let io = made - spent + (fees / 2 - params.subsidy) * value_log(1);
                let excess = self@.kernels.fold_left(
                    0int,
                    (|sum: int, x: KernelData|
                        sum + match log_of(x.excess) {
                            Some(log) => log as int,
                            None => 0,
                        }),
                );
                let kernel = excess + be_value(self@.header.kernel_offset);
                let lawful = forall|i: int|
                    0 <= i < self@.kernels.len() ==> (#[trigger] self@.kernels[i]).fee % 2 == 0
                        && self@.kernels[i].lock_height <= self@.header.height;
                let proved = forall|i: int|
                    0 <= i < self@.outputs.len() ==> range_proof_check(
                        (#[trigger] self@.outputs[i]).commit,
                        self@.outputs[i].proof,
                    ) is Ok;
                let points = (forall|i: int|
                    0 <= i < self@.outputs.len() ==> log_of(
                        (#[trigger] self@.outputs[i]).commit,
                    ) is Some) && (forall|i: int|
                    0 <= i < self@.inputs.len() ==> log_of((#[trigger] self@.inputs[i]).commit) is Some);
                let excess_points = forall|i: int|
                    0 <= i < self@.kernels.len() ==> log_of(
                        (#[trigger] self@.kernels[i]).excess,
                    ) is Some;
                let usable = self@.header.kernel_offset == Seq::new(32, |i: int| 0u8) || 0
                    < be_value(self@.header.kernel_offset) < curve_order();
                let signed = forall|i: int|
                    0 <= i < self@.kernels.len() ==> signature_check(
                        (#[trigger] self@.kernels[i]).excess_sig,
                        Seq::new(16, |j: int| 0u8) + be_bytes(self@.kernels[i].fee as nat, 8)
                            + be_bytes(self@.kernels[i].lock_height as nat, 8),
                        self@.kernels[i].excess,
                    ) == Ok::<bool, SecpError>(true);
                let given = self@.outputs.fold_left(
                    0int,
                    (|sum: int, x: OutputData|
                        if x.features == OutputFeatures::Coinbase {
                            sum + match log_of(x.commit) {
                                Some(log) => log as int,
                                None => 0,
                            }
                        } else {
                            sum
                        }),
                );
                let claimed = self@.kernels.fold_left(
                    0int,
                    (|sum: int, x: KernelData|
                        if x.features == KernelFeatures::Coinbase {
                            sum + match log_of(x.excess) {
                                Some(log) => log as int,
                                None => 0,
                            }
                        } else {
                            sum
                        }),
                );
                let due = params.subsidy + fees / 2;
                let rewarded = (forall|i: int|
                    0 <= i < self@.outputs.len() && (#[trigger] self@.outputs[i]).features
                        == OutputFeatures::Coinbase ==> log_of(
                        self@.outputs[i].commit,
                    ) is Some) && (forall|i: int|
                    0 <= i < self@.kernels.len() && (#[trigger] self@.kernels[i]).features
                        == KernelFeatures::Coinbase ==> log_of(self@.kernels[i].excess) is Some);
                let gap = given - due * value_log(1) - claimed;
                &&& r is Ok ==> weight <= params.max_weight && ordered
                &&& r is Ok ==> lawful && proved && points && excess_points && usable && signed
                &&& r is Ok ==> (io - kernel) % n == 0
                &&& r is Ok && due > 0 ==> rewarded && gap % n == 0
                &&& weight > params.max_weight ==> r == Err::<(), Error>(Error::WeightExceeded)
                &&& weight <= params.max_weight && !ordered ==> r == Err::<(), Error>(
                    Error::Consensus(ConsensusError::SortError),
                )
                &&& weight <= params.max_weight && ordered && due > 0 && rewarded && claimed % n != 0
                    && gap % n == 0 && lawful && proved && points && excess_points && usable && signed
                    && io % n != 0 && (io - kernel) % n == 0 ==> r is Ok
            }),
    {
        match self.verify_weight(params) {
            Ok(()) => {},
            Err(e) => return Err(e),
        }
        match self.verify_sorted() {
            Ok(()) => {},
            Err(e) => return Err(e),
        }
        match self.verify_coinbase(params) {
            Ok(()) => {},
            Err(e) => return Err(e),
        }
        self.verify_kernels(params)
    }

    /// Checks that the block is not too heavy.
    pub fn verify_weight(&self, params: &ChainParams) -> (r: Result<(), Error>)
        ensures
            r == weight_check(*params, self@),
            r == (if self@.inputs.len() * params.input_weight + self@.outputs.len()
                * params.output_weight + self@.kernels.len() * params.kernel_weight > params.max_weight {
                Err::<(), Error>(Error::WeightExceeded)
            } else {
                Ok(())
            }),
    {
        if params.exceeds_weight(self.inputs.len(), self.outputs.len(), self.kernels.len()) {
            return Err(Error::WeightExceeded);
        }
        Ok(())
    }

    /// Checks that all lists are in order.
    pub fn verify_sorted(&self) -> (r: Result<(), Error>)
        ensures
            r == sort_check(self@),
            r is Ok <==> (forall|i: int, j: int|
                0 <= i < j < self@.inputs.len() ==> lex_le(
                    #[trigger] Input::encode(self@.inputs[i]),
                    #[trigger] Input::encode(self@.inputs[j]),
                )) && (forall|i: int, j: int|
                0 <= i < j < self@.outputs.len() ==> lex_le(
                    #[trigger] Output::encode(self@.outputs[i]),
                    #[trigger] Output::encode(self@.outputs[j]),
                )) && (forall|i: int, j: int|
                0 <= i < j < self@.kernels.len() ==> lex_le(
                    #[trigger] TxKernel::encode(self@.kernels[i]),
                    #[trigger] TxKernel::encode(self@.kernels[j]),
                )),
            r is Err ==> r == Err::<(), Error>(Error::Consensus(ConsensusError::SortError)),
    {
        proof {
            law_sort_check(self@);
        }
        match verify_sort_order(&self.inputs) {
            Ok(()) => {},
            Err(e) => return Err(Error::from(e)),
        }
        match verify_sort_order(&self.outputs) {
            Ok(()) => {},
            Err(e) => return Err(Error::from(e)),
        }
        match verify_sort_order(&self.kernels) {
            Ok(()) => {},
            Err(e) => return Err(Error::from(e)),
        }
        Ok(())
    }

    /// Verifies the sum of input/output commitments match the sum in kernels and that all
    /// kernel signatures are valid.
    pub fn verify_kernels(&self, params: &ChainParams) -> (r: Result<(), Error>)
        requires
            params.wf(),
            first_kernel_fault(self@.kernels, self@.header.height) is None ==> fee_sum(
                self@.kernels,
            ) <= u64::MAX,
        ensures
            r == kernels_check(*params, self@),
            ({
                let n = curve_order() as int;
                let made = self@.outputs.fold_left(
                    0int,
                    (|sum: int, x: OutputData|
                        sum + match log_of(x.commit) {
                            Some(log) => log as int,
                            None => 0,
                        }),
                );
                let spent = self@.inputs.fold_left(
                    0int,
                    (|sum: int, x: InputData|
                        sum + match log_of(x.commit) {
                            Some(log) => log as int,
                            None => 0,
                        }),
                );
                let fees = self@.kernels.fold_left(0int, (|sum: int, k: KernelData| sum + k.fee));
                let io = made - spent + (fees / 2 - params.subsidy) * value_log(1);
                let excess = self@.kernels.fold_left(
                    0int,
                    (|sum: int, x: KernelData|
                        sum + match log_of(x.excess) {
                            Some(log) => log as int,
                            None => 0,
                        }),
                );
                let kernel = excess + be_value(self@.header.kernel_offset);
                let lawful = forall|i: int|
                    0 <= i < self@.kernels.len() ==> (#[trigger] self@.kernels[i]).fee % 2 == 0
                        && self@.kernels[i].lock_height <= self@.header.height;
                let proved = forall|i: int|
                    0 <= i < self@.outputs.len() ==> range_proof_check(
                        (#[trigger] self@.outputs[i]).commit,
                        self@.outputs[i].proof,
                    ) is Ok;
                let points = (forall|i: int|
                    0 <= i < self@.outputs.len() ==> log_of(
                        (#[trigger] self@.outputs[i]).commit,
                    ) is Some) && (forall|i: int|
                    0 <= i < self@.inputs.len() ==> log_of((#[trigger] self@.inputs[i]).commit) is Some);
                let excess_points = forall|i: int|
                    0 <= i < self@.kernels.len() ==> log_of(
                        (#[trigger] self@.kernels[i]).excess,
                    ) is Some;
                let usable = self@.header.kernel_offset == Seq::new(32, |i: int| 0u8) || 0
                    < be_value(self@.header.kernel_offset) < curve_order();
                let signed = forall|i: int|
                    0 <= i < self@.kernels.len() ==> signature_check(
                        (#[trigger] self@.kernels[i]).excess_sig,
                        Seq::new(16, |j: int| 0u8) + be_bytes(self@.kernels[i].fee as nat, 8)
                            + be_bytes(self@.kernels[i].lock_height as nat, 8),
                        self@.kernels[i].excess,
                    ) == Ok::<bool, SecpError>(true);
                &&& r is Ok ==> lawful && proved && points && excess_points && usable && signed
                &&& r is Ok ==> (io - kernel) % n == 0
                &&& lawful && proved && points && excess_points && usable && signed && io % n != 0
                    && (io - kernel) % n == 0 ==> r is Ok
                &&& lawful && proved && points && excess_points && usable && io % n != 0 && kernel % n != 0
                    && (io - kernel) % n != 0 ==> r == Err::<(), Error>(Error::KernelSumMismatch)
            }),
    {
        let ghost made = self@.outputs.fold_left(
            0int,
            (|sum: int, x: OutputData|
                sum + match log_of(x.commit) {
                    Some(log) => log as int,
                    None => 0,
                }),
        );
        let ghost spent = self@.inputs.fold_left(
            0int,
            (|sum: int, x: InputData|
                sum + match log_of(x.commit) {
                    Some(log) => log as int,
                    None => 0,
                }),
        );
        let ghost fees = self@.kernels.fold_left(0int, (|sum: int, k: KernelData| sum + k.fee));
        let ghost excess = self@.kernels.fold_left(
            0int,
            (|sum: int, x: KernelData|
                sum + match log_of(x.excess) {
                    Some(log) => log as int,
                    None => 0,
                }),
        );
        let ghost io = made - spent + (fees / 2 - params.subsidy) * value_log(1);
        let ghost kernel = excess + be_value(self@.header.kernel_offset);
        proof {
            lemma_congruent(io, kernel);
        }
        match self.verify_kernel_rules() {
            Ok(()) => {},
            Err(e) => return Err(e),
        }
        let io_sum = self.sum_commitments(params);
        let kernel_sum = self.sum_kernels();
        match compare_kernel_sums(io_sum, kernel_sum) {
            Ok(()) => {},
            Err(e) => return Err(e),
        }
        self.verify_signatures()
    }

    /// Checks that no fee is odd and no lock height is above the height of the block.
    pub fn verify_kernel_rules(&self) -> (r: Result<(), Error>)
        ensures
            r == (match first_kernel_fault(self@.kernels, self@.header.height) {
                Some(e) => Err::<(), Error>(e),
                None => Ok(()),
            }),
            r is Ok <==> (forall|i: int|
                0 <= i < self@.kernels.len() ==> (#[trigger] self@.kernels[i]).fee % 2 == 0
                    && self@.kernels[i].lock_height <= self@.header.height),
            r matches Err(e) ==> exists|i: int|
                0 <= i < self@.kernels.len() && (forall|k: int|
                    0 <= k < i ==> (#[trigger] self@.kernels[k]).fee % 2 == 0
                        && self@.kernels[k].lock_height <= self@.header.height) && (if (
                #[trigger] self@.kernels[i]).fee % 2 != 0 {
                    e == Error::OddKernelFee
                } else {
                    self@.kernels[i].lock_height > self@.header.height && e
                        == Error::KernelLockHeight(self@.kernels[i].lock_height)
                }),
    {
        let ghost all = self@.kernels;
        let height: u64 = self.header.height;
        let mut i: usize = 0;
        while i < self.kernels.len()
            invariant
                i <= self.kernels@.len(),
                all == self@.kernels,
                height == self@.header.height,
                first_kernel_fault(all.take(i as int), height) is None,
                forall|k: int|
                    0 <= k < i ==> (#[trigger] all[k]).fee % 2 == 0 && all[k].lock_height <= height,
            decreases self.kernels@.len() - i,
        {
            let ghost head = all.take(i + 1);
            proof {
                assert(head.drop_last() =~= all.take(i as int));
                assert(head.last() == all[i as int]);
                if kernel_fault(all[i as int], height) is Some {
                    lemma_first_kernel_fault(all, height, i + 1);
                }
            }
            let lock_height: u64 = self.kernels[i].lock_height;
            if self.kernels[i].fee % 2 != 0 {
                return Err(Error::OddKernelFee);
            }
            if lock_height > height {
                return Err(Error::KernelLockHeight(lock_height));
            }
            i += 1;
        }
        assert(all.take(i as int) =~= all);
        Ok(())
    }

    /// The commitments that count for and against the sum of the block, given the overage and
    /// the commitment to its absolute value.
    pub fn balance(&self, overage: i64, over: &Commitment) -> (r: (
        Vec<Commitment>,
        Vec<Commitment>,
    ))
        ensures
            views(r.0@) == positive_commits(self@.outputs, overage as int, over@),
            views(r.1@) == negative_commits(self@.inputs, overage as int, over@),
            views(r.0@) == self@.outputs.map_values(|x: OutputData| x.commit) + (if overage > 0 {
                seq![over@]
            } else {
                Seq::empty()
            }),
            views(r.1@) == self@.inputs.map_values(|x: InputData| x.commit) + (if overage < 0 {
                seq![over@]
            } else {
                Seq::empty()
            }),
    {
        proof {
            law_commitments_of_items(self@.inputs, self@.outputs, self@.kernels);
        }
        let mut positive = collect_output_commits(self.outputs_committed());
        let mut negative = collect_input_commits(self.inputs_committed());
        let ghost outs = views(positive@);
        let ghost ins = views(negative@);
        if overage > 0 {
            positive.push(*over);
            assert(views(positive@) =~= outs.push(over@));
        } else if overage < 0 {
            negative.push(*over);
            assert(views(negative@) =~= ins.push(over@));
        }
        (positive, negative)
    }

    /// Sums all outputs less all inputs, with the overage, once all range proofs hold.
    pub fn sum_commitments(&self, params: &ChainParams) -> (r: Result<Commitment, SecpError>)
        requires
            params.wf(),
            fee_sum(self@.kernels) <= u64::MAX,
        ensures
            outcome(r) == io_sum_of(*params, self@),
            ({
                let n = curve_order() as int;
                let made = self@.outputs.fold_left(
                    0int,
                    (|sum: int, x: OutputData|
                        sum + match log_of(x.commit) {
                            Some(log) => log as int,
                            None => 0,
                        }),
                );
                let spent = self@.inputs.fold_left(
                    0int,
                    (|sum: int, x: InputData|
                        sum + match log_of(x.commit) {
                            Some(log) => log as int,
                            None => 0,
                        }),
                );
                let fees = self@.kernels.fold_left(0int, (|sum: int, k: KernelData| sum + k.fee));
                let io = made - spent + (fees / 2 - params.subsidy) * value_log(1);
                let sum = io % n;
                let proved = forall|i: int|
                    0 <= i < self@.outputs.len() ==> range_proof_check(
                        (#[trigger] self@.outputs[i]).commit,
                        self@.outputs[i].proof,
                    ) is Ok;
                let points = (forall|i: int|
                    0 <= i < self@.outputs.len() ==> log_of(
                        (#[trigger] self@.outputs[i]).commit,
                    ) is Some) && (forall|i: int|
                    0 <= i < self@.inputs.len() ==> log_of((#[trigger] self@.inputs[i]).commit) is Some);
                &&& r is Ok <==> proved && points && sum != 0
                &&& r matches Ok(c) ==> {
                    &&& log_of(c@) == Some(sum as nat)
                    &&& c@ == point_bytes(sum as nat)
                }
                &&& !proved ==> exists|i: int|
                    0 <= i < self@.outputs.len() && (forall|k: int|
                        0 <= k < i ==> range_proof_check(
                            (#[trigger] self@.outputs[k]).commit,
                            self@.outputs[k].proof,
                        ) is Ok) && range_proof_check(
                        (#[trigger] self@.outputs[i]).commit,
                        self@.outputs[i].proof,
                    ) is Err && r == Err::<Commitment, SecpError>(
                        range_proof_check(self@.outputs[i].commit, self@.outputs[i].proof)->Err_0,
                    )
                &&& proved && !points ==> r == Err::<Commitment, SecpError>(
                    SecpError::InvalidCommit,
                )
                &&& proved && points && sum == 0 ==> r == Err::<Commitment, SecpError>(
                    SecpError::IncorrectCommitSum,
                )
            }),
    {
        proof {
            law_range_proofs(self@.outputs);
            law_outputs_add_up(self@.outputs);
            law_inputs_add_up(self@.inputs);
            law_fees_add_up(self@.kernels);
        }
        match self.verify_proofs() {
            Ok(()) => {},
            Err(e) => return Err(e),
        }
        let overage: i64 = self.overage(params);
        assert(overage == 0 ==> overage * value_log(1) == 0) by (nonlinear_arith);
        if overage == 0 {
            return commit_sum(
                &collect_output_commits(self.outputs_committed()),
                &collect_input_commits(self.inputs_committed()),
            );
        }
        let amount: u64 = if overage < 0 {
            (-overage) as u64
        } else {
            overage as u64
        };
        let over = match commit_value(amount) {
            Ok(over) => over,
            Err(e) => return Err(e),
        };
        let (positive, negative) = self.balance(overage, &over);
        proof {
            lemma_sum_with_overage(self@, overage as int, over@);
        }
        commit_sum(&positive, &negative)
    }

    /// Checks all range proofs.
    pub fn verify_proofs(&self) -> (r: Result<(), SecpError>)
        ensures
            r == (match first_bad_proof(self@.outputs) {
                Some(e) => Err::<(), SecpError>(e),
                None => Ok(()),
            }),
            r is Ok <==> (forall|i: int|
                0 <= i < self@.outputs.len() ==> range_proof_check(
                    (#[trigger] self@.outputs[i]).commit,
                    self@.outputs[i].proof,
                ) is Ok),
            r matches Err(e) ==> exists|i: int|
                0 <= i < self@.outputs.len() && (forall|k: int|
                    0 <= k < i ==> range_proof_check(
                        (#[trigger] self@.outputs[k]).commit,
                        self@.outputs[k].proof,
                    ) is Ok) && range_proof_check(
                    (#[trigger] self@.outputs[i]).commit,
                    self@.outputs[i].proof,
                ) == Err::<(), SecpError>(e),
    {
        let ghost all = self@.outputs;
        let mut i: usize = 0;
        while i < self.outputs.len()
            invariant
                i <= self.outputs@.len(),
                all == self@.outputs,
                first_bad_proof(all.take(i as int)) is None,
                forall|k: int|
                    0 <= k < i ==> range_proof_check(
                        (#[trigger] all[k]).commit,
                        all[k].proof,
                    ) is Ok,
            decreases self.outputs@.len() - i,
        {
            assert(all.take(i + 1).drop_last() =~= all.take(i as int));
            assert(all[i as int] == self.outputs@[i as int]@);
            match self.outputs[i].verify_proof() {
                Ok(()) => {},
                Err(e) => {
                    proof {
                        lemma_first_bad_proof(all, i + 1);
                    }
                    return Err(e);
                },
            }
            i += 1;
        }
        assert(all.take(i as int) =~= all);
        Ok(())
    }

    /// The excesses of all kernels, and the commitment to the offset where there is one.
    pub fn kernel_commits(&self, offset_commit: Option<Commitment>) -> (r: Vec<Commitment>)
        ensures
            views(r@) == excesses(self@.kernels) + (match offset_commit {
                Some(c) => seq![c@],
                None => Seq::empty(),
            }),
            views(r@) == self@.kernels.map_values(|x: KernelData| x.excess) + (
            match offset_commit {
                Some(c) => seq![c@],
                None => Seq::empty(),
            }),
    {
        proof {
            law_commitments_of_items(self@.inputs, self@.outputs, self@.kernels);
        }
        let mut r = collect_excesses(&self.kernels);
        let ghost all = views(r@);
        match offset_commit {
            Some(c) => {
                r.push(c);
                assert(views(r@) =~= all + seq![c@]);
            },
            None => {
                assert(all =~= all + Seq::empty());
            },
        }
        r
    }

    /// Sums all excesses and the offset, unless that is zero.
    pub fn sum_kernels(&self) -> (r: Result<Commitment, Error>)
        ensures
            kernel_sum_outcome(r) == kernel_sum_of(self@),
            ({
                let n = curve_order() as int;
                let excess = self@.kernels.fold_left(
                    0int,
                    (|sum: int, x: KernelData|
                        sum + match log_of(x.excess) {
                            Some(log) => log as int,
                            None => 0,
                        }),
                );
                let kernel = excess + be_value(self@.header.kernel_offset);
                let sum = kernel % n;
                let usable = self@.header.kernel_offset == Seq::new(32, |i: int| 0u8) || 0
                    < be_value(self@.header.kernel_offset) < curve_order();
                let points = forall|i: int|
                    0 <= i < self@.kernels.len() ==> log_of(
                        (#[trigger] self@.kernels[i]).excess,
                    ) is Some;
                &&& r is Ok <==> usable && points && sum != 0
                &&& r matches Ok(c) ==> {
                    &&& log_of(c@) == Some(sum as nat)
                    &&& c@ == point_bytes(sum as nat)
                }
                &&& !usable ==> r == Err::<Commitment, Error>(
                    Error::Keychain(KeychainError::Secp(SecpError::InvalidSecretKey)),
                )
                &&& usable && !points ==> r == Err::<Commitment, Error>(
                    Error::Secp(SecpError::InvalidCommit),
                )
                &&& usable && points && sum == 0 ==> r == Err::<Commitment, Error>(
                    Error::Secp(SecpError::IncorrectCommitSum),
                )
            }),
    {
        proof {
            law_kernel_sum(self@);
            law_excesses_add_up(self@.kernels);
        }
        let offset_commit: Option<Commitment> = if self.header.kernel_offset.is_zero() {
            None
        } else {
            let key = match self.header.kernel_offset.secret_key() {
                Ok(key) => key,
                Err(e) => return Err(Error::from(KeychainError::from(e))),
            };
            match commit(0, &key) {
                Ok(offset_commit) => Some(offset_commit),
                Err(e) => return Err(Error::from(e)),
            }
        };
        let commits = self.kernel_commits(offset_commit);
        proof {
            let all = excesses(self@.kernels);
            lemma_value_of_zeros(32);
            match offset_commit {
                Some(c) => {
                    lemma_one_more_point(all, c@);
                    assert(all + seq![c@] =~= all.push(c@));
                },
                None => {
                    assert(all + Seq::empty() =~= all);
                },
            }
            assert(log_total(Seq::empty()) == 0);
        }
        let none: Vec<Commitment> = Vec::new();
        assert(views(none@) =~= Seq::empty());
        match commit_sum(&commits, &none) {
            Ok(sum) => Ok(sum),
            Err(e) => Err(Error::from(e)),
        }
    }

    /// Checks the signatures of all kernels.
    pub fn verify_signatures(&self) -> (r: Result<(), Error>)
        ensures
            r == (match first_bad_signature(self@.kernels) {
                Some(e) => Err::<(), Error>(Error::Secp(e)),
                None => Ok(()),
            }),
            r is Ok <==> (forall|i: int|
                0 <= i < self@.kernels.len() ==> signature_check(
                    (#[trigger] self@.kernels[i]).excess_sig,
                    Seq::new(16, |j: int| 0u8) + be_bytes(self@.kernels[i].fee as nat, 8)
                        + be_bytes(self@.kernels[i].lock_height as nat, 8),
                    self@.kernels[i].excess,
                ) == Ok::<bool, SecpError>(true)),
            r matches Err(e) ==> exists|i: int|
                0 <= i < self@.kernels.len() && (forall|k: int|
                    0 <= k < i ==> signature_check(
                        (#[trigger] self@.kernels[k]).excess_sig,
                        Seq::new(16, |j: int| 0u8) + be_bytes(self@.kernels[k].fee as nat, 8)
                            + be_bytes(self@.kernels[k].lock_height as nat, 8),
                        self@.kernels[k].excess,
                    ) == Ok::<bool, SecpError>(true)) && (match signature_check(
                    (#[trigger] self@.kernels[i]).excess_sig,
                    Seq::new(16, |j: int| 0u8) + be_bytes(self@.kernels[i].fee as nat, 8)
                        + be_bytes(self@.kernels[i].lock_height as nat, 8),
                    self@.kernels[i].excess,
                ) {
                    Ok(true) => false,
                    Ok(false) => e == Error::Secp(SecpError::IncorrectSignature),
                    Err(f) => e == Error::Secp(f),
                }),
    {
        let ghost all = self@.kernels;
        let mut i: usize = 0;
        while i < self.kernels.len()
            invariant
                i <= self.kernels@.len(),
                all == self@.kernels,
                first_bad_signature(all.take(i as int)) is None,
                forall|k: int|
                    0 <= k < i ==> signature_check(
                        (#[trigger] all[k]).excess_sig,
                        Seq::new(16, |j: int| 0u8) + be_bytes(all[k].fee as nat, 8) + be_bytes(
                            all[k].lock_height as nat,
                            8,
                        ),
                        all[k].excess,
                    ) == Ok::<bool, SecpError>(true),
            decreases self.kernels@.len() - i,
        {
            assert(all.take(i + 1).drop_last() =~= all.take(i as int));
            assert(all[i as int] == self.kernels@[i as int]@);
            match self.kernels[i].verify() {
                Ok(()) => {},
                Err(e) => {
                    proof {
                        lemma_first_bad_signature(all, i + 1);
                    }
                    return Err(Error::from(e));
                },
            }
            i += 1;
        }
        assert(all.take(i as int) =~= all);
        Ok(())
    }

    /// Validate the coinbase outputs generated by miners. Entails 2 main checks:
    ///
    /// * That the sum of all coinbase-marked outputs equal the supply.
    /// * That the sum of blinding factors for all coinbase-marked outputs match the
    ///   coinbase-marked kernels.
    ///
    /// The same outputs and kernels do not pass for two different rewards.
    pub fn verify_coinbase(&self, params: &ChainParams) -> (r: Result<(), Error>)
        requires
            params.wf(),
            fee_sum(self@.kernels) <= u64::MAX,
        ensures
            r == coinbase_check(*params, self@),
            kernels_with(self@.kernels, KernelFeatures::Coinbase).len() == 0 && coinbase_output_sum(
                *params,
                self@,
            ) is Ok ==> r == Err::<(), Error>(Error::Secp(SecpError::IncorrectCommitSum)),
            kernels_with(self@.kernels, KernelFeatures::Coinbase).len() == 0 ==> r is Err,
            ({
                let n = curve_order() as int;
                let given = self@.outputs.fold_left(
                    0int,
                    (|sum: int, x: OutputData|
                        if x.features == OutputFeatures::Coinbase {
                            sum + match log_of(x.commit) {
                                Some(log) => log as int,
                                None => 0,
                            }
                        } else {
                            sum
                        }),
                );
                let claimed = self@.kernels.fold_left(
                    0int,
                    (|sum: int, x: KernelData|
                        if x.features == KernelFeatures::Coinbase {
                            sum + match log_of(x.excess) {
                                Some(log) => log as int,
                                None => 0,
                            }
                        } else {
                            sum
                        }),
                );
                let fees = self@.kernels.fold_left(0int, (|sum: int, k: KernelData| sum + k.fee));
                let due = params.subsidy + fees / 2;
                let rewarded = (forall|i: int|
                    0 <= i < self@.outputs.len() && (#[trigger] self@.outputs[i]).features
                        == OutputFeatures::Coinbase ==> log_of(
                        self@.outputs[i].commit,
                    ) is Some) && (forall|i: int|
                    0 <= i < self@.kernels.len() && (#[trigger] self@.kernels[i]).features
                        == KernelFeatures::Coinbase ==> log_of(self@.kernels[i].excess) is Some);
                let gap = given - due * value_log(1) - claimed;
                &&& r is Ok && due > 0 ==> rewarded && gap % n == 0
                &&& due > 0 && rewarded && claimed % n != 0 && gap % n == 0 ==> r is Ok
                &&& due > 0 && rewarded && (given - due * value_log(1)) % n != 0 && claimed % n != 0
                    && gap % n != 0 ==> r == Err::<(), Error>(Error::CoinbaseSumMismatch)
            }),
            r is Ok ==> forall|b: BlockData|
                same_coinbase(self@, b) && fee_sum(b.kernels) <= u64::MAX && reward_of(
                    *params,
                    fee_sum(b.kernels),
                ) != reward_of(*params, fee_sum(self@.kernels)) && reward_of(
                    *params,
                    fee_sum(b.kernels),
                ) > 0 && reward_of(*params, fee_sum(self@.kernels)) > 0
                    ==> #[trigger] coinbase_check(*params, b) is Err,
    {
        let ghost given = self@.outputs.fold_left(
            0int,
            (|sum: int, x: OutputData|
                if x.features == OutputFeatures::Coinbase {
                    sum + match log_of(x.commit) {
                        Some(log) => log as int,
                        None => 0,
                    }
                } else {
                    sum
                }),
        );
        let ghost claimed = self@.kernels.fold_left(
            0int,
            (|sum: int, x: KernelData|
                if x.features == KernelFeatures::Coinbase {
                    sum + match log_of(x.excess) {
                        Some(log) => log as int,
                        None => 0,
                    }
                } else {
                    sum
                }),
        );
        let ghost fees = self@.kernels.fold_left(0int, (|sum: int, k: KernelData| sum + k.fee));
        let ghost due = params.subsidy + fees / 2;
        proof {
            law_coinbase_outputs_add_up(self@.outputs);
            law_coinbase_excesses_add_up(self@.kernels);
            law_fees_add_up(self@.kernels);
        }
        let outs = collect_commits_with(&self.outputs, OutputFeatures::Coinbase);
        let kerns = collect_excesses_with(&self.kernels, KernelFeatures::Coinbase);
        let over = match commit_value(params.reward(self.total_fees())) {
            Ok(over) => over,
            Err(e) => return Err(Error::from(e)),
        };
        let value: Vec<Commitment> = vec![over];
        let none: Vec<Commitment> = Vec::new();
        assert(views(value@) =~= seq![over@]);
        assert(views(none@) =~= Seq::empty());
        assert(views(kerns@).len() == kerns@.len());
        proof {
            let log = |c: Seq<u8>| log_value(c);
            lemma_total_of_one(over@, log);
            assert(seq![over@][0] == over@);
            assert(all_points(seq![over@]) <==> log_of(over@) is Some);
            assert(log_total(Seq::empty()) == 0);
            lemma_reduced_term(given, due * value_log(1));
            lemma_congruent(given - due * value_log(1), claimed);
        }
        let out_sum = commit_sum(&outs, &value);
        let kern_sum = commit_sum(&kerns, &none);
        proof {
            if coinbase_check(*params, self@) is Ok {
                assert forall|b: BlockData|
                    same_coinbase(self@, b) && fee_sum(b.kernels) <= u64::MAX && reward_of(
                        *params,
                        fee_sum(b.kernels),
                    ) != reward_of(*params, fee_sum(self@.kernels)) && reward_of(
                        *params,
                        fee_sum(b.kernels),
                    ) > 0 && reward_of(*params, fee_sum(self@.kernels)) > 0 implies (
                #[trigger] coinbase_check(*params, b)) is Err by {
                    law_other_reward_is_refused(*params, self@, b);
                }
            }
        }
        compare_coinbase_sums(out_sum, kern_sum)
    }

    /// Checks that an input of a block at `height` may spend the coinbase output of this block
    /// that it claims to spend: the output has to be in this block, and matures a number of
    /// blocks later that is a parameter of the chain.
    ///
    /// This happens when a block is applied, not when it is validated.
    pub fn verify_coinbase_maturity(&self, params: &ChainParams, input: &Input, height: u64) -> (r:
        Result<(), Error>)
        requires
            input@.features == OutputFeatures::Coinbase,
            has_output(self@, input@) ==> self@.header.height + params.coinbase_maturity
                <= u64::MAX,
        ensures
            has_output(self@, input@) ==> r == (if self@.header.height + params.coinbase_maturity
                > height {
                Err::<(), Error>(
                    (Error::ImmatureCoinbase {
                        height,
                        lock_height: (self@.header.height + params.coinbase_maturity) as u64,
                    }),
                )
            } else {
                Ok(())
            }),
            !has_output(self@, input@) ==> (r matches Err(Error::Other(s)) && s@
                == "output not found in block"@),
            forall|i: int|
                0 <= i < self@.outputs.len() && (#[trigger] self@.outputs[i]).features
                    == input@.features && self@.outputs[i].commit == input@.commit ==> r == (
                if self@.header.height + params.coinbase_maturity <= height {
                    Ok::<(), Error>(())
                } else {
                    Err(
                        (Error::ImmatureCoinbase {
                            height,
                            lock_height: (self@.header.height + params.coinbase_maturity) as u64,
                        }),
                    )
                }),
            (forall|i: int|
                0 <= i < self@.outputs.len() ==> (#[trigger] self@.outputs[i]).features
                    != input@.features || self@.outputs[i].commit != input@.commit) ==> (
            r matches Err(Error::Other(s)) && s@ == "output not found in block"@),
    {
        let wanted = OutputIdentifier::from_input(input);
        let mut i: usize = 0;
        while i < self.outputs.len()
            invariant
                i <= self.outputs@.len(),
                wanted@.features == input@.features,
                wanted@.commit == input@.commit,
                has_output(self@, input@) ==> self@.header.height + params.coinbase_maturity
                    <= u64::MAX,
                forall|k: int|
                    0 <= k < i ==> (#[trigger] self@.outputs[k]).features != input@.features
                        || self@.outputs[k].commit != input@.commit,
            decreases self.outputs@.len() - i,
        {
            if OutputIdentifier::from_output(&self.outputs[i]).same(&wanted) {
                assert(self@.outputs[i as int].features == input@.features);
                assert(has_output(self@, input@));
                let lock_height: u64 = self.header.height + params.coinbase_maturity;
                if lock_height > height {
                    return Err(Error::ImmatureCoinbase { height, lock_height });
                }
                return Ok(());
            }
            i += 1;
        }
        Err(Error::Other("output not found in block".to_owned()))
    }
}

} // verus!
