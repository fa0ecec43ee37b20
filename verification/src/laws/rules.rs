//! What the rules for blocks ask for, item by item.

use vstd::prelude::*;
use crate::block::BlockData;
use crate::consensus::{ChainParams, ConsensusError};
use crate::error::{Error, KeychainError};
use crate::laws::amounts::{
    law_coinbase_excesses_add_up, law_coinbase_outputs_add_up, law_excesses_add_up,
    law_fees_add_up, law_inputs_add_up, law_outputs_add_up,
};
use crate::laws::soundness::{lemma_all_proofs_hold, lemma_all_signatures_hold};
use crate::laws::validity::{lemma_no_bad_proof, lemma_no_bad_signature, lemma_no_kernel_fault};
use crate::order::{lex_le, Wire};
use crate::secp::{
    curve_order, log_of, point_bytes, range_proof_check, signature_check, value_log, SecpError,
};
use crate::ser::{be_bytes, be_value};
use crate::transaction::{
    kernel_check, Input, InputData, KernelData, KernelFeatures, Output, OutputData,
    OutputFeatures, TxKernel,
};
use crate::validate::{
    block_check, coinbase_check, first_bad_proof, first_bad_signature, first_kernel_fault,
    has_output, io_sum_of, kernel_fault, kernel_sum_of, kernels_check, sort_check, weight_check,
};

verus! {

/// A block is too heavy just where its inputs, outputs and kernels weigh more than the chain
/// allows.
pub proof fn law_weight_check(params: ChainParams, b: BlockData)
    ensures
        weight_check(params, b) == Err::<(), Error>(Error::WeightExceeded) <==> b.inputs.len()
            * params.input_weight + b.outputs.len() * params.output_weight + b.kernels.len()
            * params.kernel_weight > params.max_weight,
        weight_check(params, b) is Err ==> weight_check(params, b) == Err::<(), Error>(
            Error::WeightExceeded,
        ),
{
}

/// The lists of a block are in order just where, of any two items of one list, the earlier one
/// does not come after the later one.
pub proof fn law_sort_check(b: BlockData)
    ensures
        sort_check(b) is Ok <==> {
            &&& forall|i: int, j: int|
                0 <= i < j < b.inputs.len() ==> lex_le(
                    #[trigger] Input::encode(b.inputs[i]),
                    #[trigger] Input::encode(b.inputs[j]),
                )
            &&& forall|i: int, j: int|
                0 <= i < j < b.outputs.len() ==> lex_le(
                    #[trigger] Output::encode(b.outputs[i]),
                    #[trigger] Output::encode(b.outputs[j]),
                )
            &&& forall|i: int, j: int|
                0 <= i < j < b.kernels.len() ==> lex_le(
                    #[trigger] TxKernel::encode(b.kernels[i]),
                    #[trigger] TxKernel::encode(b.kernels[j]),
                )
        },
        sort_check(b) is Err ==> sort_check(b) == Err::<(), Error>(
            Error::Consensus(ConsensusError::SortError),
        ),
{
}

/// No kernel may have an odd fee or be locked beyond the height of the block, wherever in the
/// list it stands.
pub proof fn law_kernel_rules(kernels: Seq<KernelData>, height: u64)
    ensures
        first_kernel_fault(kernels, height) is None <==> forall|i: int|
            0 <= i < kernels.len() ==> (#[trigger] kernels[i]).fee % 2 == 0
                && kernels[i].lock_height <= height,
{
    lemma_no_kernel_fault(kernels, height);
    assert forall|i: int| 0 <= i < kernels.len() implies (kernel_fault(
        #[trigger] kernels[i],
        height,
    ) is None <==> kernels[i].fee % 2 == 0 && kernels[i].lock_height <= height) by {}
}

/// The first kernel that breaks a rule is the one that is reported, its fee before its lock
/// height.
pub proof fn law_first_faulty_kernel(kernels: Seq<KernelData>, height: u64, i: int)
    requires
        0 <= i < kernels.len(),
        forall|k: int|
            0 <= k < i ==> (#[trigger] kernels[k]).fee % 2 == 0 && kernels[k].lock_height <= height,
    ensures
        kernels[i].fee % 2 == 1 ==> first_kernel_fault(kernels, height) == Some(
            Error::OddKernelFee,
        ),
        kernels[i].fee % 2 == 0 && kernels[i].lock_height > height ==> first_kernel_fault(
            kernels,
            height,
        ) == Some(Error::KernelLockHeight(kernels[i].lock_height)),
    decreases kernels.len(),
{
    let front = kernels.drop_last();
    assert forall|k: int| 0 <= k < front.len() implies front[k] == #[trigger] kernels[k] by {}
    if i < front.len() {
        law_first_faulty_kernel(front, height, i);
    } else {
        law_kernel_rules(front, height);
    }
}

/// All range proofs have to be right, wherever in the list they stand.
pub proof fn law_range_proofs(outputs: Seq<OutputData>)
    ensures
        first_bad_proof(outputs) is None <==> forall|i: int|
            0 <= i < outputs.len() ==> range_proof_check(
                (#[trigger] outputs[i]).commit,
                outputs[i].proof,
            ) is Ok,
{
    if first_bad_proof(outputs) is None {
        assert forall|i: int| 0 <= i < outputs.len() implies range_proof_check(
            (#[trigger] outputs[i]).commit,
            outputs[i].proof,
        ) is Ok by {
            lemma_no_bad_proof(outputs, i);
        }
    } else if forall|i: int|
        0 <= i < outputs.len() ==> range_proof_check(
            (#[trigger] outputs[i]).commit,
            outputs[i].proof,
        ) is Ok {
        lemma_all_proofs_hold(outputs);
    }
}

/// The first range proof that fails is the one that is reported.
pub proof fn law_first_bad_range_proof(outputs: Seq<OutputData>, i: int, e: SecpError)
    requires
        0 <= i < outputs.len(),
        forall|k: int|
            0 <= k < i ==> range_proof_check((#[trigger] outputs[k]).commit, outputs[k].proof) is Ok,
        range_proof_check(outputs[i].commit, outputs[i].proof) == Err::<(), SecpError>(e),
    ensures
        first_bad_proof(outputs) == Some(e),
    decreases outputs.len(),
{
    let front = outputs.drop_last();
    assert forall|k: int| 0 <= k < front.len() implies front[k] == #[trigger] outputs[k] by {}
    if i < front.len() {
        law_first_bad_range_proof(front, i, e);
    } else {
        law_range_proofs(front);
    }
}

/// All signatures have to sign the fee and the lock height of their kernel under its excess,
/// wherever in the list they stand.
pub proof fn law_signatures(kernels: Seq<KernelData>)
    ensures
        first_bad_signature(kernels) is None <==> forall|i: int|
            0 <= i < kernels.len() ==> signature_check(
                (#[trigger] kernels[i]).excess_sig,
                Seq::new(16, |j: int| 0u8) + be_bytes(kernels[i].fee as nat, 8) + be_bytes(
                    kernels[i].lock_height as nat,
                    8,
                ),
                kernels[i].excess,
            ) == Ok::<bool, SecpError>(true),
{
    assert forall|i: int| 0 <= i < kernels.len() implies (kernel_check(
        #[trigger] kernels[i],
    ) is Ok <==> signature_check(
        kernels[i].excess_sig,
        Seq::new(16, |j: int| 0u8) + be_bytes(kernels[i].fee as nat, 8) + be_bytes(
            kernels[i].lock_height as nat,
            8,
        ),
        kernels[i].excess,
    ) == Ok::<bool, SecpError>(true)) by {}
    if first_bad_signature(kernels) is None {
        assert forall|i: int| 0 <= i < kernels.len() implies kernel_check(
            #[trigger] kernels[i],
        ) is Ok by {
            lemma_no_bad_signature(kernels, i);
        }
    } else if forall|i: int| 0 <= i < kernels.len() ==> kernel_check(#[trigger] kernels[i]) is Ok {
        lemma_all_signatures_hold(kernels);
    }
}

/// The first signature that fails is the one that is reported: where it does not match, as an
/// incorrect signature.
pub proof fn law_first_bad_signature(kernels: Seq<KernelData>, i: int)
    requires
        0 <= i < kernels.len(),
        forall|k: int|
            0 <= k < i ==> signature_check(
                (#[trigger] kernels[k]).excess_sig,
                Seq::new(16, |j: int| 0u8) + be_bytes(kernels[k].fee as nat, 8) + be_bytes(
                    kernels[k].lock_height as nat,
                    8,
                ),
                kernels[k].excess,
            ) == Ok::<bool, SecpError>(true),
    ensures
        ({
            let checked = signature_check(
                kernels[i].excess_sig,
                Seq::new(16, |j: int| 0u8) + be_bytes(kernels[i].fee as nat, 8) + be_bytes(
                    kernels[i].lock_height as nat,
                    8,
                ),
                kernels[i].excess,
            );
            &&& checked == Ok::<bool, SecpError>(false) ==> first_bad_signature(kernels) == Some(
                SecpError::IncorrectSignature,
            )
            &&& checked matches Err(e) ==> first_bad_signature(kernels) == Some(e)
        }),
    decreases kernels.len(),
{
    let front = kernels.drop_last();
    assert forall|k: int| 0 <= k < front.len() implies front[k] == #[trigger] kernels[k] by {}
    if i < front.len() {
        law_first_bad_signature(front, i);
    } else {
        law_signatures(front);
    }
}

/// Where a range proof fails, the sum of a block is refused for that, at any height and however
/// many outputs there are.
pub proof fn law_io_sum_needs_range_proofs(params: ChainParams, b: BlockData, i: int, e: SecpError)
    requires
        0 <= i < b.outputs.len(),
        forall|k: int|
            0 <= k < i ==> range_proof_check(
                (#[trigger] b.outputs[k]).commit,
                b.outputs[k].proof,
            ) is Ok,
        range_proof_check(b.outputs[i].commit, b.outputs[i].proof) == Err::<(), SecpError>(e),
    ensures
        io_sum_of(params, b) == Err::<Seq<u8>, SecpError>(e),
{
    law_first_bad_range_proof(b.outputs, i, e);
}

/// What the inputs and outputs of a block are held against its kernels by, at any height and
/// of whatever size the block is: the sum of all outputs less all inputs, with half of the fees
/// less the subsidy.
pub proof fn law_io_sum(params: ChainParams, b: BlockData)
    requires
        forall|i: int|
            0 <= i < b.outputs.len() ==> range_proof_check(
                (#[trigger] b.outputs[i]).commit,
                b.outputs[i].proof,
            ) is Ok,
    ensures
        ({
            let points = (forall|i: int|
                0 <= i < b.outputs.len() ==> log_of((#[trigger] b.outputs[i]).commit) is Some) && (
            forall|i: int|
                0 <= i < b.inputs.len() ==> log_of((#[trigger] b.inputs[i]).commit) is Some);
            let sum = b.outputs.fold_left(
                0int,
                (|sum: int, x: OutputData|
                    sum + match log_of(x.commit) {
                        Some(log) => log as int,
                        None => 0,
                    }),
            ) - b.inputs.fold_left(
                0int,
                (|sum: int, x: InputData|
                    sum + match log_of(x.commit) {
                        Some(log) => log as int,
                        None => 0,
                    }),
            ) + (b.kernels.fold_left(0int, (|sum: int, k: KernelData| sum + k.fee)) / 2
                - params.subsidy) * value_log(1);
            &&& !points ==> io_sum_of(params, b) == Err::<Seq<u8>, SecpError>(
                SecpError::InvalidCommit,
            )
            &&& points && sum % curve_order() as int == 0 ==> io_sum_of(params, b) == Err::<
                Seq<u8>,
                SecpError,
            >(SecpError::IncorrectCommitSum)
            &&& points && sum % curve_order() as int != 0 ==> io_sum_of(params, b) == Ok::<
                Seq<u8>,
                SecpError,
            >(point_bytes((sum % curve_order() as int) as nat))
        }),
{
    law_range_proofs(b.outputs);
    law_outputs_add_up(b.outputs);
    law_inputs_add_up(b.inputs);
    law_fees_add_up(b.kernels);
}

/// What the kernels of a block are held against its inputs and outputs by, at any height and of
/// whatever size the block is: the sum of all excesses, with the offset.
pub proof fn law_kernel_sum(b: BlockData)
    ensures
        ({
            let offset = be_value(b.header.kernel_offset);
            let usable = b.header.kernel_offset == Seq::new(32, |i: int| 0u8) || 0 < offset
                < curve_order();
            let points = forall|i: int|
                0 <= i < b.kernels.len() ==> log_of((#[trigger] b.kernels[i]).excess) is Some;
            let sum = b.kernels.fold_left(
                0int,
                (|sum: int, x: KernelData|
                    sum + match log_of(x.excess) {
                        Some(log) => log as int,
                        None => 0,
                    }),
            ) + offset;
            &&& !usable ==> kernel_sum_of(b) == Err::<Seq<u8>, Error>(
                Error::Keychain(KeychainError::Secp(SecpError::InvalidSecretKey)),
            )
            &&& usable && !points ==> kernel_sum_of(b) == Err::<Seq<u8>, Error>(
                Error::Secp(SecpError::InvalidCommit),
            )
            &&& usable && points && sum % curve_order() as int == 0 ==> kernel_sum_of(b) == Err::<
                Seq<u8>,
                Error,
            >(Error::Secp(SecpError::IncorrectCommitSum))
            &&& usable && points && sum % curve_order() as int != 0 ==> kernel_sum_of(b) == Ok::<
                Seq<u8>,
                Error,
            >(point_bytes((sum % curve_order() as int) as nat))
        }),
{
    law_excesses_add_up(b.kernels);
}

/// The rules are checked in this order: weight, order, reward, kernels.
pub proof fn law_checks_in_order(params: ChainParams, b: BlockData)
    ensures
        block_check(params, b) is Ok <==> weight_check(params, b) is Ok && sort_check(b) is Ok
            && coinbase_check(params, b) is Ok && kernels_check(params, b) is Ok,
        weight_check(params, b) is Err ==> block_check(params, b) == weight_check(params, b),
        weight_check(params, b) is Ok && sort_check(b) is Err ==> block_check(params, b)
            == sort_check(b),
        weight_check(params, b) is Ok && sort_check(b) is Ok && coinbase_check(params, b) is Err
            ==> block_check(params, b) == coinbase_check(params, b),
        weight_check(params, b) is Ok && sort_check(b) is Ok && coinbase_check(params, b) is Ok
            ==> block_check(params, b) == kernels_check(params, b),
{
}

/// The kernels of a block are checked in this order: fees and lock heights, sums, signatures.
pub proof fn law_kernel_checks_in_order(params: ChainParams, b: BlockData)
    ensures
        kernels_check(params, b) is Ok ==> {
            &&& first_kernel_fault(b.kernels, b.header.height) is None
            &&& io_sum_of(params, b) is Ok
            &&& kernel_sum_of(b) == Ok::<Seq<u8>, Error>(io_sum_of(params, b)->Ok_0)
            &&& first_bad_signature(b.kernels) is None
        },
        first_kernel_fault(b.kernels, b.header.height) matches Some(e) ==> kernels_check(params, b)
            == Err::<(), Error>(e),
        first_kernel_fault(b.kernels, b.header.height) is None ==> {
            &&& io_sum_of(params, b) matches Err(e) ==> kernels_check(params, b) == Err::<
                (),
                Error,
            >(Error::Secp(e))
            &&& io_sum_of(params, b) is Ok ==> {
                &&& kernel_sum_of(b) matches Err(e) ==> kernels_check(params, b) == Err::<
                    (),
                    Error,
                >(e)
                &&& kernel_sum_of(b) matches Ok(sum) ==> {
                    &&& sum != io_sum_of(params, b)->Ok_0 ==> kernels_check(params, b) == Err::<
                        (),
                        Error,
                    >(Error::KernelSumMismatch)
                    &&& sum == io_sum_of(params, b)->Ok_0 ==> kernels_check(params, b) == (
                    match first_bad_signature(b.kernels) {
                        Some(e) => Err::<(), Error>(Error::Secp(e)),
                        None => Ok(()),
                    })
                }
            }
        },
{
}

/// A block that passes balances, at any height: all of its inputs and outputs are points, and the
/// outputs less the inputs, with half of the fees less the subsidy, are congruent to the excesses
/// with the offset. That points are read back from their bytes is assumed of the two sums.
pub proof fn law_valid_block_balances(params: ChainParams, b: BlockData)
    requires
        block_check(params, b) is Ok,
        forall|log: nat|
            0 < log < curve_order() && (io_sum_of(params, b) == Ok::<Seq<u8>, SecpError>(
                #[trigger] point_bytes(log),
            )) ==> log_of(point_bytes(log)) == Some(log),
    ensures
        forall|i: int|
            0 <= i < b.outputs.len() ==> log_of((#[trigger] b.outputs[i]).commit) is Some,
        forall|i: int| 0 <= i < b.inputs.len() ==> log_of((#[trigger] b.inputs[i]).commit) is Some,
        ({
            let made = b.outputs.fold_left(
                0int,
                (|sum: int, x: OutputData|
                    sum + match log_of(x.commit) {
                        Some(log) => log as int,
                        None => 0,
                    }),
            );
            let spent = b.inputs.fold_left(
                0int,
                (|sum: int, x: InputData|
                    sum + match log_of(x.commit) {
                        Some(log) => log as int,
                        None => 0,
                    }),
            );
            let excess = b.kernels.fold_left(
                0int,
                (|sum: int, x: KernelData|
                    sum + match log_of(x.excess) {
                        Some(log) => log as int,
                        None => 0,
                    }),
            );
            let fees = b.kernels.fold_left(0int, (|sum: int, k: KernelData| sum + k.fee));
            let io = made - spent + (fees / 2 - params.subsidy) * value_log(1);
            let kernel = excess + be_value(b.header.kernel_offset);
            let n = curve_order() as int;
            (io - kernel) % n == 0
        }),
{
    let made = b.outputs.fold_left(
        0int,
        (|sum: int, x: OutputData|
            sum + match log_of(x.commit) {
                Some(log) => log as int,
                None => 0,
            }),
    );
    let spent = b.inputs.fold_left(
        0int,
        (|sum: int, x: InputData|
            sum + match log_of(x.commit) {
                Some(log) => log as int,
                None => 0,
            }),
    );
    let excess = b.kernels.fold_left(
        0int,
        (|sum: int, x: KernelData|
            sum + match log_of(x.excess) {
                Some(log) => log as int,
                None => 0,
            }),
    );
    let fees = b.kernels.fold_left(0int, (|sum: int, k: KernelData| sum + k.fee));
    let io = made - spent + (fees / 2 - params.subsidy) * value_log(1);
    let kernel = excess + be_value(b.header.kernel_offset);
    let n = curve_order() as int;
    law_checks_in_order(params, b);
    law_kernel_checks_in_order(params, b);
    law_range_proofs(b.outputs);
    law_io_sum(params, b);
    law_kernel_sum(b);
    vstd::arithmetic::div_mod::lemma_mod_equivalence(io, kernel, n);
    assert(log_of(point_bytes((io % n) as nat)) == Some((io % n) as nat));
    assert(log_of(point_bytes((kernel % n) as nat)) == Some((kernel % n) as nat));
}

/// What the outputs and kernels of a reward are held against each other by, at any height and
/// of whatever size the block is: the sum of the coinbase outputs, less the commitment to the
/// subsidy and half of the fees, and the sum of the excesses of the coinbase kernels.
pub proof fn law_coinbase_check(params: ChainParams, b: BlockData)
    requires
        params.subsidy <= i64::MAX,
        b.kernels.fold_left(0int, (|sum: int, k: KernelData| sum + k.fee)) <= u64::MAX,
    ensures
        ({
            let fees = b.kernels.fold_left(0int, (|sum: int, k: KernelData| sum + k.fee));
            let over = point_bytes(
                (((params.subsidy + fees / 2) * value_log(1)) % curve_order() as int) as nat,
            );
            let outs_are_points = log_of(over) is Some && forall|i: int|
                0 <= i < b.outputs.len() && (#[trigger] b.outputs[i]).features
                    == OutputFeatures::Coinbase ==> log_of(b.outputs[i].commit) is Some;
            let kerns_are_points = forall|i: int|
                0 <= i < b.kernels.len() && (#[trigger] b.kernels[i]).features
                    == KernelFeatures::Coinbase ==> log_of(b.kernels[i].excess) is Some;
            let outs = b.outputs.fold_left(
                0int,
                (|sum: int, x: OutputData|
                    if x.features == OutputFeatures::Coinbase {
                        sum + match log_of(x.commit) {
                        Some(log) => log as int,
                        None => 0,
                    }
                    } else {
                        sum
                    }),
            ) - (log_of(over)->0 as int);
            let kerns = b.kernels.fold_left(
                0int,
                (|sum: int, x: KernelData|
                    if x.features == KernelFeatures::Coinbase {
                        sum + match log_of(x.excess) {
                        Some(log) => log as int,
                        None => 0,
                    }
                    } else {
                        sum
                    }),
            );
            let n = curve_order() as int;
            &&& !outs_are_points ==> coinbase_check(params, b) == Err::<(), Error>(
                Error::Secp(SecpError::InvalidCommit),
            )
            &&& outs_are_points && outs % n == 0 ==> coinbase_check(params, b) == Err::<(), Error>(
                Error::Secp(SecpError::IncorrectCommitSum),
            )
            &&& outs_are_points && outs % n != 0 && !kerns_are_points ==> coinbase_check(params, b)
                == Err::<(), Error>(Error::Secp(SecpError::InvalidCommit))
            &&& outs_are_points && outs % n != 0 && kerns_are_points && kerns % n == 0
                ==> coinbase_check(params, b) == Err::<(), Error>(
                Error::Secp(SecpError::IncorrectCommitSum),
            )
            &&& outs_are_points && outs % n != 0 && kerns_are_points && kerns % n != 0
                ==> coinbase_check(params, b) == (if point_bytes((outs % n) as nat) == point_bytes(
                (kerns % n) as nat,
            ) {
                Ok::<(), Error>(())
            } else {
                Err(Error::CoinbaseSumMismatch)
            })
        }),
{
    law_coinbase_outputs_add_up(b.outputs);
    law_coinbase_excesses_add_up(b.kernels);
    law_fees_add_up(b.kernels);
    let over = crate::secp::commit_value_of(
        crate::consensus::reward_of(params, crate::transaction::fee_sum(b.kernels)) as u64,
    )->Ok_0;
    let fees = crate::transaction::fee_sum(b.kernels) as int;
    assert(fees == b.kernels.fold_left(0int, (|sum: int, k: KernelData| sum + k.fee)));
    assert(over == point_bytes(
        (((params.subsidy + fees / 2) * value_log(1)) % curve_order() as int) as nat,
    ));
    let log = |c: Seq<u8>| crate::secp::log_value(c);
    crate::totals::lemma_total_of_one(over, log);
    assert(seq![over][0] == over);
    assert(crate::secp::all_points(seq![over]) <==> log_of(over) is Some);
    assert(crate::secp::log_total(Seq::empty()) == 0);
    assert(crate::secp::all_points(Seq::empty()));
}

/// An input finds the output that it spends wherever in the block it stands.
pub proof fn law_output_is_found(b: BlockData, input: InputData)
    ensures
        forall|i: int|
            0 <= i < b.outputs.len() && (#[trigger] b.outputs[i]).features == input.features
                && b.outputs[i].commit == input.commit ==> has_output(b, input),
        has_output(b, input) ==> exists|i: int|
            0 <= i < b.outputs.len() && (#[trigger] b.outputs[i]).features == input.features
                && b.outputs[i].commit == input.commit,
{
}

} // verus!
