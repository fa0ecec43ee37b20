//! What fees, rewards and sums of commitments are, item by item.

use vstd::prelude::*;
use crate::block::{input_commits, kernels_with, output_commits, outputs_with};
use crate::consensus::{overage_of, reward_of, ChainParams};
use crate::filters::lemma_filter_last;
use crate::mining::{candidate_fees, excess_of, lemma_fee_sum_of_both, offsets_of, transactions_of};
use crate::secp::{
    all_points, commit_sum_of, curve_order, key_total, log_of, log_total, offset_sum_of,
    point_bytes, summable, value_log, SecpError,
};
use crate::ser::{be_value, lemma_value_of_zeros};
use crate::totals::lemma_total_push;
use crate::transaction::{
    all_kernels, fee_sum, CandidateData, InputData, KernelData, KernelFeatures, OutputData,
    OutputFeatures,
};
use crate::validate::excesses;

verus! {

/// Every subsidy that fits a signed amount will do.
pub proof fn law_any_subsidy_will_do(params: ChainParams)
    requires
        params.subsidy <= i64::MAX,
    ensures
        params.wf(),
{
}

/// The fees of a list of kernels are summed one by one, whatever their number and size.
pub proof fn law_fees_add_up(kernels: Seq<KernelData>)
    ensures
        fee_sum(kernels) == kernels.fold_left(0int, |sum: int, k: KernelData| sum + k.fee),
    decreases kernels.len(),
{
    if kernels.len() > 0 {
        law_fees_add_up(kernels.drop_last());
    }
}

/// The fees of candidates are summed kernel by kernel, whatever their number and size.
pub proof fn law_candidate_fees_add_up(txs: Seq<CandidateData>)
    ensures
        candidate_fees(txs) == txs.fold_left(
            0int,
            |sum: int, c: CandidateData|
                sum + c.tx.kernels.fold_left(0int, |fees: int, k: KernelData| fees + k.fee),
        ),
    decreases txs.len(),
{
    if txs.len() > 0 {
        let front = txs.drop_last();
        law_candidate_fees_add_up(front);
        assert(transactions_of(txs).drop_last() =~= transactions_of(front));
        lemma_fee_sum_of_both(all_kernels(transactions_of(front)), txs.last().tx.kernels);
        law_fees_add_up(txs.last().tx.kernels);
    }
}

/// A miner gets the subsidy and half of the fees, rounded down; the other half is burnt. The
/// overage is half of the fees less the subsidy. This is so for fees of whatever size.
pub proof fn law_half_of_the_fees_is_burnt(params: ChainParams, fees: nat)
    ensures
        reward_of(params, fees) == params.subsidy + fees / 2,
        2 * (reward_of(params, fees) - params.subsidy) <= fees,
        fees < 2 * (reward_of(params, fees) - params.subsidy) + 2,
        overage_of(params, fees) == fees / 2 - params.subsidy,
        reward_of(params, fees + 2) == reward_of(params, fees) + 1,
        overage_of(params, fees) + params.subsidy == reward_of(params, fees) - params.subsidy,
{
}

/// The weight of a block is the sum of the weights of its items.
pub proof fn law_weight_adds_up(params: ChainParams, inputs: nat, outputs: nat, kernels: nat)
    ensures
        params.weight(inputs, outputs, kernels) == inputs * params.input_weight + outputs
            * params.output_weight + kernels * params.kernel_weight,
{
}

/// Commitments are summed one by one.
pub proof fn law_logs_add_up(commits: Seq<Seq<u8>>)
    ensures
        log_total(commits) == commits.fold_left(
            0int,
            |sum: int, c: Seq<u8>|
                sum + match log_of(c) {
                    Some(log) => log as int,
                    None => 0,
                },
        ),
    decreases commits.len(),
{
    if commits.len() > 0 {
        law_logs_add_up(commits.drop_last());
    }
}

/// What a sum of commitments is: an error where one of them is no point of the curve or where
/// they sum to the point at infinity, and otherwise the point that they sum to.
pub proof fn law_commitments_are_summed(positive: Seq<Seq<u8>>, negative: Seq<Seq<u8>>)
    ensures
        ({
            let sum = positive.fold_left(
                0int,
                |sum: int, c: Seq<u8>|
                    sum + match log_of(c) {
                        Some(log) => log as int,
                        None => 0,
                    },
            ) - negative.fold_left(
                0int,
                |sum: int, c: Seq<u8>|
                    sum + match log_of(c) {
                        Some(log) => log as int,
                        None => 0,
                    },
            );
            let points = (forall|i: int|
                0 <= i < positive.len() ==> log_of(#[trigger] positive[i]) is Some) && (forall|
                i: int,
            |
                0 <= i < negative.len() ==> log_of(#[trigger] negative[i]) is Some);
            &&& !points ==> commit_sum_of(positive, negative) == Err::<Seq<u8>, SecpError>(
                SecpError::InvalidCommit,
            )
            &&& points && sum % curve_order() as int == 0 ==> commit_sum_of(positive, negative)
                == Err::<Seq<u8>, SecpError>(SecpError::IncorrectCommitSum)
            &&& points && sum % curve_order() as int != 0 ==> commit_sum_of(positive, negative)
                == Ok::<Seq<u8>, SecpError>(point_bytes((sum % curve_order() as int) as nat))
        }),
{
    law_logs_add_up(positive);
    law_logs_add_up(negative);
    assert(all_points(positive) <==> forall|i: int|
        0 <= i < positive.len() ==> log_of(#[trigger] positive[i]) is Some);
    assert(all_points(negative) <==> forall|i: int|
        0 <= i < negative.len() ==> log_of(#[trigger] negative[i]) is Some);
}

/// The inputs of a list are summed one by one.
pub proof fn law_inputs_add_up(inputs: Seq<InputData>)
    ensures
        log_total(input_commits(inputs)) == inputs.fold_left(
            0int,
            |sum: int, x: InputData|
                sum + match log_of(x.commit) {
                    Some(log) => log as int,
                    None => 0,
                },
        ),
        all_points(input_commits(inputs)) <==> forall|i: int|
            0 <= i < inputs.len() ==> log_of((#[trigger] inputs[i]).commit) is Some,
    decreases inputs.len(),
{
    assert(input_commits(inputs).len() == inputs.len());
    assert forall|i: int| 0 <= i < inputs.len() implies input_commits(inputs)[i] == (
    #[trigger] inputs[i]).commit by {}
    if all_points(input_commits(inputs)) {
        assert forall|i: int| 0 <= i < inputs.len() implies log_of(
            (#[trigger] inputs[i]).commit,
        ) is Some by {
            assert(log_of(input_commits(inputs)[i]) is Some);
        }
    }
    if inputs.len() > 0 {
        law_inputs_add_up(inputs.drop_last());
        assert(input_commits(inputs).drop_last() =~= input_commits(inputs.drop_last()));
    }
}

/// The outputs of a list are summed one by one.
pub proof fn law_outputs_add_up(outputs: Seq<OutputData>)
    ensures
        log_total(output_commits(outputs)) == outputs.fold_left(
            0int,
            |sum: int, x: OutputData|
                sum + match log_of(x.commit) {
                    Some(log) => log as int,
                    None => 0,
                },
        ),
        all_points(output_commits(outputs)) <==> forall|i: int|
            0 <= i < outputs.len() ==> log_of((#[trigger] outputs[i]).commit) is Some,
    decreases outputs.len(),
{
    assert(output_commits(outputs).len() == outputs.len());
    assert forall|i: int| 0 <= i < outputs.len() implies output_commits(outputs)[i] == (
    #[trigger] outputs[i]).commit by {}
    if all_points(output_commits(outputs)) {
        assert forall|i: int| 0 <= i < outputs.len() implies log_of(
            (#[trigger] outputs[i]).commit,
        ) is Some by {
            assert(log_of(output_commits(outputs)[i]) is Some);
        }
    }
    if outputs.len() > 0 {
        law_outputs_add_up(outputs.drop_last());
        assert(output_commits(outputs).drop_last() =~= output_commits(outputs.drop_last()));
    }
}

/// The excesses of a list of kernels are summed one by one.
pub proof fn law_excesses_add_up(kernels: Seq<KernelData>)
    ensures
        log_total(excesses(kernels)) == kernels.fold_left(
            0int,
            |sum: int, x: KernelData|
                sum + match log_of(x.excess) {
                    Some(log) => log as int,
                    None => 0,
                },
        ),
        all_points(excesses(kernels)) <==> forall|i: int|
            0 <= i < kernels.len() ==> log_of((#[trigger] kernels[i]).excess) is Some,
    decreases kernels.len(),
{
    assert(excesses(kernels).len() == kernels.len());
    assert forall|i: int| 0 <= i < kernels.len() implies excesses(kernels)[i] == (
    #[trigger] kernels[i]).excess by {}
    if all_points(excesses(kernels)) {
        assert forall|i: int| 0 <= i < kernels.len() implies log_of(
            (#[trigger] kernels[i]).excess,
        ) is Some by {
            assert(log_of(excesses(kernels)[i]) is Some);
        }
    }
    if kernels.len() > 0 {
        law_excesses_add_up(kernels.drop_last());
        assert(excesses(kernels).drop_last() =~= excesses(kernels.drop_last()));
    }
}

/// The coinbase outputs of a list are summed one by one, and no others.
pub proof fn law_coinbase_outputs_add_up(outputs: Seq<OutputData>)
    ensures
        log_total(output_commits(outputs_with(outputs, OutputFeatures::Coinbase)))
            == outputs.fold_left(
            0int,
            |sum: int, x: OutputData|
                if x.features == OutputFeatures::Coinbase {
                    sum + match log_of(x.commit) {
                        Some(log) => log as int,
                        None => 0,
                    }
                } else {
                    sum
                },
        ),
        all_points(output_commits(outputs_with(outputs, OutputFeatures::Coinbase)))
            <==> forall|i: int|
            0 <= i < outputs.len() && (#[trigger] outputs[i]).features == OutputFeatures::Coinbase
                ==> log_of(outputs[i].commit) is Some,
    decreases outputs.len(),
{
    let wanted = |o: OutputData| o.features == OutputFeatures::Coinbase;
    if outputs.len() == 0 {
        assert(outputs =~= Seq::empty());
        crate::filters::lemma_filter_empty(wanted);
    } else {
        let front = outputs.drop_last();
        let last = outputs.last();
        let kept = outputs_with(front, OutputFeatures::Coinbase);
        law_coinbase_outputs_add_up(front);
        lemma_filter_last(outputs, wanted);
        assert forall|i: int| 0 <= i < front.len() implies front[i] == #[trigger] outputs[i] by {}
        assert(outputs[outputs.len() - 1] == last);
        if last.features == OutputFeatures::Coinbase {
            let commits = output_commits(kept);
            assert(output_commits(kept.push(last)) =~= commits.push(last.commit));
            lemma_total_push(commits, last.commit, |c: Seq<u8>| crate::secp::log_value(c));
            assert(all_points(commits.push(last.commit)) <==> all_points(commits) && log_of(
                last.commit,
            ) is Some) by {
                lemma_points_push(commits, last.commit);
            }
        }
    }
}

proof fn lemma_points_push(commits: Seq<Seq<u8>>, c: Seq<u8>)
    ensures
        all_points(commits.push(c)) <==> all_points(commits) && log_of(c) is Some,
{
    let longer = commits.push(c);
    assert(longer[commits.len() as int] == c);
    if all_points(longer) {
        assert forall|i: int| 0 <= i < commits.len() implies log_of(#[trigger] commits[i]) is Some by {
            assert(longer[i] == commits[i]);
        }
    }
}

/// The excess of a commitment to a value is what is left once the value is taken away, whatever
/// the value.
pub proof fn law_excess(commit: Seq<u8>, value: u64)
    ensures
        ({
            let over = point_bytes(((value * value_log(1)) % curve_order() as int) as nat);
            let left = (log_of(commit)->0 - log_of(over)->0) % curve_order() as int;
            &&& log_of(commit) is None || log_of(over) is None ==> excess_of(commit, value)
                == Err::<Seq<u8>, SecpError>(SecpError::InvalidCommit)
            &&& log_of(commit) is Some && log_of(over) is Some && left == 0 ==> excess_of(
                commit,
                value,
            ) == Err::<Seq<u8>, SecpError>(SecpError::IncorrectCommitSum)
            &&& log_of(commit) is Some && log_of(over) is Some && left != 0 ==> excess_of(
                commit,
                value,
            ) == Ok::<Seq<u8>, SecpError>(point_bytes(left as nat))
        }),
{
    let over = point_bytes(((value * value_log(1)) % curve_order() as int) as nat);
    let log = |c: Seq<u8>| crate::secp::log_value(c);
    crate::totals::lemma_total_of_one(commit, log);
    crate::totals::lemma_total_of_one(over, log);
    assert(seq![commit][0] == commit);
    assert(seq![over][0] == over);
    assert(all_points(seq![commit]) <==> log_of(commit) is Some);
    assert(all_points(seq![over]) <==> log_of(over) is Some);
}

proof fn lemma_keys_add_up(offsets: Seq<Seq<u8>>)
    ensures
        ({
            let keys = offsets.filter(|offset: Seq<u8>| summable(offset));
            &&& key_total(keys) == offsets.fold_left(
                0int,
                (|sum: int, x: Seq<u8>|
                    if 0 < be_value(x) < curve_order() {
                        sum + be_value(x)
                    } else {
                        sum
                    }),
            )
            &&& keys.len() > 0 <==> exists|i: int|
                0 <= i < offsets.len() && 0 < be_value(#[trigger] offsets[i]) < curve_order()
        }),
    decreases offsets.len(),
{
    let counts = |offset: Seq<u8>| summable(offset);
    lemma_value_of_zeros(32);
    if offsets.len() == 0 {
        assert(offsets =~= Seq::empty());
        crate::filters::lemma_filter_empty(counts);
    } else {
        let front = offsets.drop_last();
        let last = offsets.last();
        lemma_keys_add_up(front);
        lemma_filter_last(offsets, counts);
        assert forall|i: int| 0 <= i < front.len() implies front[i] == #[trigger] offsets[i] by {}
        assert(offsets[offsets.len() - 1] == last);
        lemma_total_push(front.filter(counts), last, |key: Seq<u8>| be_value(key) as int);
    }
}

/// Of offsets those are summed that spell a number above zero and below the order of the curve,
/// wherever they stand, and modulo that order. Where there is none, the sum is zero; where the sum
/// of some is zero, there is none.
pub proof fn law_offsets_add_up(offsets: Seq<Seq<u8>>)
    ensures
        ({
            let sum = offsets.fold_left(
                0int,
                (|sum: int, x: Seq<u8>|
                    if 0 < be_value(x) < curve_order() {
                        sum + be_value(x)
                    } else {
                        sum
                    }),
            ) % curve_order() as int;
            let some = exists|i: int|
                0 <= i < offsets.len() && 0 < be_value(#[trigger] offsets[i]) < curve_order();
            &&& !some ==> offset_sum_of(offsets) == Ok::<Seq<u8>, SecpError>(
                Seq::new(32, |i: int| 0u8),
            )
            &&& some && sum == 0 ==> offset_sum_of(offsets) == Err::<Seq<u8>, SecpError>(
                SecpError::InvalidSecretKey,
            )
            &&& some && sum != 0 ==> offset_sum_of(offsets) is Ok
            &&& offset_sum_of(offsets) matches Ok(offset) ==> offset.len() == 32 && be_value(offset)
                == sum
        }),
{
    lemma_keys_add_up(offsets);
    let keys = offsets.filter(|offset: Seq<u8>| summable(offset));
    lemma_value_of_zeros(32);
    crate::secp::lemma_blind_sum(keys);
    crate::ser::lemma_be_bytes_len((key_total(keys) % curve_order() as int) as nat, 32);
    if keys.len() == 0 {
        assert(key_total(keys) == 0);
    }
}

/// The offsets of candidates are those of their transactions, in the same places.
pub proof fn law_candidate_offsets_add_up(txs: Seq<CandidateData>)
    ensures
        offsets_of(txs).fold_left(
            0int,
            (|sum: int, x: Seq<u8>|
                if 0 < be_value(x) < curve_order() {
                    sum + be_value(x)
                } else {
                    sum
                }),
        ) == txs.fold_left(
            0int,
            (|sum: int, x: CandidateData|
                if 0 < be_value(x.tx.offset) < curve_order() {
                    sum + be_value(x.tx.offset)
                } else {
                    sum
                }),
        ),
        (exists|i: int|
            0 <= i < offsets_of(txs).len() && 0 < be_value(#[trigger] offsets_of(txs)[i])
                < curve_order()) <==> exists|i: int|
            0 <= i < txs.len() && 0 < be_value((#[trigger] txs[i]).tx.offset) < curve_order(),
    decreases txs.len(),
{
    if txs.len() > 0 {
        law_candidate_offsets_add_up(txs.drop_last());
        assert(offsets_of(txs).drop_last() =~= offsets_of(txs.drop_last()));
    }
    assert forall|i: int| 0 <= i < txs.len() implies offsets_of(txs)[i] == (
    #[trigger] txs[i]).tx.offset by {}
    if exists|i: int|
        0 <= i < txs.len() && 0 < be_value((#[trigger] txs[i]).tx.offset) < curve_order() {
        let i = choose|i: int|
            0 <= i < txs.len() && 0 < be_value((#[trigger] txs[i]).tx.offset) < curve_order();
        assert(0 < be_value(offsets_of(txs)[i]) < curve_order());
    }
}

/// The excesses of the coinbase kernels of a list are summed one by one, and no others.
pub proof fn law_coinbase_excesses_add_up(kernels: Seq<KernelData>)
    ensures
        log_total(excesses(kernels_with(kernels, KernelFeatures::Coinbase))) == kernels.fold_left(
            0int,
            |sum: int, x: KernelData|
                if x.features == KernelFeatures::Coinbase {
                    sum + match log_of(x.excess) {
                        Some(log) => log as int,
                        None => 0,
                    }
                } else {
                    sum
                },
        ),
        all_points(excesses(kernels_with(kernels, KernelFeatures::Coinbase))) <==> forall|i: int|
            0 <= i < kernels.len() && (#[trigger] kernels[i]).features == KernelFeatures::Coinbase
                ==> log_of(kernels[i].excess) is Some,
    decreases kernels.len(),
{
    let wanted = |k: KernelData| k.features == KernelFeatures::Coinbase;
    if kernels.len() == 0 {
        assert(kernels =~= Seq::empty());
        crate::filters::lemma_filter_empty(wanted);
    } else {
        let front = kernels.drop_last();
        let last = kernels.last();
        let kept = kernels_with(front, KernelFeatures::Coinbase);
        law_coinbase_excesses_add_up(front);
        lemma_filter_last(kernels, wanted);
        assert forall|i: int| 0 <= i < front.len() implies front[i] == #[trigger] kernels[i] by {}
        assert(kernels[kernels.len() - 1] == last);
        if last.features == KernelFeatures::Coinbase {
            let commits = excesses(kept);
            assert(excesses(kept.push(last)) =~= commits.push(last.excess));
            lemma_total_push(commits, last.excess, |c: Seq<u8>| crate::secp::log_value(c));
            lemma_points_push(commits, last.excess);
        }
    }
}

} // verus!
