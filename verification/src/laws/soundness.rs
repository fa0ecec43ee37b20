//! A block that is built from what is sound is valid.

use vstd::prelude::*;
use crate::block::{cut, cut_through_of, input_commits, output_commits, outputs_left, BlockData};
use crate::consensus::{reward_of, ChainParams};
use crate::error::Error;
use crate::filters::{lemma_contains_multiset, lemma_filter_contains, lemma_no_duplicates_multiset};
use crate::laws::building::{
    law_built_is_in_order, law_built_obeys_kernel_rules, law_built_pays_the_fees,
    law_reward_is_right,
};
use crate::laws::cutting::{
    cut_is_on_the_curve, distinct_commits, law_cut_through_keeps_balance, lemma_input_logs,
    lemma_output_logs, on_the_curve,
};
use crate::laws::validity::lemma_even_fees;
use crate::mining::{
    balances, candidate_fees, counted, excess_of, gap, gathered, is_sound, is_value_and_excess,
    lemma_fee_sum_of_both, offsets_of, transactions_of, valid_build, BuildData,
};
use crate::order::{lemma_map_keeps_multisets, lemma_sorted_form};
use crate::secp::{
    all_points, curve_order, is_own_sum, key_total, lemma_blind_sum, log_of, log_total, log_value,
    offset_sum_of, range_proof_check, summable, value_log, SecpError,
};
use crate::ser::{be_value, lemma_value_of_zeros};
use crate::totals::{
    lemma_total_filter, lemma_total_mapped, lemma_total_multiset, lemma_total_of_both,
    lemma_total_push, total,
};
use crate::transaction::{
    all_inputs, all_kernels, all_outputs, fee_sum, kernel_check, Input, InputData, KernelData,
    KernelFeatures, Output, OutputData, OutputFeatures, TransactionData, TxKernel,
};
use crate::validate::{
    block_check, excesses, first_bad_proof, first_bad_signature, io_log, kernel_fault, kernel_log,
    offset_check,
};

verus! {

broadcast use vstd::seq_lib::group_to_multiset_ensures;

proof fn lemma_excess_logs(kernels: Seq<KernelData>)
    ensures
        log_total(excesses(kernels)) == total(kernels, |k: KernelData| log_value(k.excess)),
{
    let of_kernel = |k: KernelData| k.excess;
    let log = |c: Seq<u8>| log_value(c);
    assert(excesses(kernels) =~= kernels.map_values(of_kernel));
    lemma_total_mapped(kernels, of_kernel, log);
    assert((|k: KernelData| log(of_kernel(k))) =~= (|k: KernelData| log_value(k.excess)));
}

/// The sum of offsets is congruent to the sum of what each of them adds, and is of use.
proof fn lemma_offset_sum(offsets: Seq<Seq<u8>>)
    ensures
        offset_sum_of(offsets) matches Ok(sum) ==> {
            &&& (be_value(sum) - total(offsets, |o: Seq<u8>| counted(o))) % curve_order() as int
                == 0
            &&& offset_check(sum) is Ok
        },
{
    let counts = |offset: Seq<u8>| summable(offset);
    let number = |key: Seq<u8>| be_value(key) as int;
    let keys = offsets.filter(counts);
    lemma_total_filter(offsets, counts, number);
    assert((|o: Seq<u8>| if counts(o) { number(o) } else { 0 }) =~= (|o: Seq<u8>| counted(o)));
    assert(key_total(keys) == total(offsets, |o: Seq<u8>| counted(o)));
    lemma_blind_sum(keys);
    lemma_value_of_zeros(32);
}

/// The gap of several transactions together.
spec fn joint_gap(txs: Seq<TransactionData>) -> int {
    log_total(output_commits(all_outputs(txs))) + fee_sum(all_kernels(txs)) * value_log(1)
        - log_total(input_commits(all_inputs(txs))) - log_total(excesses(all_kernels(txs)))
        - total(txs, |tx: TransactionData| counted(tx.offset))
}

proof fn lemma_joint_gap_grows(txs: Seq<TransactionData>)
    requires
        txs.len() > 0,
    ensures
        joint_gap(txs) == joint_gap(txs.drop_last()) + gap(txs.last()),
{
    let front = txs.drop_last();
    let tx = txs.last();
    let log = |c: Seq<u8>| log_value(c);
    assert(output_commits(all_outputs(front) + tx.outputs) =~= output_commits(all_outputs(front))
        + output_commits(tx.outputs));
    assert(input_commits(all_inputs(front) + tx.inputs) =~= input_commits(all_inputs(front))
        + input_commits(tx.inputs));
    assert(excesses(all_kernels(front) + tx.kernels) =~= excesses(all_kernels(front)) + excesses(
        tx.kernels,
    ));
    lemma_total_of_both(output_commits(all_outputs(front)), output_commits(tx.outputs), log);
    lemma_total_of_both(input_commits(all_inputs(front)), input_commits(tx.inputs), log);
    lemma_total_of_both(excesses(all_kernels(front)), excesses(tx.kernels), log);
    lemma_fee_sum_of_both(all_kernels(front), tx.kernels);
    let (f, g, u) = (
        fee_sum(all_kernels(front)) as int,
        fee_sum(tx.kernels) as int,
        value_log(1) as int,
    );
    assert((f + g) * u == f * u + g * u) by (nonlinear_arith);
}

/// Transactions that balance balance together.
proof fn lemma_joint_gap(txs: Seq<TransactionData>)
    requires
        forall|i: int| 0 <= i < txs.len() ==> balances(#[trigger] txs[i]),
    ensures
        joint_gap(txs) % curve_order() as int == 0,
    decreases txs.len(),
{
    let log = |c: Seq<u8>| log_value(c);
    if txs.len() == 0 {
        assert(log_total(output_commits(all_outputs(txs))) == 0);
        assert(log_total(input_commits(all_inputs(txs))) == 0);
        assert(log_total(excesses(all_kernels(txs))) == 0);
        assert(0 * value_log(1) == 0) by (nonlinear_arith);
    } else {
        let front = txs.drop_last();
        assert forall|i: int| 0 <= i < front.len() implies balances(#[trigger] front[i]) by {
            assert(front[i] == txs[i]);
        }
        lemma_joint_gap(front);
        lemma_joint_gap_grows(txs);
        assert(balances(txs[txs.len() - 1]));
    }
}

/// The terms of a block sum to zero.
proof fn lemma_terms(gap: int, fees: nat, subsidy: int, u: int, out: int, excess: int, rest: int)
    requires
        fees % 2 == 0,
        gap % curve_order() as int == 0,
        (out - (subsidy + fees / 2) * u - excess) % curve_order() as int == 0,
        rest % curve_order() as int == 0,
    ensures
        (gap - fees * u + out - excess + (fees / 2 - subsidy) * u - rest) % curve_order() as int
            == 0,
{
    let h = (fees / 2) as int;
    assert(fees == 2 * h);
    assert((subsidy + h) * u + (h - subsidy) * u == (2 * h) * u) by (nonlinear_arith);
    assert(gap - fees * u + out - excess + (fees / 2 - subsidy) * u - rest == gap + (out - (subsidy
        + fees / 2) * u - excess) - rest);
}

/// The sums of a block before cut-through are congruent.
proof fn lemma_gathered_balances(
    params: ChainParams,
    d: BuildData,
    offset: Seq<u8>,
    timestamp: i64,
)
    requires
        valid_build(d.txs, d.reward_out, d.reward_kern),
        d.reward_kern.fee == 0,
        candidate_fees(d.txs) % 2 == 0,
        forall|i: int|
            0 <= i < transactions_of(d.txs).len() ==> balances(
                #[trigger] transactions_of(d.txs)[i],
            ),
        is_value_and_excess(
            d.reward_out.commit,
            reward_of(params, candidate_fees(d.txs)),
            d.reward_kern.excess,
        ),
        offset_sum_of(offsets_of(d.txs)) == Ok::<Seq<u8>, SecpError>(offset),
    ensures
        ({
            let g = gathered(params.proof_size as nat, d, offset, timestamp);
            (io_log(params, g) - kernel_log(g)) % curve_order() as int == 0
        }),
{
    let txs = transactions_of(d.txs);
    let g = gathered(params.proof_size as nat, d, offset, timestamp);
    let made = all_outputs(txs).push(d.reward_out);
    let proved = all_kernels(txs).push(d.reward_kern);
    let log_in = |x: InputData| log_value(x.commit);
    let log_out = |x: OutputData| log_value(x.commit);
    let log_kern = |k: KernelData| log_value(k.excess);
    lemma_sorted_form::<Input>(all_inputs(txs));
    lemma_sorted_form::<Output>(made);
    lemma_sorted_form::<TxKernel>(proved);
    lemma_total_multiset(g.inputs, all_inputs(txs), log_in);
    lemma_total_multiset(g.outputs, made, log_out);
    lemma_total_multiset(g.kernels, proved, log_kern);
    lemma_total_push(all_outputs(txs), d.reward_out, log_out);
    lemma_total_push(all_kernels(txs), d.reward_kern, log_kern);
    lemma_input_logs(g.inputs);
    lemma_input_logs(all_inputs(txs));
    lemma_output_logs(g.outputs);
    lemma_output_logs(all_outputs(txs));
    lemma_excess_logs(g.kernels);
    lemma_excess_logs(all_kernels(txs));
    law_built_pays_the_fees(params.proof_size as nat, d, offset, timestamp);
    lemma_joint_gap(txs);
    lemma_offset_sum(offsets_of(d.txs));
    let of_offset = |tx: TransactionData| tx.offset;
    let adds = |o: Seq<u8>| counted(o);
    assert(offsets_of(d.txs) =~= txs.map_values(of_offset));
    lemma_total_mapped(txs, of_offset, adds);
    assert((|tx: TransactionData| adds(of_offset(tx))) =~= (|tx: TransactionData| counted(
        tx.offset,
    )));
    lemma_terms(
        joint_gap(txs),
        candidate_fees(d.txs),
        params.subsidy as int,
        value_log(1) as int,
        log_value(d.reward_out.commit),
        log_value(d.reward_kern.excess),
        be_value(offset) - total(offsets_of(d.txs), adds),
    );
}

/// All commitments of a block before cut-through are points of the curve, no two of inputs and
/// no two of outputs being the same.
proof fn lemma_gathered_commits(
    params: ChainParams,
    d: BuildData,
    offset: Seq<u8>,
    timestamp: i64,
    b: BlockData,
)
    requires
        valid_build(d.txs, d.reward_out, d.reward_kern),
        is_sound(params, d, b),
        log_of(d.reward_out.commit) is Some,
        log_of(d.reward_kern.excess) is Some,
    ensures
        ({
            let g = gathered(params.proof_size as nat, d, offset, timestamp);
            &&& distinct_commits(g)
            &&& on_the_curve(g)
            &&& all_points(excesses(g.kernels))
        }),
{
    let txs = transactions_of(d.txs);
    let g = gathered(params.proof_size as nat, d, offset, timestamp);
    let made = all_outputs(txs).push(d.reward_out);
    let proved = all_kernels(txs).push(d.reward_kern);
    let of_input = |x: InputData| x.commit;
    let of_output = |x: OutputData| x.commit;
    lemma_sorted_form::<Input>(all_inputs(txs));
    lemma_sorted_form::<Output>(made);
    lemma_sorted_form::<TxKernel>(proved);
    assert(input_commits(all_inputs(txs)) =~= all_inputs(txs).map_values(of_input));
    assert(input_commits(g.inputs) =~= g.inputs.map_values(of_input));
    assert(output_commits(made) =~= made.map_values(of_output));
    assert(output_commits(g.outputs) =~= g.outputs.map_values(of_output));
    lemma_map_keeps_multisets(all_inputs(txs), g.inputs, of_input);
    lemma_map_keeps_multisets(made, g.outputs, of_output);
    lemma_no_duplicates_multiset(input_commits(all_inputs(txs)), input_commits(g.inputs));
    lemma_no_duplicates_multiset(output_commits(made), output_commits(g.outputs));
    assert forall|i: int| 0 <= i < g.inputs.len() implies log_of(
        #[trigger] input_commits(g.inputs)[i],
    ) is Some by {
        assert(g.inputs.contains(g.inputs[i]));
        lemma_contains_multiset(g.inputs, all_inputs(txs), g.inputs[i]);
        let k = choose|k: int| 0 <= k < all_inputs(txs).len() && all_inputs(txs)[k] == g.inputs[i];
        assert(log_of(input_commits(all_inputs(txs))[k]) is Some);
    }
    assert forall|i: int| 0 <= i < g.outputs.len() implies log_of(
        #[trigger] output_commits(g.outputs)[i],
    ) is Some by {
        assert(g.outputs.contains(g.outputs[i]));
        lemma_contains_multiset(g.outputs, made, g.outputs[i]);
        let k = choose|k: int| 0 <= k < made.len() && made[k] == g.outputs[i];
        if k < all_outputs(txs).len() {
            assert(log_of(output_commits(all_outputs(txs))[k]) is Some);
        }
    }
    assert forall|i: int| 0 <= i < g.kernels.len() implies log_of(
        #[trigger] excesses(g.kernels)[i],
    ) is Some by {
        assert(g.kernels.contains(g.kernels[i]));
        lemma_contains_multiset(g.kernels, proved, g.kernels[i]);
        let k = choose|k: int| 0 <= k < proved.len() && proved[k] == g.kernels[i];
        if k < all_kernels(txs).len() {
            assert(log_of(excesses(all_kernels(txs))[k]) is Some);
        }
    }
}

/// Where no range proof fails, none is the first to.
pub proof fn lemma_all_proofs_hold(outputs: Seq<OutputData>)
    requires
        forall|i: int|
            0 <= i < outputs.len() ==> range_proof_check(
                (#[trigger] outputs[i]).commit,
                outputs[i].proof,
            ) is Ok,
    ensures
        first_bad_proof(outputs) is None,
    decreases outputs.len(),
{
    if outputs.len() > 0 {
        let front = outputs.drop_last();
        assert forall|i: int| 0 <= i < front.len() implies range_proof_check(
            (#[trigger] front[i]).commit,
            front[i].proof,
        ) is Ok by {
            assert(front[i] == outputs[i]);
        }
        lemma_all_proofs_hold(front);
        assert(outputs[outputs.len() - 1] == outputs.last());
    }
}

/// Where no signature fails, none is the first to.
pub proof fn lemma_all_signatures_hold(kernels: Seq<KernelData>)
    requires
        forall|i: int| 0 <= i < kernels.len() ==> kernel_check(#[trigger] kernels[i]) is Ok,
    ensures
        first_bad_signature(kernels) is None,
    decreases kernels.len(),
{
    if kernels.len() > 0 {
        let front = kernels.drop_last();
        assert forall|i: int| 0 <= i < front.len() implies kernel_check(
            #[trigger] front[i],
        ) is Ok by {
            assert(front[i] == kernels[i]);
        }
        lemma_all_signatures_hold(front);
        assert(kernels[kernels.len() - 1] == kernels.last());
    }
}

/// The range proofs and signatures of a block that was built are right where those of what it
/// was built from are.
proof fn lemma_built_checks(
    params: ChainParams,
    d: BuildData,
    offset: Seq<u8>,
    timestamp: i64,
    b: BlockData,
)
    requires
        valid_build(d.txs, d.reward_out, d.reward_kern),
        is_sound(params, d, b),
        b == cut_through_of(gathered(params.proof_size as nat, d, offset, timestamp)),
    ensures
        first_bad_proof(b.outputs) is None,
        first_bad_signature(b.kernels) is None,
{
    let txs = transactions_of(d.txs);
    let g = gathered(params.proof_size as nat, d, offset, timestamp);
    let made = all_outputs(txs).push(d.reward_out);
    let proved = all_kernels(txs).push(d.reward_kern);
    lemma_sorted_form::<Output>(made);
    lemma_sorted_form::<TxKernel>(proved);
    assert forall|i: int| 0 <= i < b.outputs.len() implies range_proof_check(
        (#[trigger] b.outputs[i]).commit,
        b.outputs[i].proof,
    ) is Ok by {
        let o = b.outputs[i];
        assert(b.outputs.contains(o));
        lemma_filter_contains(g.outputs, outputs_left(g), o);
        lemma_contains_multiset(g.outputs, made, o);
        let k = choose|k: int| 0 <= k < made.len() && made[k] == o;
        assert(range_proof_check(made[k].commit, made[k].proof) is Ok);
    }
    assert forall|i: int| 0 <= i < b.kernels.len() implies kernel_check(
        #[trigger] b.kernels[i],
    ) is Ok by {
        assert(b.kernels.contains(b.kernels[i]));
        lemma_contains_multiset(b.kernels, proved, b.kernels[i]);
        let k = choose|k: int| 0 <= k < proved.len() && proved[k] == b.kernels[i];
        assert(kernel_check(proved[k]) is Ok);
    }
    lemma_all_proofs_hold(b.outputs);
    lemma_all_signatures_hold(b.kernels);
}

proof fn lemma_cut_is_on_the_curve(g: BlockData)
    requires
        on_the_curve(g),
    ensures
        cut_is_on_the_curve(g),
{
    assert forall|commit: Seq<u8>| #[trigger] cut(g, commit) implies log_of(commit) is Some by {
        let k = choose|k: int|
            0 <= k < g.inputs.len() && input_commits(g.inputs)[k] == commit;
        assert(log_of(input_commits(g.inputs)[k]) is Some);
    }
}

/// A block that was built, with a reward for the fees of its transactions, is valid where what
/// it was built from is sound, also where one transaction spends an output of another.
pub proof fn law_built_block_is_valid(
    params: ChainParams,
    d: BuildData,
    offset: Seq<u8>,
    timestamp: i64,
    b: BlockData,
)
    requires
        valid_build(d.txs, d.reward_out, d.reward_kern),
        b == cut_through_of(gathered(params.proof_size as nat, d, offset, timestamp)),
        offset_sum_of(offsets_of(d.txs)) == Ok::<Seq<u8>, SecpError>(offset),
        d.prev.height < u64::MAX,
        d.reward_out.features == OutputFeatures::Coinbase,
        d.reward_kern.features == KernelFeatures::Coinbase,
        d.reward_kern.fee == 0,
        d.reward_kern.lock_height == d.prev.height + 1,
        excess_of(d.reward_out.commit, reward_of(params, candidate_fees(d.txs)) as u64) == Ok::<
            Seq<u8>,
            SecpError,
        >(d.reward_kern.excess),
        is_own_sum(d.reward_kern.excess),
        is_value_and_excess(
            d.reward_out.commit,
            reward_of(params, candidate_fees(d.txs)),
            d.reward_kern.excess,
        ),
        is_sound(params, d, b),
    ensures
        block_check(params, b) == Ok::<(), Error>(()),
{
    let size = params.proof_size as nat;
    let g = gathered(size, d, offset, timestamp);
    let kernels = all_kernels(transactions_of(d.txs));
    assert forall|i: int| 0 <= i < kernels.len() implies (#[trigger] kernels[i]).fee % 2 == 0 by {
        assert(kernel_fault(kernels[i], (d.prev.height + 1) as u64) is None);
    }
    lemma_even_fees(kernels);
    law_built_is_in_order(size, d, offset, timestamp);
    law_reward_is_right(params, d, offset, timestamp);
    law_built_obeys_kernel_rules(size, d, offset, timestamp);
    lemma_built_checks(params, d, offset, timestamp, b);
    lemma_gathered_commits(params, d, offset, timestamp, b);
    lemma_gathered_balances(params, d, offset, timestamp);
    lemma_cut_is_on_the_curve(g);
    law_cut_through_keeps_balance(params, g);
    lemma_offset_sum(offsets_of(d.txs));
    assert(kernel_log(b) == kernel_log(g));
    assert(io_log(params, b) % curve_order() as int == kernel_log(b) % curve_order() as int);
}

} // verus!
