//! What cut-through changes and what it keeps.

use vstd::prelude::*;
use crate::block::{
    cut, cut_through_of, input_commits, inputs_left, output_commits, outputs_left, outputs_with,
    BlockData,
};
use crate::consensus::{overage_of, ChainParams};
use crate::filters::{
    lemma_filter_agree, lemma_filter_all, lemma_filter_contains, lemma_filter_distinct,
    lemma_filter_sorted, lemma_filter_twice, lemma_same_multiset,
};
use crate::header::hashed_header;
use crate::laws::soundness::lemma_all_proofs_hold;
use crate::laws::validity::lemma_no_bad_proof;
use crate::secp::{all_points, commit_sum_of, log_of, log_total, log_value, range_proof_check};
use crate::totals::{lemma_total_mapped, lemma_total_multiset, lemma_total_parts, total};
use crate::transaction::{fee_sum, Input, InputData, Output, OutputData, OutputFeatures};
use crate::validate::{all_sorted, first_bad_proof, io_log, io_sum_of};

verus! {

proof fn lemma_cut_by_index(b: BlockData, commit: Seq<u8>)
    ensures
        cut(b, commit) <==> (exists|i: int|
            0 <= i < b.inputs.len() && (#[trigger] b.inputs[i]).commit == commit) && (exists|j: int|
            0 <= j < b.outputs.len() && (#[trigger] b.outputs[j]).features == OutputFeatures::Plain
                && b.outputs[j].commit == commit),
{
    let plain = |o: OutputData| o.features == OutputFeatures::Plain;
    let made = b.outputs.filter(plain);
    if cut(b, commit) {
        let i = choose|i: int| 0 <= i < b.inputs.len() && input_commits(b.inputs)[i] == commit;
        assert(b.inputs[i].commit == commit);
        let k = choose|k: int| 0 <= k < made.len() && output_commits(made)[k] == commit;
        assert(made.contains(made[k]));
        lemma_filter_contains(b.outputs, plain, made[k]);
        let j = choose|j: int| 0 <= j < b.outputs.len() && b.outputs[j] == made[k];
        assert(b.outputs[j].commit == commit);
    }
    if (exists|i: int| 0 <= i < b.inputs.len() && (#[trigger] b.inputs[i]).commit == commit) && (
    exists|j: int|
        0 <= j < b.outputs.len() && (#[trigger] b.outputs[j]).features == OutputFeatures::Plain
            && b.outputs[j].commit == commit) {
        let i = choose|i: int| 0 <= i < b.inputs.len() && (#[trigger] b.inputs[i]).commit == commit;
        assert(input_commits(b.inputs)[i] == commit);
        let j = choose|j: int|
            0 <= j < b.outputs.len() && (#[trigger] b.outputs[j]).features == OutputFeatures::Plain
                && b.outputs[j].commit == commit;
        assert(b.outputs.contains(b.outputs[j]));
        lemma_filter_contains(b.outputs, plain, b.outputs[j]);
        let k = choose|k: int| 0 <= k < made.len() && made[k] == b.outputs[j];
        assert(output_commits(made)[k] == commit);
    }
}

/// Of whatever size a block is, cut-through takes an input just where some output that is not
/// that of a reward has its commitment, and such an output just where some input has its
/// commitment. The items that are left keep their order, and no two of them match.
pub proof fn law_cut_through_matches_by_commitment(b: BlockData, t: BlockData)
    requires
        t == cut_through_of(b),
    ensures
        t.header == b.header,
        t.kernels == b.kernels,
        t.inputs == b.inputs.filter(
            |x: InputData|
                !exists|j: int|
                    0 <= j < b.outputs.len() && (#[trigger] b.outputs[j]).features
                        == OutputFeatures::Plain && b.outputs[j].commit == x.commit,
        ),
        t.outputs == b.outputs.filter(
            |x: OutputData|
                x.features != OutputFeatures::Plain || !exists|i: int|
                    0 <= i < b.inputs.len() && (#[trigger] b.inputs[i]).commit == x.commit,
        ),
        forall|i: int, j: int|
            0 <= i < t.inputs.len() && 0 <= j < t.outputs.len() && (
            #[trigger] t.outputs[j]).features == OutputFeatures::Plain ==> (
            #[trigger] t.inputs[i]).commit != t.outputs[j].commit,
        forall|i: int|
            0 <= i < b.inputs.len() ==> (!t.inputs.contains(#[trigger] b.inputs[i]) <==> exists|
                j: int,
            |
                0 <= j < b.outputs.len() && (#[trigger] b.outputs[j]).features
                    == OutputFeatures::Plain && b.outputs[j].commit == b.inputs[i].commit),
        forall|j: int|
            0 <= j < b.outputs.len() && (#[trigger] b.outputs[j]).features
                == OutputFeatures::Plain ==> (!t.outputs.contains(b.outputs[j])
                <==> exists|i: int|
                0 <= i < b.inputs.len() && (#[trigger] b.inputs[i]).commit
                    == b.outputs[j].commit),
        forall|j: int|
            0 <= j < b.outputs.len() && (#[trigger] b.outputs[j]).features
                == OutputFeatures::Coinbase ==> t.outputs.contains(b.outputs[j]),
{
    let spent_here = |x: InputData|
        !exists|j: int|
            0 <= j < b.outputs.len() && (#[trigger] b.outputs[j]).features == OutputFeatures::Plain
                && b.outputs[j].commit == x.commit;
    let unspent_here = |x: OutputData|
        x.features != OutputFeatures::Plain || !exists|i: int|
            0 <= i < b.inputs.len() && (#[trigger] b.inputs[i]).commit == x.commit;
    assert forall|i: int| 0 <= i < b.inputs.len() implies inputs_left(b)(#[trigger] b.inputs[i])
        == spent_here(b.inputs[i]) by {
        lemma_cut_by_index(b, b.inputs[i].commit);
    }
    lemma_filter_agree(b.inputs, inputs_left(b), spent_here);
    assert forall|j: int| 0 <= j < b.outputs.len() implies outputs_left(b)(#[trigger] b.outputs[j])
        == unspent_here(b.outputs[j]) by {
        lemma_cut_by_index(b, b.outputs[j].commit);
    }
    lemma_filter_agree(b.outputs, outputs_left(b), unspent_here);
    assert forall|i: int| 0 <= i < b.inputs.len() implies (t.inputs.contains(
        #[trigger] b.inputs[i],
    ) <==> spent_here(b.inputs[i])) by {
        assert(b.inputs.contains(b.inputs[i]));
        lemma_filter_contains(b.inputs, spent_here, b.inputs[i]);
    }
    assert forall|j: int| 0 <= j < b.outputs.len() implies (t.outputs.contains(
        #[trigger] b.outputs[j],
    ) <==> unspent_here(b.outputs[j])) by {
        assert(b.outputs.contains(b.outputs[j]));
        lemma_filter_contains(b.outputs, unspent_here, b.outputs[j]);
    }
    assert forall|i: int, j: int|
        0 <= i < t.inputs.len() && 0 <= j < t.outputs.len() && (#[trigger] t.outputs[j]).features
            == OutputFeatures::Plain implies (#[trigger] t.inputs[i]).commit
        != t.outputs[j].commit by {
        assert(t.inputs.contains(t.inputs[i]));
        assert(t.outputs.contains(t.outputs[j]));
        lemma_filter_contains(b.inputs, spent_here, t.inputs[i]);
        lemma_filter_contains(b.outputs, unspent_here, t.outputs[j]);
        let k = choose|k: int| 0 <= k < b.inputs.len() && b.inputs[k] == t.inputs[i];
        assert(b.inputs[k].commit == t.inputs[i].commit);
    }
}

/// Cut-through leaves no output to be spent within the block, other than those of rewards.
pub proof fn law_cut_through_is_complete(b: BlockData, commit: Seq<u8>)
    ensures
        !cut(cut_through_of(b), commit),
{
    let t = cut_through_of(b);
    if cut(t, commit) {
        lemma_input_commits_left(b, commit);
        lemma_plain_commits_left(b, commit);
    }
}

proof fn lemma_input_commits_left(b: BlockData, commit: Seq<u8>)
    ensures
        input_commits(cut_through_of(b).inputs).contains(commit) <==> input_commits(
            b.inputs,
        ).contains(commit) && !cut(b, commit),
{
    let left = b.inputs.filter(inputs_left(b));
    if input_commits(left).contains(commit) {
        let i = choose|i: int| 0 <= i < left.len() && input_commits(left)[i] == commit;
        assert(left.contains(left[i]));
        lemma_filter_contains(b.inputs, inputs_left(b), left[i]);
        let k = choose|k: int| 0 <= k < b.inputs.len() && b.inputs[k] == left[i];
        assert(input_commits(b.inputs)[k] == commit);
    }
    if input_commits(b.inputs).contains(commit) && !cut(b, commit) {
        let k = choose|k: int| 0 <= k < b.inputs.len() && input_commits(b.inputs)[k] == commit;
        assert(b.inputs.contains(b.inputs[k]));
        lemma_filter_contains(b.inputs, inputs_left(b), b.inputs[k]);
        let i = choose|i: int| 0 <= i < left.len() && left[i] == b.inputs[k];
        assert(input_commits(left)[i] == commit);
    }
}

proof fn lemma_plain_commits_left(b: BlockData, commit: Seq<u8>)
    ensures
        output_commits(
            outputs_with(cut_through_of(b).outputs, OutputFeatures::Plain),
        ).contains(commit) <==> output_commits(
            outputs_with(b.outputs, OutputFeatures::Plain),
        ).contains(commit) && !cut(b, commit),
{
    let plain = |o: OutputData| o.features == OutputFeatures::Plain;
    let before = b.outputs.filter(plain);
    let left = b.outputs.filter(outputs_left(b));
    let after = left.filter(plain);
    if output_commits(after).contains(commit) {
        let i = choose|i: int| 0 <= i < after.len() && output_commits(after)[i] == commit;
        let o = after[i];
        assert(after.contains(o));
        lemma_filter_contains(left, plain, o);
        lemma_filter_contains(b.outputs, outputs_left(b), o);
        lemma_filter_contains(b.outputs, plain, o);
        let k = choose|k: int| 0 <= k < before.len() && before[k] == o;
        assert(output_commits(before)[k] == commit);
    }
    if output_commits(before).contains(commit) && !cut(b, commit) {
        let k = choose|k: int| 0 <= k < before.len() && output_commits(before)[k] == commit;
        let o = before[k];
        assert(before.contains(o));
        lemma_filter_contains(b.outputs, plain, o);
        lemma_filter_contains(b.outputs, outputs_left(b), o);
        lemma_filter_contains(left, plain, o);
        let i = choose|i: int| 0 <= i < after.len() && after[i] == o;
        assert(output_commits(after)[i] == commit);
    }
}

/// Cut-through takes the same commitments from the inputs as from the outputs that are not
/// those of rewards.
pub proof fn law_cut_through_takes_pairs(b: BlockData, commit: Seq<u8>)
    ensures
        input_commits(b.inputs).contains(commit) && !input_commits(
            cut_through_of(b).inputs,
        ).contains(commit) <==> cut(b, commit),
        output_commits(outputs_with(b.outputs, OutputFeatures::Plain)).contains(commit)
            && !output_commits(
            outputs_with(cut_through_of(b).outputs, OutputFeatures::Plain),
        ).contains(commit) <==> cut(b, commit),
{
    lemma_input_commits_left(b, commit);
    lemma_plain_commits_left(b, commit);
}

/// Whether no two inputs, and no two outputs, of a block have the same commitment.
pub open spec fn distinct_commits(b: BlockData) -> bool {
    &&& input_commits(b.inputs).no_duplicates()
    &&& output_commits(b.outputs).no_duplicates()
}

/// The inputs that cut-through takes away.
spec fn inputs_taken(b: BlockData) -> Seq<InputData> {
    b.inputs.filter(|x: InputData| !inputs_left(b)(x))
}

/// The outputs that cut-through takes away.
spec fn outputs_taken(b: BlockData) -> Seq<OutputData> {
    b.outputs.filter(|x: OutputData| !outputs_left(b)(x))
}

/// The commitments of inputs and of outputs that cut-through takes away are the same.
proof fn lemma_taken_commits(b: BlockData)
    requires
        distinct_commits(b),
    ensures
        input_commits(inputs_taken(b)).to_multiset() == output_commits(
            outputs_taken(b),
        ).to_multiset(),
        inputs_taken(b).len() == outputs_taken(b).len(),
{
    let ins = inputs_taken(b);
    let outs = outputs_taken(b);
    let of_input = |x: InputData| x.commit;
    let of_output = |x: OutputData| x.commit;
    let plain = |o: OutputData| o.features == OutputFeatures::Plain;
    let gone_in = |x: InputData| !inputs_left(b)(x);
    let gone_out = |x: OutputData| !outputs_left(b)(x);
    assert(input_commits(b.inputs) =~= b.inputs.map_values(of_input));
    assert(output_commits(b.outputs) =~= b.outputs.map_values(of_output));
    assert(input_commits(ins) =~= ins.map_values(of_input));
    assert(output_commits(outs) =~= outs.map_values(of_output));
    lemma_filter_distinct(b.inputs, gone_in, of_input);
    lemma_filter_distinct(b.outputs, gone_out, of_output);
    assert forall|c: Seq<u8>| #[trigger]
        input_commits(ins).contains(c) <==> output_commits(outs).contains(c) by {
        if input_commits(ins).contains(c) {
            let i = choose|i: int| 0 <= i < ins.len() && input_commits(ins)[i] == c;
            assert(ins.contains(ins[i]));
            lemma_filter_contains(b.inputs, gone_in, ins[i]);
            assert(cut(b, c));
            let made = b.outputs.filter(plain);
            let k = choose|k: int| 0 <= k < made.len() && output_commits(made)[k] == c;
            assert(made.contains(made[k]));
            lemma_filter_contains(b.outputs, plain, made[k]);
            lemma_filter_contains(b.outputs, gone_out, made[k]);
            let j = choose|j: int| 0 <= j < outs.len() && outs[j] == made[k];
            assert(output_commits(outs)[j] == c);
        }
        if output_commits(outs).contains(c) {
            let j = choose|j: int| 0 <= j < outs.len() && output_commits(outs)[j] == c;
            assert(outs.contains(outs[j]));
            lemma_filter_contains(b.outputs, gone_out, outs[j]);
            assert(cut(b, c));
            let k = choose|k: int| 0 <= k < b.inputs.len() && input_commits(b.inputs)[k] == c;
            assert(b.inputs.contains(b.inputs[k]));
            lemma_filter_contains(b.inputs, gone_in, b.inputs[k]);
            let i = choose|i: int| 0 <= i < ins.len() && ins[i] == b.inputs[k];
            assert(input_commits(ins)[i] == c);
        }
    }
    lemma_same_multiset(input_commits(ins), output_commits(outs));
}

/// Of a block in which no two inputs and no two outputs have the same commitment, cut-through
/// takes as many inputs as outputs.
pub proof fn law_cut_through_takes_as_many(b: BlockData)
    requires
        distinct_commits(b),
    ensures
        b.inputs.len() - cut_through_of(b).inputs.len() == b.outputs.len() - cut_through_of(
            b,
        ).outputs.len(),
{
    lemma_taken_commits(b);
    lemma_total_parts(b.inputs, inputs_left(b), |x: InputData| 0int);
    lemma_total_parts(b.outputs, outputs_left(b), |x: OutputData| 0int);
}

/// The number that the outputs of a block less its inputs sum to.
pub open spec fn balance_log(b: BlockData) -> int {
    log_total(output_commits(b.outputs)) - log_total(input_commits(b.inputs))
}

/// Whether all commitments of the inputs and outputs of a block are points of the curve.
pub open spec fn on_the_curve(b: BlockData) -> bool {
    &&& all_points(output_commits(b.outputs))
    &&& all_points(input_commits(b.inputs))
}

/// The inputs of a list sum to what each of them is.
pub proof fn lemma_input_logs(inputs: Seq<InputData>)
    ensures
        log_total(input_commits(inputs)) == total(inputs, |x: InputData| log_value(x.commit)),
{
    let of_input = |x: InputData| x.commit;
    let log = |c: Seq<u8>| log_value(c);
    assert(input_commits(inputs) =~= inputs.map_values(of_input));
    lemma_total_mapped(inputs, of_input, log);
    assert((|x: InputData| log(of_input(x))) =~= (|x: InputData| log_value(x.commit)));
}

/// The outputs of a list sum to what each of them is.
pub proof fn lemma_output_logs(outputs: Seq<OutputData>)
    ensures
        log_total(output_commits(outputs)) == total(outputs, |x: OutputData| log_value(x.commit)),
{
    let of_output = |x: OutputData| x.commit;
    let log = |c: Seq<u8>| log_value(c);
    assert(output_commits(outputs) =~= outputs.map_values(of_output));
    lemma_total_mapped(outputs, of_output, log);
    assert((|x: OutputData| log(of_output(x))) =~= (|x: OutputData| log_value(x.commit)));
}

/// Whether the commitments that cut-through takes away are points of the curve.
pub open spec fn cut_is_on_the_curve(b: BlockData) -> bool {
    forall|commit: Seq<u8>| #[trigger] cut(b, commit) ==> log_of(commit) is Some
}

/// Where the commitments that are cut are points, the others are after cut-through where they
/// were before.
proof fn lemma_points_left(b: BlockData)
    requires
        cut_is_on_the_curve(b),
    ensures
        on_the_curve(cut_through_of(b)) <==> on_the_curve(b),
{
    let t = cut_through_of(b);
    if on_the_curve(b) {
        assert forall|i: int| 0 <= i < t.inputs.len() implies log_of(
            #[trigger] input_commits(t.inputs)[i],
        ) is Some by {
            assert(t.inputs.contains(t.inputs[i]));
            lemma_filter_contains(b.inputs, inputs_left(b), t.inputs[i]);
            let k = choose|k: int| 0 <= k < b.inputs.len() && b.inputs[k] == t.inputs[i];
            assert(log_of(input_commits(b.inputs)[k]) is Some);
        }
        assert forall|i: int| 0 <= i < t.outputs.len() implies log_of(
            #[trigger] output_commits(t.outputs)[i],
        ) is Some by {
            assert(t.outputs.contains(t.outputs[i]));
            lemma_filter_contains(b.outputs, outputs_left(b), t.outputs[i]);
            let k = choose|k: int| 0 <= k < b.outputs.len() && b.outputs[k] == t.outputs[i];
            assert(log_of(output_commits(b.outputs)[k]) is Some);
        }
    }
    if on_the_curve(t) {
        assert forall|k: int| 0 <= k < b.inputs.len() implies log_of(
            #[trigger] input_commits(b.inputs)[k],
        ) is Some by {
            let x = b.inputs[k];
            assert(b.inputs.contains(x));
            if !cut(b, x.commit) {
                lemma_filter_contains(b.inputs, inputs_left(b), x);
                let i = choose|i: int| 0 <= i < t.inputs.len() && t.inputs[i] == x;
                assert(log_of(input_commits(t.inputs)[i]) is Some);
            }
        }
        assert forall|k: int| 0 <= k < b.outputs.len() implies log_of(
            #[trigger] output_commits(b.outputs)[k],
        ) is Some by {
            let x = b.outputs[k];
            assert(b.outputs.contains(x));
            if !cut(b, x.commit) {
                lemma_filter_contains(b.outputs, outputs_left(b), x);
                let i = choose|i: int| 0 <= i < t.outputs.len() && t.outputs[i] == x;
                assert(log_of(output_commits(t.outputs)[i]) is Some);
            }
        }
    }
}

proof fn lemma_proofs_left(b: BlockData)
    requires
        first_bad_proof(b.outputs) is None,
    ensures
        first_bad_proof(cut_through_of(b).outputs) is None,
{
    let left = cut_through_of(b).outputs;
    assert forall|i: int| 0 <= i < left.len() implies range_proof_check(
        (#[trigger] left[i]).commit,
        left[i].proof,
    ) is Ok by {
        assert(left.contains(left[i]));
        lemma_filter_contains(b.outputs, outputs_left(b), left[i]);
        let k = choose|k: int| 0 <= k < b.outputs.len() && b.outputs[k] == left[i];
        lemma_no_bad_proof(b.outputs, k);
    }
    lemma_all_proofs_hold(left);
}

/// Cut-through keeps the balance of a block in which no two inputs and no two outputs have the
/// same commitment: the sum of its outputs less its inputs, and the overage, stay as they are,
/// and so does the sum that is held against its kernels where all range proofs are right. A
/// commitment that is no point of the curve has no sum: none such may be cut.
pub proof fn law_cut_through_keeps_balance(params: ChainParams, b: BlockData)
    requires
        distinct_commits(b),
        cut_is_on_the_curve(b),
    ensures
        balance_log(cut_through_of(b)) == balance_log(b),
        on_the_curve(cut_through_of(b)) <==> on_the_curve(b),
        commit_sum_of(
            output_commits(cut_through_of(b).outputs),
            input_commits(cut_through_of(b).inputs),
        ) == commit_sum_of(output_commits(b.outputs), input_commits(b.inputs)),
        overage_of(params, fee_sum(cut_through_of(b).kernels)) == overage_of(
            params,
            fee_sum(b.kernels),
        ),
        io_log(params, cut_through_of(b)) == io_log(params, b),
        first_bad_proof(b.outputs) is None ==> io_sum_of(params, cut_through_of(b)) == io_sum_of(
            params,
            b,
        ),
{
    if first_bad_proof(b.outputs) is None {
        lemma_proofs_left(b);
    }
    let t = cut_through_of(b);
    let log = |c: Seq<u8>| log_value(c);
    let log_in = |x: InputData| log_value(x.commit);
    let log_out = |x: OutputData| log_value(x.commit);
    lemma_points_left(b);
    lemma_taken_commits(b);
    lemma_total_multiset(
        input_commits(inputs_taken(b)),
        output_commits(outputs_taken(b)),
        log,
    );
    lemma_total_parts(b.inputs, inputs_left(b), log_in);
    lemma_total_parts(b.outputs, outputs_left(b), log_out);
    lemma_input_logs(b.inputs);
    lemma_input_logs(t.inputs);
    lemma_input_logs(inputs_taken(b));
    lemma_output_logs(b.outputs);
    lemma_output_logs(t.outputs);
    lemma_output_logs(outputs_taken(b));
}

/// A second cut-through changes nothing.
pub proof fn law_cut_through_is_idempotent(b: BlockData)
    ensures
        cut_through_of(cut_through_of(b)) == cut_through_of(b),
{
    let t = cut_through_of(b);
    assert forall|i: int| 0 <= i < t.inputs.len() implies inputs_left(t)(
        #[trigger] t.inputs[i],
    ) by {
        law_cut_through_is_complete(b, t.inputs[i].commit);
    }
    assert forall|i: int| 0 <= i < t.outputs.len() implies outputs_left(t)(
        #[trigger] t.outputs[i],
    ) by {
        law_cut_through_is_complete(b, t.outputs[i].commit);
    }
    lemma_filter_all(t.inputs, inputs_left(t));
    lemma_filter_all(t.outputs, outputs_left(t));
}

/// Cut-through preserves all coinbase outputs, in their order.
pub proof fn law_cut_through_keeps_coinbase(b: BlockData)
    ensures
        outputs_with(cut_through_of(b).outputs, OutputFeatures::Coinbase) == outputs_with(
            b.outputs,
            OutputFeatures::Coinbase,
        ),
{
    let coinbase = |o: OutputData| o.features == OutputFeatures::Coinbase;
    let both = |o: OutputData| outputs_left(b)(o) && coinbase(o);
    lemma_filter_twice(b.outputs, outputs_left(b), coinbase);
    lemma_filter_agree(b.outputs, both, coinbase);
}

/// Cut-through keeps lists in order.
pub proof fn law_cut_through_keeps_order(b: BlockData)
    requires
        all_sorted(b),
    ensures
        all_sorted(cut_through_of(b)),
{
    lemma_filter_sorted::<Input>(b.inputs, inputs_left(b));
    lemma_filter_sorted::<Output>(b.outputs, outputs_left(b));
}

/// Cut-through changes neither the header nor the kernels, so neither the hash of a block nor
/// its fees.
pub proof fn law_cut_through_keeps_hash_and_fees(b: BlockData)
    ensures
        hashed_header(cut_through_of(b).header) == hashed_header(b.header),
        fee_sum(cut_through_of(b).kernels) == fee_sum(b.kernels),
{
}

/// A block that spends none of its own outputs is left as it is.
pub proof fn law_nothing_to_cut(b: BlockData)
    requires
        forall|commit: Seq<u8>| !#[trigger] cut(b, commit),
    ensures
        cut_through_of(b) == b,
{
    lemma_filter_all(b.inputs, inputs_left(b));
    lemma_filter_all(b.outputs, outputs_left(b));
}

} // verus!
