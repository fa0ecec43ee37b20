//! What holds of a block that was built.

use vstd::prelude::*;
use crate::block::{
    cut_through_of, inputs_left, kernels_with, output_commits, outputs_left, outputs_with,
    BlockData,
};
use crate::consensus::{overage_of, reward_of, ChainParams};
use crate::error::Error;
use crate::filters::{
    lemma_contains_multiset, lemma_filter_agree, lemma_filter_last, lemma_filter_multiset,
    lemma_filter_none,
};
use crate::hash::blake2b_256;
use crate::header::{hashed_header, HeaderData};
use crate::laws::cutting::{law_cut_through_keeps_coinbase, law_cut_through_keeps_order};
use crate::laws::validity::lemma_no_kernel_fault;
use crate::laws::wire::lemma_same_sorted_form;
use crate::mining::{
    built, candidate_fees, excess_of, first_invalid, gathered, lemma_fee_sum_of_both, offsets_of,
    transactions_of, valid_build, without_rewards, BuildData,
};
use crate::order::{lemma_map_keeps_multisets, lemma_sorted_form, sorted_form};
use crate::secp::{is_own_sum, offset_sum_of, summable, SecpError};
use crate::ser::be_value;
use crate::totals::lemma_total_multiset;
use crate::transaction::{
    all_inputs, all_kernels, all_outputs, fee_sum, CandidateData, Input, KernelData,
    KernelFeatures, Output, OutputData, OutputFeatures, TransactionData, TxKernel,
};
use crate::validate::{all_sorted, coinbase_check, excesses, first_kernel_fault, kernel_fault};

verus! {

broadcast use vstd::seq_lib::group_to_multiset_ensures;

/// What a miner claims for a block, less the fees that the transactions pay, is the overage
/// with the opposite sign, if the fees can be halved.
pub proof fn law_reward_balances(params: ChainParams, fees: nat)
    requires
        fees % 2 == 0,
    ensures
        reward_of(params, fees) - fees == -overage_of(params, fees),
{
}

/// A block that was built has its lists in order.
pub proof fn law_built_is_in_order(
    proof_size: nat,
    d: BuildData,
    offset: Seq<u8>,
    timestamp: i64,
)
    requires
        valid_build(d.txs, d.reward_out, d.reward_kern),
    ensures
        all_sorted(cut_through_of(gathered(proof_size, d, offset, timestamp))),
{
    let txs = transactions_of(d.txs);
    lemma_sorted_form::<Input>(all_inputs(txs));
    lemma_sorted_form::<Output>(all_outputs(txs).push(d.reward_out));
    lemma_sorted_form::<TxKernel>(all_kernels(txs).push(d.reward_kern));
    law_cut_through_keeps_order(gathered(proof_size, d, offset, timestamp));
}

/// What a function picks from each transaction, one after the other.
spec fn picked<A>(txs: Seq<TransactionData>, pick: spec_fn(TransactionData) -> Seq<A>) -> Seq<A>
    decreases txs.len(),
{
    if txs.len() == 0 {
        Seq::empty()
    } else {
        picked(txs.drop_last(), pick) + pick(txs.last())
    }
}

proof fn lemma_all_is_picked(txs: Seq<TransactionData>)
    ensures
        all_inputs(txs) == picked(txs, |t: TransactionData| t.inputs),
        all_outputs(txs) == picked(txs, |t: TransactionData| t.outputs),
        all_kernels(txs) == picked(txs, |t: TransactionData| t.kernels),
    decreases txs.len(),
{
    if txs.len() > 0 {
        lemma_all_is_picked(txs.drop_last());
    }
}

proof fn lemma_multiset_of_both<A>(a: Seq<A>, b: Seq<A>)
    ensures
        (a + b).to_multiset() == a.to_multiset().add(b.to_multiset()),
{
    vstd::seq_lib::lemma_multiset_commutative(a, b);
}

proof fn lemma_picked_remove<A>(
    txs: Seq<TransactionData>,
    pick: spec_fn(TransactionData) -> Seq<A>,
    j: int,
)
    requires
        0 <= j < txs.len(),
    ensures
        picked(txs, pick).to_multiset() == picked(txs.remove(j), pick).to_multiset().add(
            pick(txs[j]).to_multiset(),
        ),
    decreases txs.len(),
{
    let last = pick(txs.last());
    lemma_multiset_of_both(picked(txs.drop_last(), pick), last);
    if j == txs.len() - 1 {
        assert(txs.remove(j) =~= txs.drop_last());
    } else {
        let rest = txs.remove(j);
        assert(rest.drop_last() =~= txs.drop_last().remove(j));
        lemma_picked_remove(txs.drop_last(), pick, j);
        lemma_multiset_of_both(picked(rest.drop_last(), pick), last);
        assert(picked(txs, pick).to_multiset() =~= picked(rest, pick).to_multiset().add(
            pick(txs[j]).to_multiset(),
        ));
    }
}

proof fn lemma_picked_multiset<A>(
    a: Seq<TransactionData>,
    b: Seq<TransactionData>,
    pick: spec_fn(TransactionData) -> Seq<A>,
)
    requires
        a.to_multiset() == b.to_multiset(),
    ensures
        picked(a, pick).to_multiset() == picked(b, pick).to_multiset(),
    decreases a.len(),
{
    assert(a.len() == a.to_multiset().len() == b.len());
    if a.len() > 0 {
        let tx = a.last();
        assert(a.contains(tx));
        lemma_contains_multiset(a, b, tx);
        let j = choose|j: int| 0 <= j < b.len() && b[j] == tx;
        lemma_picked_remove(a, pick, a.len() - 1);
        lemma_picked_remove(b, pick, j);
        assert(a.remove(a.len() - 1).to_multiset() =~= b.remove(j).to_multiset());
        lemma_picked_multiset(a.remove(a.len() - 1), b.remove(j), pick);
    }
}

proof fn lemma_gathered_ignores_order(
    proof_size: nat,
    d: BuildData,
    txs: Seq<CandidateData>,
    offset: Seq<u8>,
    timestamp: i64,
)
    requires
        valid_build(d.txs, d.reward_out, d.reward_kern),
        transactions_of(txs).to_multiset() == transactions_of(d.txs).to_multiset(),
    ensures
        gathered(proof_size, (BuildData { txs, ..d }), offset, timestamp) == gathered(
            proof_size,
            d,
            offset,
            timestamp,
        ),
{
    let a = transactions_of(d.txs);
    let b = transactions_of(txs);
    lemma_all_is_picked(a);
    lemma_all_is_picked(b);
    lemma_picked_multiset(a, b, |t: TransactionData| t.inputs);
    lemma_picked_multiset(a, b, |t: TransactionData| t.outputs);
    lemma_picked_multiset(a, b, |t: TransactionData| t.kernels);
    assert(all_outputs(a).push(d.reward_out).to_multiset() =~= all_outputs(b).push(
        d.reward_out,
    ).to_multiset());
    assert(all_kernels(a).push(d.reward_kern).to_multiset() =~= all_kernels(b).push(
        d.reward_kern,
    ).to_multiset());
    lemma_same_sorted_form::<Input>(all_inputs(a), all_inputs(b));
    lemma_same_sorted_form::<Output>(
        all_outputs(a).push(d.reward_out),
        all_outputs(b).push(d.reward_out),
    );
    lemma_same_sorted_form::<TxKernel>(
        all_kernels(a).push(d.reward_kern),
        all_kernels(b).push(d.reward_kern),
    );
}

/// The sum of offsets does not depend on their order.
pub proof fn law_offset_sum_ignores_order(a: Seq<Seq<u8>>, b: Seq<Seq<u8>>)
    requires
        a.to_multiset() == b.to_multiset(),
    ensures
        offset_sum_of(a) == offset_sum_of(b),
{
    let counts = |offset: Seq<u8>| summable(offset);
    lemma_filter_multiset(a, b, counts);
    let (keys_a, keys_b) = (a.filter(counts), b.filter(counts));
    assert(keys_a.len() == keys_a.to_multiset().len());
    assert(keys_b.len() == keys_b.to_multiset().len());
    lemma_total_multiset(keys_a, keys_b, |key: Seq<u8>| be_value(key) as int);
}

pub proof fn lemma_all_candidates_valid(txs: Seq<CandidateData>)
    ensures
        first_invalid(txs) is None <==> forall|i: int|
            0 <= i < txs.len() ==> (#[trigger] txs[i]).verdict is Ok,
    decreases txs.len(),
{
    if txs.len() > 0 {
        let front = txs.drop_last();
        lemma_all_candidates_valid(front);
        assert forall|i: int| 0 <= i < front.len() implies front[i] == #[trigger] txs[i] by {}
        assert(txs[txs.len() - 1] == txs.last());
        if first_invalid(front) is Some {
            let i = choose|i: int| 0 <= i < front.len() && (#[trigger] front[i]).verdict is Err;
            assert(txs[i].verdict is Err);
        }
    }
}

/// A block is built deterministically: in whatever order the transactions come, it is built
/// just as well, and is the same but for the time.
pub proof fn law_built_ignores_order(
    proof_size: nat,
    d: BuildData,
    txs: Seq<CandidateData>,
    timestamp: i64,
    later: i64,
)
    requires
        valid_build(d.txs, d.reward_out, d.reward_kern),
        txs.to_multiset() == d.txs.to_multiset(),
    ensures
        offset_sum_of(offsets_of(txs)) == offset_sum_of(offsets_of(d.txs)),
        built(proof_size, d, offset_sum_of(offsets_of(d.txs)), timestamp) matches Ok(b) ==> built(
            proof_size,
            (BuildData { txs, ..d }),
            offset_sum_of(offsets_of(txs)),
            later,
        ) == Ok::<BlockData, Error>(
            (BlockData { header: (HeaderData { timestamp: later, ..b.header }), ..b }),
        ),
{
    let of_tx = |c: CandidateData| c.tx;
    let of_offset = |c: CandidateData| c.tx.offset;
    assert(transactions_of(txs) =~= txs.map_values(of_tx));
    assert(transactions_of(d.txs) =~= d.txs.map_values(of_tx));
    lemma_map_keeps_multisets(txs, d.txs, of_tx);
    assert(offsets_of(txs) =~= txs.map_values(of_offset));
    assert(offsets_of(d.txs) =~= d.txs.map_values(of_offset));
    lemma_map_keeps_multisets(txs, d.txs, of_offset);
    law_offset_sum_ignores_order(offsets_of(txs), offsets_of(d.txs));
    lemma_all_candidates_valid(txs);
    lemma_all_candidates_valid(d.txs);
    if first_invalid(d.txs) is None {
        assert forall|i: int| 0 <= i < txs.len() implies (#[trigger] txs[i]).verdict is Ok by {
            assert(txs.contains(txs[i]));
            lemma_contains_multiset(txs, d.txs, txs[i]);
            let k = choose|k: int| 0 <= k < d.txs.len() && d.txs[k] == txs[i];
            assert(d.txs[k].verdict is Ok);
        }
        match offset_sum_of(offsets_of(d.txs)) {
            Ok(offset) => {
                lemma_gathered_ignores_order(proof_size, d, txs, offset, later);
                let g = gathered(proof_size, d, offset, timestamp);
                let h = gathered(proof_size, d, offset, later);
                lemma_filter_agree(g.inputs, inputs_left(h), inputs_left(g));
                lemma_filter_agree(g.outputs, outputs_left(h), outputs_left(g));
            },
            Err(_) => {},
        }
    }
}

/// A block that was built comes one above the previous block, names it by its hash, and adds
/// its difficulty to that of the chain.
pub proof fn law_built_follows(
    proof_size: nat,
    d: BuildData,
    offset: Seq<u8>,
    timestamp: i64,
)
    requires
        d.prev.height < u64::MAX,
        d.difficulty + d.prev.total_difficulty <= u64::MAX,
    ensures
        ({
            let header = cut_through_of(gathered(proof_size, d, offset, timestamp)).header;
            &&& header.height == d.prev.height + 1
            &&& header.previous == blake2b_256(hashed_header(d.prev))
            &&& header.total_difficulty == d.prev.total_difficulty + d.difficulty
        }),
{
}

proof fn lemma_fee_sum_remove(s: Seq<KernelData>, j: int)
    requires
        0 <= j < s.len(),
    ensures
        fee_sum(s) == fee_sum(s.remove(j)) + s[j].fee,
{
    let head = s.take(j + 1);
    let tail = s.skip(j + 1);
    assert(s =~= head + tail);
    assert(head.drop_last() =~= s.take(j));
    assert(s.remove(j) =~= s.take(j) + tail);
    lemma_fee_sum_of_both(head, tail);
    lemma_fee_sum_of_both(s.take(j), tail);
}

/// The sum of fees does not depend on the order of the kernels.
pub proof fn lemma_fee_sum_multiset(a: Seq<KernelData>, b: Seq<KernelData>)
    requires
        a.to_multiset() == b.to_multiset(),
    ensures
        fee_sum(a) == fee_sum(b),
    decreases a.len(),
{
    assert(a.len() == a.to_multiset().len() == b.len());
    if a.len() > 0 {
        let k = a.last();
        assert(a.contains(k));
        lemma_contains_multiset(a, b, k);
        let j = choose|j: int| 0 <= j < b.len() && b[j] == k;
        let a1 = a.remove(a.len() - 1);
        let b1 = b.remove(j);
        lemma_fee_sum_remove(a, a.len() - 1);
        lemma_fee_sum_remove(b, j);
        assert(a1.to_multiset() =~= b1.to_multiset());
        lemma_fee_sum_multiset(a1, b1);
    }
}

/// A block that was built pays the fees of its transactions, besides that of the kernel of
/// the reward, which is none.
pub proof fn law_built_pays_the_fees(
    proof_size: nat,
    d: BuildData,
    offset: Seq<u8>,
    timestamp: i64,
)
    requires
        valid_build(d.txs, d.reward_out, d.reward_kern),
    ensures
        fee_sum(cut_through_of(gathered(proof_size, d, offset, timestamp)).kernels)
            == candidate_fees(d.txs) + d.reward_kern.fee,
{
    let kernels = all_kernels(transactions_of(d.txs));
    let proved = kernels.push(d.reward_kern);
    lemma_sorted_form::<TxKernel>(proved);
    lemma_fee_sum_multiset(sorted_form::<TxKernel>(proved), proved);
    assert(proved.drop_last() =~= kernels);
}

proof fn lemma_only_item<A>(s: Seq<A>, x: A)
    requires
        s.to_multiset() == seq![x].to_multiset(),
    ensures
        s == seq![x],
{
    assert(s.len() == s.to_multiset().len());
    assert(seq![x].len() == seq![x].to_multiset().len());
    assert(s.contains(s[0]));
    lemma_contains_multiset(s, seq![x], s[0]);
    assert(s =~= seq![x]);
}

/// Where the transactions hold no reward, the only outputs and kernels of rewards in a block
/// that was built are those that it was built with.
pub proof fn law_built_holds_one_reward(
    proof_size: nat,
    d: BuildData,
    offset: Seq<u8>,
    timestamp: i64,
)
    requires
        valid_build(d.txs, d.reward_out, d.reward_kern),
        without_rewards(d.txs),
        d.reward_out.features == OutputFeatures::Coinbase,
        d.reward_kern.features == KernelFeatures::Coinbase,
    ensures
        ({
            let b = cut_through_of(gathered(proof_size, d, offset, timestamp));
            &&& outputs_with(b.outputs, OutputFeatures::Coinbase) == seq![d.reward_out]
            &&& kernels_with(b.kernels, KernelFeatures::Coinbase) == seq![d.reward_kern]
        }),
{
    let txs = transactions_of(d.txs);
    let g = gathered(proof_size, d, offset, timestamp);
    let made = all_outputs(txs).push(d.reward_out);
    let proved = all_kernels(txs).push(d.reward_kern);
    let of_reward = |o: OutputData| o.features == OutputFeatures::Coinbase;
    let for_reward = |k: KernelData| k.features == KernelFeatures::Coinbase;
    law_cut_through_keeps_coinbase(g);
    lemma_sorted_form::<Output>(made);
    lemma_sorted_form::<TxKernel>(proved);
    lemma_filter_multiset(g.outputs, made, of_reward);
    lemma_filter_multiset(g.kernels, proved, for_reward);
    lemma_filter_none(all_outputs(txs), of_reward);
    lemma_filter_none(all_kernels(txs), for_reward);
    lemma_filter_last(made, of_reward);
    lemma_filter_last(proved, for_reward);
    assert(made.drop_last() =~= all_outputs(txs));
    assert(proved.drop_last() =~= all_kernels(txs));
    assert(made.filter(of_reward) =~= seq![d.reward_out]);
    assert(proved.filter(for_reward) =~= seq![d.reward_kern]);
    lemma_only_item(g.outputs.filter(of_reward), d.reward_out);
    lemma_only_item(g.kernels.filter(for_reward), d.reward_kern);
}

/// Where the transactions hold no reward, a block that was built with a reward for the fees of
/// the transactions passes the check of its reward.
pub proof fn law_reward_is_right(
    params: ChainParams,
    d: BuildData,
    offset: Seq<u8>,
    timestamp: i64,
)
    requires
        valid_build(d.txs, d.reward_out, d.reward_kern),
        without_rewards(d.txs),
        d.reward_out.features == OutputFeatures::Coinbase,
        d.reward_kern.features == KernelFeatures::Coinbase,
        d.reward_kern.fee == 0,
        excess_of(d.reward_out.commit, reward_of(params, candidate_fees(d.txs)) as u64) == Ok::<
            Seq<u8>,
            SecpError,
        >(d.reward_kern.excess),
        is_own_sum(d.reward_kern.excess),
    ensures
        coinbase_check(
            params,
            cut_through_of(gathered(params.proof_size as nat, d, offset, timestamp)),
        ) == Ok::<(), Error>(()),
{
    law_built_holds_one_reward(params.proof_size as nat, d, offset, timestamp);
    law_built_pays_the_fees(params.proof_size as nat, d, offset, timestamp);
    assert(output_commits(seq![d.reward_out]) =~= seq![d.reward_out.commit]);
    assert(excesses(seq![d.reward_kern]) =~= seq![d.reward_kern.excess]);
}

/// A block that was built passes the check of fees and lock heights just where all kernels of
/// its transactions would, given a reward without a fee that is locked to its height.
pub proof fn law_built_obeys_kernel_rules(
    proof_size: nat,
    d: BuildData,
    offset: Seq<u8>,
    timestamp: i64,
)
    requires
        valid_build(d.txs, d.reward_out, d.reward_kern),
        d.prev.height < u64::MAX,
        d.reward_kern.fee == 0,
        d.reward_kern.lock_height == d.prev.height + 1,
    ensures
        ({
            let b = cut_through_of(gathered(proof_size, d, offset, timestamp));
            let kernels = all_kernels(transactions_of(d.txs));
            first_kernel_fault(b.kernels, b.header.height) is None <==> forall|i: int|
                0 <= i < kernels.len() ==> kernel_fault(#[trigger] kernels[i], b.header.height) is None
        }),
{
    let b = cut_through_of(gathered(proof_size, d, offset, timestamp));
    let height = b.header.height;
    let kernels = all_kernels(transactions_of(d.txs));
    let proved = kernels.push(d.reward_kern);
    lemma_sorted_form::<TxKernel>(proved);
    lemma_no_kernel_fault(b.kernels, height);
    if first_kernel_fault(b.kernels, height) is None {
        assert forall|i: int| 0 <= i < kernels.len() implies kernel_fault(
            #[trigger] kernels[i],
            height,
        ) is None by {
            assert(proved[i] == kernels[i]);
            assert(proved.contains(kernels[i]));
            lemma_contains_multiset(proved, b.kernels, kernels[i]);
            let k = choose|k: int| 0 <= k < b.kernels.len() && b.kernels[k] == kernels[i];
            assert(kernel_fault(b.kernels[k], height) is None);
        }
    }
    if forall|i: int|
        0 <= i < kernels.len() ==> kernel_fault(#[trigger] kernels[i], height) is None {
        assert forall|k: int| 0 <= k < b.kernels.len() implies kernel_fault(
            #[trigger] b.kernels[k],
            height,
        ) is None by {
            assert(b.kernels.contains(b.kernels[k]));
            lemma_contains_multiset(b.kernels, proved, b.kernels[k]);
            let i = choose|i: int| 0 <= i < proved.len() && proved[i] == b.kernels[k];
            if i < kernels.len() {
                assert(proved[i] == kernels[i]);
            }
        }
    }
}

} // verus!
