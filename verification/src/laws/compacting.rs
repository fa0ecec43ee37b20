//! What a compact block says of its block, and what hydrating it gives back.

use vstd::prelude::*;
use crate::block::{
    cut, cut_through_of, inputs_left, kernels_with, outputs_left, outputs_with, valid_block,
    valid_items, BlockData,
};
use crate::compact::{
    collected, compact_of, hydrated, nonce_hash, short_ids, valid_compact, CompactData,
};
use crate::filters::{
    lemma_contains_multiset, lemma_contains_of_both, lemma_filter_contains, lemma_filter_empty,
    lemma_filter_last, lemma_filter_no_duplicates, lemma_filter_valid,
    lemma_no_duplicates_multiset, lemma_strictly_sorted,
};
use crate::hash::{blake2b_256, siphash_2_4, ShortId};
use crate::header::hashed_header;
use crate::laws::assembly::{lemma_same_inputs, lemma_same_outputs};
use crate::laws::cutting::{
    law_cut_through_keeps_coinbase, law_cut_through_keeps_order,
    law_cut_through_matches_by_commitment, law_nothing_to_cut,
};
use crate::laws::lists::law_items_of_transactions;
use crate::laws::wire::compact_sorted;
use crate::mining::{gathered, transactions_of, valid_build, BuildData};
use crate::order::{
    all_valid, lemma_is_the_set_form, lemma_set_form, lemma_sorted_form, lex_le, set_form,
    sorted_form, strictly_sorted, Wire,
};
use crate::ser::{be_bytes, be_value, lemma_be_bytes_len};
use crate::transaction::{
    all_inputs, all_kernels, all_outputs, kernel_short_id, Input, InputData, KernelData,
    KernelFeatures, Output, OutputData, OutputFeatures, TransactionData, TxKernel,
};
use crate::validate::all_sorted;

verus! {

broadcast use vstd::seq_lib::group_to_multiset_ensures;

/// Whether all items of some transactions are views of values.
pub open spec fn valid_transactions(txs: Seq<TransactionData>) -> bool {
    &&& all_valid::<Input>(all_inputs(txs))
    &&& all_valid::<Output>(all_outputs(txs))
    &&& all_valid::<TxKernel>(all_kernels(txs))
}

proof fn lemma_short_ids_valid(kernels: Seq<KernelData>, block: Seq<u8>)
    ensures
        all_valid::<ShortId>(short_ids(kernels, block)),
{
    assert forall|i: int| 0 <= i < kernels.len() implies ShortId::valid(
        #[trigger] short_ids(kernels, block)[i],
    ) by {
        let sip = crate::hash::siphash_2_4(
            crate::hash::le_word(block.subrange(0, 8)),
            crate::hash::le_word(block.subrange(8, 16)),
            crate::hash::blake2b_256(TxKernel::encode(kernels[i])),
        );
        lemma_be_bytes_len(sip as nat, 8);
    }
}

proof fn lemma_kernels_part(kernels: Seq<KernelData>)
    ensures
        kernels_with(kernels, KernelFeatures::Coinbase).len() + kernels_with(
            kernels,
            KernelFeatures::Plain,
        ).len() == kernels.len(),
    decreases kernels.len(),
{
    let full = |k: KernelData| k.features == KernelFeatures::Coinbase;
    let brief = |k: KernelData| k.features == KernelFeatures::Plain;
    if kernels.len() == 0 {
        assert(kernels =~= Seq::empty());
        lemma_filter_empty(full);
        lemma_filter_empty(brief);
    } else {
        lemma_kernels_part(kernels.drop_last());
        lemma_filter_last(kernels, full);
        lemma_filter_last(kernels, brief);
    }
}

/// A compact block has its lists in order, and has every kernel of the block either in full
/// or by a short id.
pub proof fn law_compact_is_in_order(b: BlockData, nonce: u64)
    requires
        valid_block(b),
    ensures
        valid_compact(compact_of(b, nonce)),
        compact_sorted(compact_of(b, nonce)),
        compact_of(b, nonce).kern_full.len() + compact_of(b, nonce).kern_ids.len()
            == b.kernels.len(),
        compact_of(b, nonce).out_full.len() == outputs_with(
            b.outputs,
            OutputFeatures::Coinbase,
        ).len(),
{
    let plain = kernels_with(b.kernels, KernelFeatures::Plain);
    lemma_coinbase_valid(b);
    lemma_sorted_form::<Output>(outputs_with(b.outputs, OutputFeatures::Coinbase));
    lemma_sorted_form::<TxKernel>(kernels_with(b.kernels, KernelFeatures::Coinbase));
    lemma_short_ids_valid(plain, nonce_hash(b.header, nonce));
    lemma_sorted_form::<ShortId>(short_ids(plain, nonce_hash(b.header, nonce)));
    lemma_kernels_part(b.kernels);
}

proof fn lemma_coinbase_valid(b: BlockData)
    requires
        valid_items(b),
    ensures
        all_valid::<Output>(outputs_with(b.outputs, OutputFeatures::Coinbase)),
        all_valid::<TxKernel>(kernels_with(b.kernels, KernelFeatures::Coinbase)),
{
    lemma_filter_valid::<Output>(
        b.outputs,
        |o: OutputData| o.features == OutputFeatures::Coinbase,
    );
    lemma_filter_valid::<TxKernel>(
        b.kernels,
        |k: KernelData| k.features == KernelFeatures::Coinbase,
    );
}

/// What a compact block holds in full are just the coinbase outputs and kernels of its block.
proof fn lemma_full_lists(b: BlockData, nonce: u64)
    requires
        valid_items(b),
    ensures
        forall|o: OutputData| #[trigger]
            compact_of(b, nonce).out_full.contains(o) <==> (b.outputs.contains(o) && o.features
                == OutputFeatures::Coinbase),
        forall|k: KernelData| #[trigger]
            compact_of(b, nonce).kern_full.contains(k) <==> (b.kernels.contains(k) && k.features
                == KernelFeatures::Coinbase),
        all_valid::<Output>(compact_of(b, nonce).out_full),
        all_valid::<TxKernel>(compact_of(b, nonce).kern_full),
{
    let c = compact_of(b, nonce);
    let outs = outputs_with(b.outputs, OutputFeatures::Coinbase);
    let kerns = kernels_with(b.kernels, KernelFeatures::Coinbase);
    lemma_coinbase_valid(b);
    lemma_sorted_form::<Output>(outs);
    lemma_sorted_form::<TxKernel>(kerns);
    assert forall|o: OutputData| #[trigger]
        c.out_full.contains(o) <==> (b.outputs.contains(o) && o.features
            == OutputFeatures::Coinbase) by {
        lemma_contains_multiset(c.out_full, outs, o);
        lemma_filter_contains(
            b.outputs,
            |x: OutputData| x.features == OutputFeatures::Coinbase,
            o,
        );
    }
    assert forall|k: KernelData| #[trigger]
        c.kern_full.contains(k) <==> (b.kernels.contains(k) && k.features
            == KernelFeatures::Coinbase) by {
        lemma_contains_multiset(c.kern_full, kerns, k);
        lemma_filter_contains(
            b.kernels,
            |x: KernelData| x.features == KernelFeatures::Coinbase,
            k,
        );
    }
}

/// A compact block holds the coinbase outputs and the coinbase kernels of its block, each as often,
/// and for every other kernel, each as often, six bytes of a keyed hash of it. The key is the hash
/// of the header and the nonce. All lists are in order.
pub proof fn law_compact_contents(b: BlockData, nonce: u64)
    requires
        valid_items(b),
    ensures
        ({
            let key = blake2b_256(hashed_header(b.header) + be_bytes(nonce as nat, 8));
            let id = |k: KernelData|
                be_bytes(
                    siphash_2_4(
                        be_value(key.subrange(0, 8).reverse()) as u64,
                        be_value(key.subrange(8, 16).reverse()) as u64,
                        blake2b_256(TxKernel::encode(k)),
                    ) as nat,
                    8,
                ).reverse().take(6);
            &&& compact_of(b, nonce).header == b.header
            &&& compact_of(b, nonce).nonce == nonce
            &&& compact_of(b, nonce).out_full.to_multiset() == b.outputs.filter(
                |x: OutputData| x.features == OutputFeatures::Coinbase,
            ).to_multiset()
            &&& compact_of(b, nonce).kern_full.to_multiset() == b.kernels.filter(
                |x: KernelData| x.features == KernelFeatures::Coinbase,
            ).to_multiset()
            &&& compact_of(b, nonce).kern_ids.to_multiset() == b.kernels.filter(
                |x: KernelData| x.features == KernelFeatures::Plain,
            ).map_values(id).to_multiset()
            &&& forall|i: int, j: int|
                0 <= i < j < compact_of(b, nonce).out_full.len() ==> lex_le(
                    #[trigger] Output::encode(compact_of(b, nonce).out_full[i]),
                    #[trigger] Output::encode(compact_of(b, nonce).out_full[j]),
                )
            &&& forall|i: int, j: int|
                0 <= i < j < compact_of(b, nonce).kern_full.len() ==> lex_le(
                    #[trigger] TxKernel::encode(compact_of(b, nonce).kern_full[i]),
                    #[trigger] TxKernel::encode(compact_of(b, nonce).kern_full[j]),
                )
            &&& forall|i: int, j: int|
                0 <= i < j < compact_of(b, nonce).kern_ids.len() ==> lex_le(
                    #[trigger] ShortId::encode(compact_of(b, nonce).kern_ids[i]),
                    #[trigger] ShortId::encode(compact_of(b, nonce).kern_ids[j]),
                )
        }),
{
    let key = blake2b_256(hashed_header(b.header) + be_bytes(nonce as nat, 8));
    let id = |k: KernelData|
        be_bytes(
            siphash_2_4(
                be_value(key.subrange(0, 8).reverse()) as u64,
                be_value(key.subrange(8, 16).reverse()) as u64,
                blake2b_256(TxKernel::encode(k)),
            ) as nat,
            8,
        ).reverse().take(6);
    let plain = kernels_with(b.kernels, KernelFeatures::Plain);
    lemma_coinbase_valid(b);
    lemma_sorted_form::<Output>(outputs_with(b.outputs, OutputFeatures::Coinbase));
    lemma_sorted_form::<TxKernel>(kernels_with(b.kernels, KernelFeatures::Coinbase));
    lemma_short_ids_valid(plain, key);
    lemma_sorted_form::<ShortId>(short_ids(plain, key));
    assert(short_ids(plain, key) =~= plain.map_values(id));
}

/// A hydrated block holds what the transactions and the compact block hold: all kernels; all inputs
/// but those for which some output that is not that of a reward has their commitment; and all
/// outputs but those that are not of a reward and for which some input has their commitment. All
/// lists are in order.
pub proof fn law_hydrated_contents(c: CompactData, txs: Seq<TransactionData>)
    requires
        all_valid::<Input>(all_inputs(txs)),
        all_valid::<Output>(all_outputs(txs) + c.out_full),
        all_valid::<TxKernel>(all_kernels(txs) + c.kern_full),
    ensures
        ({
            let ins = txs.fold_left(
                Seq::<InputData>::empty(),
                (|all: Seq<InputData>, t: TransactionData| all + t.inputs),
            );
            let outs = txs.fold_left(
                Seq::<OutputData>::empty(),
                (|all: Seq<OutputData>, t: TransactionData| all + t.outputs),
            ) + c.out_full;
            let kerns = txs.fold_left(
                Seq::<KernelData>::empty(),
                (|all: Seq<KernelData>, t: TransactionData| all + t.kernels),
            ) + c.kern_full;
            &&& hydrated(c, txs).header == c.header
            &&& forall|x: InputData| #[trigger]
                hydrated(c, txs).inputs.contains(x) <==> ins.contains(x) && !exists|j: int|
                    0 <= j < outs.len() && (#[trigger] outs[j]).features
                        == OutputFeatures::Plain && outs[j].commit == x.commit
            &&& forall|x: OutputData| #[trigger]
                hydrated(c, txs).outputs.contains(x) <==> outs.contains(x) && (x.features != OutputFeatures::Plain
                    || !exists|i: int| 0 <= i < ins.len() && (#[trigger] ins[i]).commit == x.commit)
            &&& forall|x: KernelData| #[trigger] hydrated(c, txs).kernels.contains(x) <==> kerns.contains(x)
            &&& forall|i: int, j: int|
                0 <= i < j < hydrated(c, txs).inputs.len() ==> lex_le(
                    #[trigger] Input::encode(hydrated(c, txs).inputs[i]),
                    #[trigger] Input::encode(hydrated(c, txs).inputs[j]),
                )
            &&& forall|i: int, j: int|
                0 <= i < j < hydrated(c, txs).outputs.len() ==> lex_le(
                    #[trigger] Output::encode(hydrated(c, txs).outputs[i]),
                    #[trigger] Output::encode(hydrated(c, txs).outputs[j]),
                )
            &&& forall|i: int, j: int|
                0 <= i < j < hydrated(c, txs).kernels.len() ==> lex_le(
                    #[trigger] TxKernel::encode(hydrated(c, txs).kernels[i]),
                    #[trigger] TxKernel::encode(hydrated(c, txs).kernels[j]),
                )
        }),
{
    let ins = all_inputs(txs);
    let outs = all_outputs(txs) + c.out_full;
    let kerns = all_kernels(txs) + c.kern_full;
    let b = collected(c, txs);
    law_items_of_transactions(txs);
    lemma_set_form::<Input>(ins);
    lemma_set_form::<Output>(outs);
    lemma_set_form::<TxKernel>(kerns);
    law_cut_through_keeps_order(b);
    lemma_inputs_after_cut(b, ins, outs);
    lemma_outputs_after_cut(b, ins, outs);
}

proof fn lemma_inputs_after_cut(b: BlockData, ins: Seq<InputData>, outs: Seq<OutputData>)
    requires
        forall|v: InputData| #[trigger] b.inputs.contains(v) <==> ins.contains(v),
        forall|v: OutputData| #[trigger] b.outputs.contains(v) <==> outs.contains(v),
    ensures
        forall|x: InputData| #[trigger]
            cut_through_of(b).inputs.contains(x) <==> ins.contains(x) && !exists|j: int|
                0 <= j < outs.len() && (#[trigger] outs[j]).features == OutputFeatures::Plain
                    && outs[j].commit == x.commit,
{
    let r = cut_through_of(b);
    let kept = |y: InputData|
        !exists|j: int|
            0 <= j < b.outputs.len() && (#[trigger] b.outputs[j]).features == OutputFeatures::Plain
                && b.outputs[j].commit == y.commit;
    assert(r.inputs == b.inputs.filter(kept)) by {
        law_cut_through_matches_by_commitment(b, r);
    }
    assert forall|x: InputData| #[trigger]
        r.inputs.contains(x) <==> ins.contains(x) && !exists|j: int|
            0 <= j < outs.len() && (#[trigger] outs[j]).features == OutputFeatures::Plain
                && outs[j].commit == x.commit by {
        lemma_filter_contains(b.inputs, kept, x);
        lemma_same_outputs(b.outputs, outs, x.commit);
        assert(b.inputs.contains(x) <==> ins.contains(x));
    }
}

proof fn lemma_outputs_after_cut(b: BlockData, ins: Seq<InputData>, outs: Seq<OutputData>)
    requires
        forall|v: InputData| #[trigger] b.inputs.contains(v) <==> ins.contains(v),
        forall|v: OutputData| #[trigger] b.outputs.contains(v) <==> outs.contains(v),
    ensures
        forall|x: OutputData| #[trigger]
            cut_through_of(b).outputs.contains(x) <==> outs.contains(x) && (x.features
                != OutputFeatures::Plain || !exists|i: int|
                0 <= i < ins.len() && (#[trigger] ins[i]).commit == x.commit),
{
    let r = cut_through_of(b);
    let kept = |y: OutputData|
        y.features != OutputFeatures::Plain || !exists|i: int|
            0 <= i < b.inputs.len() && (#[trigger] b.inputs[i]).commit == y.commit;
    assert(r.outputs == b.outputs.filter(kept)) by {
        law_cut_through_matches_by_commitment(b, r);
    }
    assert forall|x: OutputData| #[trigger]
        r.outputs.contains(x) <==> outs.contains(x) && (x.features != OutputFeatures::Plain
            || !exists|i: int| 0 <= i < ins.len() && (#[trigger] ins[i]).commit == x.commit) by {
        lemma_filter_contains(b.outputs, kept, x);
        lemma_same_inputs(b.inputs, ins, x.commit);
        assert(b.outputs.contains(x) <==> outs.contains(x));
    }
}

/// Every coinbase kernel of a block is in its compact block in full, and every other kernel
/// by its short id under the hash of the compact block.
pub proof fn law_compact_names_every_kernel(b: BlockData, nonce: u64, k: KernelData)
    requires
        valid_items(b),
        b.kernels.contains(k),
    ensures
        k.features == KernelFeatures::Coinbase ==> compact_of(b, nonce).kern_full.contains(k),
        k.features == KernelFeatures::Plain ==> compact_of(b, nonce).kern_ids.contains(
            kernel_short_id(
                k,
                nonce_hash(compact_of(b, nonce).header, compact_of(b, nonce).nonce),
            ),
        ),
{
    lemma_full_lists(b, nonce);
    if k.features == KernelFeatures::Plain {
        let hash = nonce_hash(b.header, nonce);
        let brief = |x: KernelData| x.features == KernelFeatures::Plain;
        let plain = b.kernels.filter(brief);
        let ids = short_ids(plain, hash);
        lemma_filter_contains(b.kernels, brief, k);
        let i = choose|i: int| 0 <= i < plain.len() && plain[i] == k;
        assert(ids[i] == kernel_short_id(k, hash));
        lemma_short_ids_valid(plain, hash);
        lemma_sorted_form::<ShortId>(ids);
        lemma_contains_multiset(sorted_form::<ShortId>(ids), ids, kernel_short_id(k, hash));
    }
}

/// What a compact block holds in full are the coinbase outputs and the coinbase kernels of its
/// block, and no others.
pub proof fn law_compact_holds_coinbase(b: BlockData, nonce: u64, o: OutputData, k: KernelData)
    requires
        valid_items(b),
    ensures
        compact_of(b, nonce).out_full.contains(o) <==> (b.outputs.contains(o) && o.features
            == OutputFeatures::Coinbase),
        compact_of(b, nonce).kern_full.contains(k) <==> (b.kernels.contains(k) && k.features
            == KernelFeatures::Coinbase),
{
    lemma_full_lists(b, nonce);
}

/// Two lists with the same contents, of which one holds nothing twice.
proof fn lemma_set_form_of_distinct<T: Wire>(s: Seq<T::V>, u: Seq<T::V>)
    requires
        all_valid::<T>(s),
        all_valid::<T>(u),
        u.no_duplicates(),
        forall|v: T::V| #[trigger] s.contains(v) <==> u.contains(v),
    ensures
        set_form::<T>(s) == sorted_form::<T>(u),
{
    let t = sorted_form::<T>(u);
    lemma_sorted_form::<T>(u);
    lemma_no_duplicates_multiset(u, t);
    lemma_strictly_sorted::<T>(t);
    assert forall|v: T::V| #[trigger] t.contains(v) <==> s.contains(v) by {
        lemma_contains_multiset(t, u, v);
        assert(s.contains(v) <==> u.contains(v));
    }
    lemma_is_the_set_form::<T>(s, t);
}

proof fn lemma_valid_of_both<T: Wire>(a: Seq<T::V>, b: Seq<T::V>)
    requires
        all_valid::<T>(a),
        all_valid::<T>(b),
    ensures
        all_valid::<T>(a + b),
{
}

/// Hydrating depends on the header, on what the compact block holds in full and on what the
/// transactions hold, but not on order or number, nor on the nonce and the short ids.
pub proof fn law_hydrate_ignores_order(
    c: CompactData,
    e: CompactData,
    a: Seq<TransactionData>,
    b: Seq<TransactionData>,
)
    requires
        valid_compact(c),
        valid_compact(e),
        valid_transactions(a),
        valid_transactions(b),
        c.header == e.header,
        forall|v: OutputData| #[trigger] c.out_full.contains(v) <==> e.out_full.contains(v),
        forall|v: KernelData| #[trigger] c.kern_full.contains(v) <==> e.kern_full.contains(v),
        forall|v: InputData| #[trigger] all_inputs(a).contains(v) <==> all_inputs(b).contains(v),
        forall|v: OutputData| #[trigger] all_outputs(a).contains(v) <==> all_outputs(b).contains(v),
        forall|v: KernelData| #[trigger] all_kernels(a).contains(v) <==> all_kernels(b).contains(v),
    ensures
        hydrated(c, a) == hydrated(e, b),
{
    let outs_a = all_outputs(a) + c.out_full;
    let outs_b = all_outputs(b) + e.out_full;
    let kerns_a = all_kernels(a) + c.kern_full;
    let kerns_b = all_kernels(b) + e.kern_full;
    lemma_valid_of_both::<Output>(all_outputs(a), c.out_full);
    lemma_valid_of_both::<Output>(all_outputs(b), e.out_full);
    lemma_valid_of_both::<TxKernel>(all_kernels(a), c.kern_full);
    lemma_valid_of_both::<TxKernel>(all_kernels(b), e.kern_full);
    assert forall|v: OutputData| #[trigger] outs_a.contains(v) <==> outs_b.contains(v) by {
        lemma_contains_of_both(all_outputs(a), c.out_full, v);
        lemma_contains_of_both(all_outputs(b), e.out_full, v);
        assert(all_outputs(a).contains(v) <==> all_outputs(b).contains(v));
        assert(c.out_full.contains(v) <==> e.out_full.contains(v));
    }
    assert forall|v: KernelData| #[trigger] kerns_a.contains(v) <==> kerns_b.contains(v) by {
        lemma_contains_of_both(all_kernels(a), c.kern_full, v);
        lemma_contains_of_both(all_kernels(b), e.kern_full, v);
        assert(all_kernels(a).contains(v) <==> all_kernels(b).contains(v));
        assert(c.kern_full.contains(v) <==> e.kern_full.contains(v));
    }
    lemma_same_set_form::<Input>(all_inputs(a), all_inputs(b));
    lemma_same_set_form::<Output>(outs_a, outs_b);
    lemma_same_set_form::<TxKernel>(kerns_a, kerns_b);
}

proof fn lemma_same_set_form<T: Wire>(a: Seq<T::V>, b: Seq<T::V>)
    requires
        all_valid::<T>(a),
        all_valid::<T>(b),
        forall|v: T::V| #[trigger] a.contains(v) <==> b.contains(v),
    ensures
        set_form::<T>(a) == set_form::<T>(b),
{
    lemma_set_form::<T>(a);
    let t = set_form::<T>(a);
    assert forall|v: T::V| #[trigger] t.contains(v) <==> b.contains(v) by {
        assert(a.contains(v) <==> b.contains(v));
    }
    lemma_is_the_set_form::<T>(b, t);
}

/// A hydrated block has its lists in order and holds nothing twice.
pub proof fn law_hydrated_is_in_order(c: CompactData, txs: Seq<TransactionData>)
    requires
        valid_compact(c),
        valid_transactions(txs),
    ensures
        all_sorted(hydrated(c, txs)),
        hydrated(c, txs).inputs.no_duplicates(),
        hydrated(c, txs).outputs.no_duplicates(),
        hydrated(c, txs).kernels.no_duplicates(),
        hydrated(c, txs).header == c.header,
{
    let b = collected(c, txs);
    lemma_valid_of_both::<Output>(all_outputs(txs), c.out_full);
    lemma_valid_of_both::<TxKernel>(all_kernels(txs), c.kern_full);
    lemma_set_form::<Input>(all_inputs(txs));
    lemma_set_form::<Output>(all_outputs(txs) + c.out_full);
    lemma_set_form::<TxKernel>(all_kernels(txs) + c.kern_full);
    lemma_strictly_sorted::<Input>(b.inputs);
    lemma_strictly_sorted::<Output>(b.outputs);
    lemma_strictly_sorted::<TxKernel>(b.kernels);
    law_cut_through_keeps_order(b);
    lemma_filter_no_duplicates(b.inputs, inputs_left(b));
    lemma_filter_no_duplicates(b.outputs, outputs_left(b));
}

/// A block whose lists are strictly in order, and that spends none of its own outputs, is
/// given back by hydrating its compact block with transactions that hold its inputs, its
/// outputs and kernels but those of the reward, and nothing that the block does not hold.
pub proof fn law_hydrate_gives_back_the_block(
    b: BlockData,
    nonce: u64,
    txs: Seq<TransactionData>,
)
    requires
        valid_items(b),
        valid_transactions(txs),
        strictly_sorted::<Input>(b.inputs),
        strictly_sorted::<Output>(b.outputs),
        strictly_sorted::<TxKernel>(b.kernels),
        forall|commit: Seq<u8>| !#[trigger] cut(b, commit),
        forall|v: InputData| #[trigger] all_inputs(txs).contains(v) <==> b.inputs.contains(v),
        forall|v: OutputData| #[trigger] all_outputs(txs).contains(v) ==> b.outputs.contains(v),
        forall|v: OutputData| #[trigger]
            b.outputs.contains(v) && v.features == OutputFeatures::Plain ==> all_outputs(
                txs,
            ).contains(v),
        forall|v: KernelData| #[trigger] all_kernels(txs).contains(v) ==> b.kernels.contains(v),
        forall|v: KernelData| #[trigger]
            b.kernels.contains(v) && v.features == KernelFeatures::Plain ==> all_kernels(
                txs,
            ).contains(v),
    ensures
        hydrated(compact_of(b, nonce), txs) == b,
{
    let c = compact_of(b, nonce);
    let outs = all_outputs(txs) + c.out_full;
    let kerns = all_kernels(txs) + c.kern_full;
    lemma_full_lists(b, nonce);
    lemma_valid_of_both::<Output>(all_outputs(txs), c.out_full);
    lemma_valid_of_both::<TxKernel>(all_kernels(txs), c.kern_full);
    assert forall|v: InputData| #[trigger]
        b.inputs.contains(v) <==> all_inputs(txs).contains(v) by {
        assert(all_inputs(txs).contains(v) <==> b.inputs.contains(v));
    }
    assert forall|v: OutputData| #[trigger] b.outputs.contains(v) <==> outs.contains(v) by {
        lemma_contains_of_both(all_outputs(txs), c.out_full, v);
        assert(c.out_full.contains(v) <==> (b.outputs.contains(v) && v.features
            == OutputFeatures::Coinbase));
    }
    assert forall|v: KernelData| #[trigger] b.kernels.contains(v) <==> kerns.contains(v) by {
        lemma_contains_of_both(all_kernels(txs), c.kern_full, v);
        assert(c.kern_full.contains(v) <==> (b.kernels.contains(v) && v.features
            == KernelFeatures::Coinbase));
    }
    lemma_is_the_set_form::<Input>(all_inputs(txs), b.inputs);
    lemma_is_the_set_form::<Output>(outs, b.outputs);
    lemma_is_the_set_form::<TxKernel>(kerns, b.kernels);
    law_nothing_to_cut(b);
}

/// A block that was built from transactions and a reward is given back by hydrating its
/// compact block with the same transactions, if nothing occurs in them twice.
pub proof fn law_hydrate_gives_back_what_was_built(
    proof_size: nat,
    d: BuildData,
    offset: Seq<u8>,
    timestamp: i64,
    nonce: u64,
)
    requires
        valid_build(d.txs, d.reward_out, d.reward_kern),
        d.reward_out.features == OutputFeatures::Coinbase,
        d.reward_kern.features == KernelFeatures::Coinbase,
        all_inputs(transactions_of(d.txs)).no_duplicates(),
        all_outputs(transactions_of(d.txs)).push(d.reward_out).no_duplicates(),
        all_kernels(transactions_of(d.txs)).push(d.reward_kern).no_duplicates(),
    ensures
        ({
            let b = cut_through_of(gathered(proof_size, d, offset, timestamp));
            hydrated(compact_of(b, nonce), transactions_of(d.txs)) == b
        }),
{
    let txs = transactions_of(d.txs);
    let g = gathered(proof_size, d, offset, timestamp);
    let b = cut_through_of(g);
    let c = compact_of(b, nonce);
    let made = all_outputs(txs).push(d.reward_out);
    let proved = all_kernels(txs).push(d.reward_kern);
    lemma_sorted_form::<Input>(all_inputs(txs));
    lemma_sorted_form::<Output>(made);
    lemma_sorted_form::<TxKernel>(proved);
    lemma_filter_valid::<Input>(g.inputs, inputs_left(g));
    lemma_filter_valid::<Output>(g.outputs, outputs_left(g));
    lemma_full_lists(b, nonce);
    law_cut_through_keeps_coinbase(g);
    assert forall|i: int| 0 <= i < all_outputs(txs).len() implies Output::valid(
        #[trigger] all_outputs(txs)[i],
    ) by {
        assert(made[i] == all_outputs(txs)[i]);
    }
    assert forall|i: int| 0 <= i < all_kernels(txs).len() implies TxKernel::valid(
        #[trigger] all_kernels(txs)[i],
    ) by {
        assert(proved[i] == all_kernels(txs)[i]);
    }
    lemma_valid_of_both::<Output>(all_outputs(txs), c.out_full);
    lemma_valid_of_both::<TxKernel>(all_kernels(txs), c.kern_full);
    let coinbase = |o: OutputData| o.features == OutputFeatures::Coinbase;
    assert forall|v: OutputData| #[trigger]
        (all_outputs(txs) + c.out_full).contains(v) <==> made.contains(v) by {
        lemma_contains_of_both(all_outputs(txs), c.out_full, v);
        assert(made =~= all_outputs(txs) + seq![d.reward_out]);
        lemma_contains_of_both(all_outputs(txs), seq![d.reward_out], v);
        assert(seq![d.reward_out].contains(v) <==> v == d.reward_out) by {
            assert(seq![d.reward_out][0] == d.reward_out);
        }
        lemma_filter_contains(b.outputs, coinbase, v);
        lemma_filter_contains(g.outputs, coinbase, v);
        lemma_contains_multiset(g.outputs, made, v);
        assert(c.out_full.contains(v) <==> (b.outputs.contains(v) && v.features
            == OutputFeatures::Coinbase));
    }
    assert forall|v: KernelData| #[trigger]
        (all_kernels(txs) + c.kern_full).contains(v) <==> proved.contains(v) by {
        lemma_contains_of_both(all_kernels(txs), c.kern_full, v);
        assert(proved =~= all_kernels(txs) + seq![d.reward_kern]);
        lemma_contains_of_both(all_kernels(txs), seq![d.reward_kern], v);
        assert(seq![d.reward_kern].contains(v) <==> v == d.reward_kern) by {
            assert(seq![d.reward_kern][0] == d.reward_kern);
        }
        lemma_contains_multiset(g.kernels, proved, v);
        assert(c.kern_full.contains(v) <==> (b.kernels.contains(v) && v.features
            == KernelFeatures::Coinbase));
    }
    lemma_set_form_of_distinct::<Input>(all_inputs(txs), all_inputs(txs));
    lemma_set_form_of_distinct::<Output>(all_outputs(txs) + c.out_full, made);
    lemma_set_form_of_distinct::<TxKernel>(all_kernels(txs) + c.kern_full, proved);
    assert(collected(c, txs) == g);
}

} // verus!
