//! What the order of items is, and what lists of transactions hold.

use vstd::prelude::*;
use crate::block::{input_commits, output_commits};
use crate::order::{
    all_valid, lemma_set_form, lemma_sorted_form, lex_le, set_form, sorted_form, Wire,
};
use crate::transaction::{
    all_inputs, all_kernels, all_outputs, CandidateData, InputData, KernelData, OutputData,
    TransactionData,
};
use crate::validate::excesses;

verus! {

/// Bytes are ordered by the first place at which they differ, however far behind it stands. Where
/// there is none, the shorter come first.
pub proof fn law_order_is_lexicographic(a: Seq<u8>, b: Seq<u8>)
    ensures
        lex_le(a, b) <==> (a.len() <= b.len() && b.take(a.len() as int) == a) || exists|k: int|
            0 <= k < a.len() && k < b.len() && #[trigger] a[k] < b[k] && a.take(k) == b.take(k),
    decreases a.len(),
{
    if a.len() == 0 {
        assert(b.take(0) =~= a);
    } else if b.len() > 0 {
        let a1 = a.skip(1);
        let b1 = b.skip(1);
        law_order_is_lexicographic(a1, b1);
        if a[0] != b[0] {
            if a[0] < b[0] {
                assert(a.take(0) =~= b.take(0));
            }
            assert forall|k: int| 0 <= k < a.len() && k < b.len() && #[trigger] a[k] < b[k]
                && a.take(k) == b.take(k) implies a[0] < b[0] by {
                if k > 0 {
                    assert(a.take(k)[0] == a[0]);
                    assert(b.take(k)[0] == b[0]);
                }
            }
            if a.len() <= b.len() && b.take(a.len() as int) == a {
                assert(b.take(a.len() as int)[0] == b[0]);
            }
        } else {
            if a1.len() <= b1.len() && b1.take(a1.len() as int) == a1 {
                assert forall|i: int| 0 <= i < a.len() implies b.take(a.len() as int)[i]
                    == #[trigger] a[i] by {
                    if i > 0 {
                        assert(b1.take(a1.len() as int)[i - 1] == a1[i - 1]);
                    }
                }
                assert(b.take(a.len() as int) =~= a);
            }
            if exists|k: int|
                0 <= k < a1.len() && k < b1.len() && #[trigger] a1[k] < b1[k] && a1.take(k)
                    == b1.take(k) {
                let k = choose|k: int|
                    0 <= k < a1.len() && k < b1.len() && #[trigger] a1[k] < b1[k] && a1.take(k)
                        == b1.take(k);
                assert forall|i: int| 0 <= i < k + 1 implies a.take(k + 1)[i] == #[trigger] b.take(
                    k + 1,
                )[i] by {
                    if i > 0 {
                        assert(a1.take(k)[i - 1] == b1.take(k)[i - 1]);
                    }
                }
                assert(a.take(k + 1) =~= b.take(k + 1));
                assert(a[k + 1] < b[k + 1]);
            }
            if a.len() <= b.len() && b.take(a.len() as int) == a {
                assert forall|i: int| 0 <= i < a1.len() implies b1.take(a1.len() as int)[i]
                    == #[trigger] a1[i] by {
                    assert(b.take(a.len() as int)[i + 1] == a[i + 1]);
                }
                assert(b1.take(a1.len() as int) =~= a1);
            }
            if exists|k: int|
                0 <= k < a.len() && k < b.len() && #[trigger] a[k] < b[k] && a.take(k) == b.take(
                    k,
                ) {
                let k = choose|k: int|
                    0 <= k < a.len() && k < b.len() && #[trigger] a[k] < b[k] && a.take(k)
                        == b.take(k);
                assert forall|i: int| 0 <= i < k - 1 implies a1.take(k - 1)[i]
                    == #[trigger] b1.take(k - 1)[i] by {
                    assert(a.take(k)[i + 1] == b.take(k)[i + 1]);
                }
                assert(a1.take(k - 1) =~= b1.take(k - 1));
                assert(a1[k - 1] < b1[k - 1]);
            }
        }
    }
}

/// Putting a list in order keeps what it holds, each item as often.
pub proof fn law_sorted_list<T: Wire>(s: Seq<T::V>)
    requires
        all_valid::<T>(s),
    ensures
        sorted_form::<T>(s).to_multiset() == s.to_multiset(),
        forall|i: int, j: int|
            0 <= i < j < sorted_form::<T>(s).len() ==> lex_le(
                #[trigger] T::encode(sorted_form::<T>(s)[i]),
                #[trigger] T::encode(sorted_form::<T>(s)[j]),
            ),
{
    lemma_sorted_form::<T>(s);
}

/// Putting the distinct items of a list in order keeps what it holds, each item once.
pub proof fn law_distinct_list<T: Wire>(s: Seq<T::V>)
    requires
        all_valid::<T>(s),
    ensures
        forall|v: T::V| #[trigger] set_form::<T>(s).contains(v) <==> s.contains(v),
        set_form::<T>(s).no_duplicates(),
        forall|i: int, j: int|
            0 <= i < j < set_form::<T>(s).len() ==> lex_le(
                #[trigger] T::encode(set_form::<T>(s)[i]),
                #[trigger] T::encode(set_form::<T>(s)[j]),
            ),
{
    lemma_set_form::<T>(s);
}

/// The commitments of items are those of all of them, in their places.
pub proof fn law_commitments_of_items(
    inputs: Seq<InputData>,
    outputs: Seq<OutputData>,
    kernels: Seq<KernelData>,
)
    ensures
        input_commits(inputs) == inputs.map_values(|x: InputData| x.commit),
        output_commits(outputs) == outputs.map_values(|x: OutputData| x.commit),
        excesses(kernels) == kernels.map_values(|x: KernelData| x.excess),
{
    assert(input_commits(inputs) =~= inputs.map_values(|x: InputData| x.commit));
    assert(output_commits(outputs) =~= outputs.map_values(|x: OutputData| x.commit));
    assert(excesses(kernels) =~= kernels.map_values(|x: KernelData| x.excess));
}

/// The items of transactions are those of all of them, one transaction after the other, however
/// many there are.
pub proof fn law_items_of_transactions(txs: Seq<TransactionData>)
    ensures
        all_inputs(txs) == txs.fold_left(
            Seq::<InputData>::empty(),
            (|all: Seq<InputData>, t: TransactionData| all + t.inputs),
        ),
        all_outputs(txs) == txs.fold_left(
            Seq::<OutputData>::empty(),
            (|all: Seq<OutputData>, t: TransactionData| all + t.outputs),
        ),
        all_kernels(txs) == txs.fold_left(
            Seq::<KernelData>::empty(),
            (|all: Seq<KernelData>, t: TransactionData| all + t.kernels),
        ),
    decreases txs.len(),
{
    if txs.len() > 0 {
        law_items_of_transactions(txs.drop_last());
    }
}

/// The items of candidates are those of their transactions.
pub proof fn law_items_of_candidates(txs: Seq<CandidateData>)
    ensures
        all_inputs(crate::mining::transactions_of(txs)) == txs.fold_left(
            Seq::<InputData>::empty(),
            (|all: Seq<InputData>, t: CandidateData| all + t.tx.inputs),
        ),
        all_outputs(crate::mining::transactions_of(txs)) == txs.fold_left(
            Seq::<OutputData>::empty(),
            (|all: Seq<OutputData>, t: CandidateData| all + t.tx.outputs),
        ),
        all_kernels(crate::mining::transactions_of(txs)) == txs.fold_left(
            Seq::<KernelData>::empty(),
            (|all: Seq<KernelData>, t: CandidateData| all + t.tx.kernels),
        ),
    decreases txs.len(),
{
    if txs.len() > 0 {
        law_items_of_candidates(txs.drop_last());
        assert(crate::mining::transactions_of(txs).drop_last()
            =~= crate::mining::transactions_of(txs.drop_last()));
    }
}

} // verus!
