//! What the views of values hold: every field, and every item of every list.

use vstd::prelude::*;
use crate::block::Block;
use crate::compact::CompactBlock;
use crate::hash::ShortId;
use crate::header::{BlockHeader, Proof};
use crate::order::views;
use crate::secp::{BlindingFactor, Commitment, Signature};
use crate::transaction::{Candidate, Input, Output, SwitchCommitHash, Transaction, TxKernel};

verus! {

/// The view of a list has the view of each item, in its place.
pub proof fn law_views<T: View>(items: Seq<T>)
    ensures
        views(items).len() == items.len(),
        forall|i: int| 0 <= i < items.len() ==> views(items)[i] == (#[trigger] items[i])@,
{
}

/// The views of hashes, commitments, keys, signatures and short ids are their bytes, and that of a
/// proof of work its nonces.
pub proof fn law_byte_views(
    hash: crate::hash::Hash,
    id: ShortId,
    commit: Commitment,
    factor: BlindingFactor,
    sig: Signature,
    switch_commit_hash: SwitchCommitHash,
    pow: Proof,
)
    ensures
        hash@ == hash.bytes@,
        id@ == id.bytes@,
        commit@ == commit.bytes@,
        factor@ == factor.bytes@,
        sig@ == sig.bytes@,
        switch_commit_hash@ == switch_commit_hash.bytes@,
        pow@ == pow.nonces@,
{
}

/// The view of an input has its features and the bytes of its commitment.
pub proof fn law_input_view(x: Input)
    ensures
        x@.features == x.features,
        x@.commit == x.commit.bytes@,
{
}

/// The view of an output has its features, the bytes of its commitment and of the hash of its
/// switch commitment, and its range proof.
pub proof fn law_output_view(x: Output)
    ensures
        x@.features == x.features,
        x@.commit == x.commit.bytes@,
        x@.switch_commit_hash == x.switch_commit_hash.bytes@,
        x@.proof == x.proof@,
{
}

/// The view of a kernel has all that it holds.
pub proof fn law_kernel_view(x: TxKernel)
    ensures
        x@.features == x.features,
        x@.fee == x.fee,
        x@.lock_height == x.lock_height,
        x@.excess == x.excess.bytes@,
        x@.excess_sig == x.excess_sig.bytes@,
{
}

/// The view of a header has all that it holds.
pub proof fn law_header_view(h: BlockHeader)
    ensures
        h@.version == h.version,
        h@.height == h.height,
        h@.previous == h.previous.bytes@,
        h@.timestamp == h.timestamp,
        h@.utxo_root == h.utxo_root.bytes@,
        h@.range_proof_root == h.range_proof_root.bytes@,
        h@.kernel_root == h.kernel_root.bytes@,
        h@.nonce == h.nonce,
        h@.pow == h.pow.nonces@,
        h@.difficulty == h.difficulty.num,
        h@.total_difficulty == h.total_difficulty.num,
        h@.kernel_offset == h.kernel_offset.bytes@,
{
}

/// The view of a block has the views of its header and of all items, in their places.
pub proof fn law_block_view(b: Block)
    ensures
        b@.header == b.header@,
        b@.inputs.len() == b.inputs@.len(),
        b@.outputs.len() == b.outputs@.len(),
        b@.kernels.len() == b.kernels@.len(),
        forall|i: int| 0 <= i < b.inputs@.len() ==> b@.inputs[i] == (#[trigger] b.inputs@[i])@,
        forall|i: int| 0 <= i < b.outputs@.len() ==> b@.outputs[i] == (#[trigger] b.outputs@[i])@,
        forall|i: int| 0 <= i < b.kernels@.len() ==> b@.kernels[i] == (#[trigger] b.kernels@[i])@,
{
}

/// The view of a compact block has the views of its header and of all items, in their places.
pub proof fn law_compact_view(c: CompactBlock)
    ensures
        c@.header == c.header@,
        c@.nonce == c.nonce,
        c@.out_full.len() == c.out_full@.len(),
        c@.kern_full.len() == c.kern_full@.len(),
        c@.kern_ids.len() == c.kern_ids@.len(),
        forall|i: int|
            0 <= i < c.out_full@.len() ==> c@.out_full[i] == (#[trigger] c.out_full@[i])@,
        forall|i: int|
            0 <= i < c.kern_full@.len() ==> c@.kern_full[i] == (#[trigger] c.kern_full@[i])@,
        forall|i: int|
            0 <= i < c.kern_ids@.len() ==> c@.kern_ids[i] == (#[trigger] c.kern_ids@[i]).bytes@,
{
}

/// The view of a transaction has the views of all items, in their places, and the offset.
pub proof fn law_transaction_view(t: Transaction)
    ensures
        t@.offset == t.offset.bytes@,
        t@.inputs.len() == t.inputs@.len(),
        t@.outputs.len() == t.outputs@.len(),
        t@.kernels.len() == t.kernels@.len(),
        forall|i: int| 0 <= i < t.inputs@.len() ==> t@.inputs[i] == (#[trigger] t.inputs@[i])@,
        forall|i: int| 0 <= i < t.outputs@.len() ==> t@.outputs[i] == (#[trigger] t.outputs@[i])@,
        forall|i: int| 0 <= i < t.kernels@.len() ==> t@.kernels[i] == (#[trigger] t.kernels@[i])@,
{
}

/// The view of a candidate has its transaction and the verdict on it.
pub proof fn law_candidate_view(c: Candidate)
    ensures
        c@.tx == c.tx@,
        c@.verdict == c.verdict,
{
}

} // verus!
