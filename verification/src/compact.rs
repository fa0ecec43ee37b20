//! Compact blocks, which name most of their kernels by short ids.

use vstd::prelude::*;
use crate::block::{
    counts_bytes, cut_through_of, inputs_left, kernels_with, outputs_left, outputs_with,
    read_counts, valid_block, write_counts, Block, BlockData,
};
use crate::filters::{lemma_filter_no_duplicates, lemma_filter_valid, lemma_strictly_sorted};
use crate::hash::{blake2b_256, hash_bytes, siphash_2_4, ShortId};
use crate::header::{
    hashed_header, header_bytes, parse_header, valid_header, BlockHeader, HeaderData,
};
use crate::laws::compacting::law_hydrated_contents;
use crate::laws::cutting::law_cut_through_keeps_order;
use crate::order::{
    all_valid, append_all, duplicate_all, encode_all, lex_le, parse_sorted, read_and_verify_sorted,
    set_form, sort, sort_distinct, sorted_form, strictly_sorted, views, write_sorted,
    Wire,
};
use crate::ser::{be_bytes, be_value, Reader, SerError, SerializationMode, Writer};
use crate::transaction::{
    all_inputs, all_kernels, all_outputs, kernel_short_id, Input, InputData, KernelData,
    KernelFeatures,
    Output, OutputData, OutputFeatures, Transaction, TransactionData, TxKernel,
};
use crate::validate::all_sorted;

verus! {

/// Compact representation of a full block. Each kernel that is not that of a reward is
/// represented as a short id. A node is reasonably likely to have already seen all transaction
/// data (transactions are broadcast before the block) and can go request missing data from
/// peers if necessary to hydrate a compact block into a full block.
#[derive(Debug, PartialEq)]
pub struct CompactBlock {
    /// The header with metadata and commitments to the rest of the data.
    pub header: BlockHeader,
    /// Nonce for connection specific short ids.
    pub nonce: u64,
    /// List of full outputs - specifically the coinbase output(s).
    pub out_full: Vec<Output>,
    /// List of full kernels - specifically the coinbase kernel(s).
    pub kern_full: Vec<TxKernel>,
    /// List of transaction kernels, excluding those in the full list (short ids).
    pub kern_ids: Vec<ShortId>,
}

/// What a [`CompactBlock`] holds.
pub struct CompactData {
    pub header: HeaderData,
    pub nonce: u64,
    pub out_full: Seq<OutputData>,
    pub kern_full: Seq<KernelData>,
    pub kern_ids: Seq<Seq<u8>>,
}

impl View for CompactBlock {
    type V = CompactData;

    open spec fn view(&self) -> CompactData {
        CompactData {
            header: self.header@,
            nonce: self.nonce,
            out_full: views(self.out_full@),
            kern_full: views(self.kern_full@),
            kern_ids: views(self.kern_ids@),
        }
    }
}

/// Whether `c` is the view of some compact block, of whatever size.
pub open spec fn valid_compact(c: CompactData) -> bool {
    &&& valid_header(c.header)
    &&& all_valid::<Output>(c.out_full)
    &&& all_valid::<TxKernel>(c.kern_full)
    &&& all_valid::<ShortId>(c.kern_ids)
}

impl Clone for CompactBlock {
    fn clone(&self) -> (r: CompactBlock)
        ensures
            r@ == self@,
    {
        CompactBlock {
            header: self.header.clone(),
            nonce: self.nonce,
            out_full: duplicate_all(&self.out_full),
            kern_full: duplicate_all(&self.kern_full),
            kern_ids: duplicate_all(&self.kern_ids),
        }
    }
}

/// What the hash that keys short ids is made of: the header and the nonce.
pub open spec fn nonce_hash(h: HeaderData, nonce: u64) -> Seq<u8> {
    blake2b_256(hashed_header(h) + be_bytes(nonce as nat, 8))
}

/// The binary form of a compact block. What a hash is made of are the header and the nonce;
/// the full form has all lists in lexicographic order.
pub open spec fn compact_bytes(c: CompactData, mode: SerializationMode) -> Seq<u8> {
    match mode {
        SerializationMode::Hash => header_bytes(c.header, mode) + be_bytes(c.nonce as nat, 8),
        SerializationMode::Full => header_bytes(c.header, mode) + be_bytes(c.nonce as nat, 8)
            + counts_bytes(c.out_full.len(), c.kern_full.len(), c.kern_ids.len()) + encode_all::<
            Output,
        >(sorted_form::<Output>(c.out_full)) + encode_all::<TxKernel>(
            sorted_form::<TxKernel>(c.kern_full),
        ) + encode_all::<ShortId>(sorted_form::<ShortId>(c.kern_ids)),
    }
}

/// The compact block that `s` starts with, and what follows it. Lists that are not in order
/// are refused.
pub open spec fn parse_compact(s: Seq<u8>, proof_size: nat) -> Result<
    (CompactData, Seq<u8>),
    SerError,
> {
    match parse_header(s, proof_size) {
        Err(e) => Err(e),
        Ok((header, s0)) => if s0.len() < 32 {
            Err(SerError::UnexpectedEof)
        } else {
            let nonce = be_value(s0.subrange(0, 8)) as u64;
            let s1 = s0.skip(8);
            match parse_sorted::<Output>(s1.skip(24), be_value(s1.subrange(0, 8))) {
                Err(e) => Err(e),
                Ok((out_full, s2)) => match parse_sorted::<TxKernel>(
                    s2,
                    be_value(s1.subrange(8, 16)),
                ) {
                    Err(e) => Err(e),
                    Ok((kern_full, s3)) => match parse_sorted::<ShortId>(
                        s3,
                        be_value(s1.subrange(16, 24)),
                    ) {
                        Err(e) => Err(e),
                        Ok((kern_ids, rest)) => Ok(
                            (CompactData { header, nonce, out_full, kern_full, kern_ids }, rest),
                        ),
                    },
                },
            }
        },
    }
}

/// The short ids of some kernels in the block that `block` is the hash of.
pub open spec fn short_ids(kernels: Seq<KernelData>, block: Seq<u8>) -> Seq<Seq<u8>> {
    Seq::new(kernels.len(), |i: int| kernel_short_id(kernels[i], block))
}

/// The compact block for a block and a nonce.
pub open spec fn compact_of(b: BlockData, nonce: u64) -> CompactData {
    CompactData {
        header: b.header,
        nonce,
        out_full: sorted_form::<Output>(outputs_with(b.outputs, OutputFeatures::Coinbase)),
        kern_full: sorted_form::<TxKernel>(kernels_with(b.kernels, KernelFeatures::Coinbase)),
        kern_ids: sorted_form::<ShortId>(
            short_ids(
                kernels_with(b.kernels, KernelFeatures::Plain),
                nonce_hash(b.header, nonce),
            ),
        ),
    }
}

/// The block with all that some transactions hold and what a compact block holds in full,
/// each item once and in order.
pub open spec fn collected(c: CompactData, txs: Seq<TransactionData>) -> BlockData {
    BlockData {
        header: c.header,
        inputs: set_form::<Input>(all_inputs(txs)),
        outputs: set_form::<Output>(all_outputs(txs) + c.out_full),
        kernels: set_form::<TxKernel>(all_kernels(txs) + c.kern_full),
    }
}

/// The block for a compact block and its transactions.
pub open spec fn hydrated(c: CompactData, txs: Seq<TransactionData>) -> BlockData {
    cut_through_of(collected(c, txs))
}

proof fn lemma_strictly_sorted_after_cut(b: BlockData)
    requires
        strictly_sorted::<Input>(b.inputs),
        strictly_sorted::<Output>(b.outputs),
        strictly_sorted::<TxKernel>(b.kernels),
        valid_block(b),
    ensures
        all_sorted(cut_through_of(b)),
        valid_block(cut_through_of(b)),
        cut_through_of(b).inputs.no_duplicates(),
        cut_through_of(b).outputs.no_duplicates(),
        cut_through_of(b).kernels.no_duplicates(),
{
    law_cut_through_keeps_order(b);
    lemma_strictly_sorted::<Input>(b.inputs);
    lemma_strictly_sorted::<Output>(b.outputs);
    lemma_strictly_sorted::<TxKernel>(b.kernels);
    lemma_filter_no_duplicates(b.inputs, inputs_left(b));
    lemma_filter_no_duplicates(b.outputs, outputs_left(b));
    lemma_filter_valid::<Input>(b.inputs, inputs_left(b));
    lemma_filter_valid::<Output>(b.outputs, outputs_left(b));
}

/// Draws a number with `rand::Rng::next_u64` from `rand::thread_rng`. Nothing is known of it.
#[verifier::external_body]
fn random_nonce() -> (r: u64) {
    rand::Rng::next_u64(&mut rand::thread_rng())
}

impl CompactBlock {
    /// Appends the binary form. Differentiates between writing the block for the purpose of
    /// full serialization and the one of just extracting a hash, which uses both the header
    /// and the nonce.
    pub fn write(&self, writer: &mut Writer)
        ensures
            final(writer)@ == old(writer)@ + compact_bytes(self@, old(writer).purpose()),
            final(writer).purpose() == old(writer).purpose(),
    {
        self.header.write(writer);
        writer.write_u64(self.nonce);
        assert(writer@ =~= old(writer)@ + (header_bytes(self@.header, old(writer).purpose())
            + be_bytes(self.nonce as nat, 8)));
        if writer.serialization_mode() != SerializationMode::Hash {
            write_counts(writer, self.out_full.len(), self.kern_full.len(), self.kern_ids.len());
            write_sorted(&self.out_full, writer);
            write_sorted(&self.kern_full, writer);
            write_sorted(&self.kern_ids, writer);
            assert(writer@ =~= old(writer)@ + compact_bytes(self@, SerializationMode::Full));
        }
    }

    /// Takes a compact block from the front of what is still to be read.
    pub fn read(reader: &mut Reader, proof_size: usize) -> (r: Result<CompactBlock, SerError>)
        ensures
            match r {
                Ok(block) => parse_compact(old(reader)@, proof_size as nat) == Ok::<
                    (CompactData, Seq<u8>),
                    SerError,
                >((block@, final(reader)@)),
                Err(e) => parse_compact(old(reader)@, proof_size as nat) == Err::<
                    (CompactData, Seq<u8>),
                    SerError,
                >(e),
            },
    {
        let header = match BlockHeader::read(reader, proof_size) {
            Ok(header) => header,
            Err(e) => return Err(e),
        };
        let ghost s0 = reader@;
        let nonce: u64 = match reader.read_u64() {
            Ok(nonce) => nonce,
            Err(e) => return Err(e),
        };
        assert(s0.take(8) =~= s0.subrange(0, 8));
        let (out_full_len, kern_full_len, kern_id_len) = match read_counts(reader) {
            Ok(counts) => counts,
            Err(e) => return Err(e),
        };
        let out_full = match read_and_verify_sorted::<Output>(reader, out_full_len) {
            Ok(out_full) => out_full,
            Err(e) => return Err(e),
        };
        let kern_full = match read_and_verify_sorted::<TxKernel>(reader, kern_full_len) {
            Ok(kern_full) => kern_full,
            Err(e) => return Err(e),
        };
        let kern_ids = match read_and_verify_sorted::<ShortId>(reader, kern_id_len) {
            Ok(kern_ids) => kern_ids,
            Err(e) => return Err(e),
        };
        Ok(CompactBlock { header, nonce, out_full, kern_full, kern_ids })
    }

    /// The hash of the compact block, computed using the header and the nonce.
    pub fn hash(&self) -> (r: crate::hash::Hash)
        ensures
            r@ == nonce_hash(self@.header, self@.nonce),
            r@ == blake2b_256(hashed_header(self@.header) + be_bytes(self@.nonce as nat, 8)),
    {
        let mut writer = Writer::new(SerializationMode::Hash);
        self.write(&mut writer);
        let bytes = writer.into_bytes();
        assert(bytes@ =~= hashed_header(self@.header) + be_bytes(self.nonce as nat, 8));
        hash_bytes(&bytes)
    }
}

impl Block {
    /// The hash of the header and a nonce, which keys the short ids of a compact block.
    pub fn hash_with_nonce(&self, nonce: u64) -> (r: crate::hash::Hash)
        ensures
            r@ == nonce_hash(self@.header, nonce),
            r@ == blake2b_256(hashed_header(self@.header) + be_bytes(nonce as nat, 8)),
    {
        let mut writer = Writer::new(SerializationMode::Hash);
        self.write(&mut writer);
        writer.write_u64(nonce);
        let bytes = writer.into_bytes();
        assert(bytes@ =~= hashed_header(self@.header) + be_bytes(nonce as nat, 8));
        hash_bytes(&bytes)
    }

    /// Generate the compact block representation, with short ids for a random nonce.
    pub fn as_compact_block(&self) -> (r: CompactBlock)
        ensures
            r@ == compact_of(self@, r@.nonce),
            ({
                let key = blake2b_256(hashed_header(self@.header) + be_bytes(r@.nonce as nat, 8));
                let id = |k: KernelData|
                    be_bytes(
                        siphash_2_4(
                            be_value(key.subrange(0, 8).reverse()) as u64,
                            be_value(key.subrange(8, 16).reverse()) as u64,
                            blake2b_256(TxKernel::encode(k)),
                        ) as nat,
                        8,
                    ).reverse().take(6);
                &&& r@.header == self@.header
                &&& r@.nonce == r@.nonce
                &&& r@.out_full.to_multiset() == self@.outputs.filter(
                    |x: OutputData| x.features == OutputFeatures::Coinbase,
                ).to_multiset()
                &&& r@.kern_full.to_multiset() == self@.kernels.filter(
                    |x: KernelData| x.features == KernelFeatures::Coinbase,
                ).to_multiset()
                &&& r@.kern_ids.to_multiset() == self@.kernels.filter(
                    |x: KernelData| x.features == KernelFeatures::Plain,
                ).map_values(id).to_multiset()
                &&& forall|i: int, j: int|
                    0 <= i < j < r@.out_full.len() ==> lex_le(
                        #[trigger] Output::encode(r@.out_full[i]),
                        #[trigger] Output::encode(r@.out_full[j]),
                    )
                &&& forall|i: int, j: int|
                    0 <= i < j < r@.kern_full.len() ==> lex_le(
                        #[trigger] TxKernel::encode(r@.kern_full[i]),
                        #[trigger] TxKernel::encode(r@.kern_full[j]),
                    )
                &&& forall|i: int, j: int|
                    0 <= i < j < r@.kern_ids.len() ==> lex_le(
                        #[trigger] ShortId::encode(r@.kern_ids[i]),
                        #[trigger] ShortId::encode(r@.kern_ids[j]),
                    )
            }),
    {
        self.as_compact_block_with(random_nonce())
    }

    /// Generate the compact block representation, with short ids for the given nonce.
    pub fn as_compact_block_with(&self, nonce: u64) -> (r: CompactBlock)
        ensures
            r@ == compact_of(self@, nonce),
            ({
                let key = blake2b_256(hashed_header(self@.header) + be_bytes(nonce as nat, 8));
                let id = |k: KernelData|
                    be_bytes(
                        siphash_2_4(
                            be_value(key.subrange(0, 8).reverse()) as u64,
                            be_value(key.subrange(8, 16).reverse()) as u64,
                            blake2b_256(TxKernel::encode(k)),
                        ) as nat,
                        8,
                    ).reverse().take(6);
                &&& r@.header == self@.header
                &&& r@.nonce == nonce
                &&& r@.out_full.to_multiset() == self@.outputs.filter(
                    |x: OutputData| x.features == OutputFeatures::Coinbase,
                ).to_multiset()
                &&& r@.kern_full.to_multiset() == self@.kernels.filter(
                    |x: KernelData| x.features == KernelFeatures::Coinbase,
                ).to_multiset()
                &&& r@.kern_ids.to_multiset() == self@.kernels.filter(
                    |x: KernelData| x.features == KernelFeatures::Plain,
                ).map_values(id).to_multiset()
                &&& forall|i: int, j: int|
                    0 <= i < j < r@.out_full.len() ==> lex_le(
                        #[trigger] Output::encode(r@.out_full[i]),
                        #[trigger] Output::encode(r@.out_full[j]),
                    )
                &&& forall|i: int, j: int|
                    0 <= i < j < r@.kern_full.len() ==> lex_le(
                        #[trigger] TxKernel::encode(r@.kern_full[i]),
                        #[trigger] TxKernel::encode(r@.kern_full[j]),
                    )
                &&& forall|i: int, j: int|
                    0 <= i < j < r@.kern_ids.len() ==> lex_le(
                        #[trigger] ShortId::encode(r@.kern_ids[i]),
                        #[trigger] ShortId::encode(r@.kern_ids[j]),
                    )
            }),
    {
        let hash = self.hash_with_nonce(nonce);
        let out_full = self.coinbase_outputs();
        let (kern_full, kern_ids) = self.split_kernels(&hash);
        CompactBlock {
            header: self.header.clone(),
            nonce,
            out_full: sort(&out_full),
            kern_full: sort(&kern_full),
            kern_ids: sort(&kern_ids),
        }
    }

    /// The outputs of the reward.
    pub fn coinbase_outputs(&self) -> (r: Vec<Output>)
        ensures
            views(r@) == outputs_with(self@.outputs, OutputFeatures::Coinbase),
            views(r@) == self@.outputs.filter(
                |x: OutputData| x.features == OutputFeatures::Coinbase,
            ),
    {
        let ghost all = self@.outputs;
        let ghost wanted = |o: OutputData| o.features == OutputFeatures::Coinbase;
        let mut r: Vec<Output> = Vec::new();
        let mut i: usize = 0;
        assert(views(r@) =~= all.take(0).filter(wanted)) by {
            reveal(Seq::filter);
        }
        while i < self.outputs.len()
            invariant
                i <= self.outputs@.len(),
                all == self@.outputs,
                wanted == (|o: OutputData| o.features == OutputFeatures::Coinbase),
                views(r@) == all.take(i as int).filter(wanted),
            decreases self.outputs@.len() - i,
        {
            let ghost before = views(r@);
            proof {
                assert(all.take(i + 1) =~= all.take(i as int).push(all[i as int]));
                all.take(i as int).lemma_filter_push(all[i as int], wanted);
            }
            if self.outputs[i].features.contains(OutputFeatures::Coinbase) {
                r.push(self.outputs[i].duplicate());
                assert(views(r@) =~= before.push(all[i as int]));
            }
            i += 1;
        }
        assert(all.take(i as int) =~= all);
        r
    }

    /// Parts the kernels: those of the reward in full, the others by their short ids in the
    /// block that `hash` is the hash of.
    pub fn split_kernels(&self, hash: &crate::hash::Hash) -> (r: (Vec<TxKernel>, Vec<ShortId>))
        ensures
            views(r.0@) == kernels_with(self@.kernels, KernelFeatures::Coinbase),
            views(r.1@) == short_ids(kernels_with(self@.kernels, KernelFeatures::Plain), hash@),
            views(r.0@) == self@.kernels.filter(
                |x: KernelData| x.features == KernelFeatures::Coinbase,
            ),
            views(r.1@) == self@.kernels.filter(
                |x: KernelData| x.features == KernelFeatures::Plain,
            ).map_values(
                |k: KernelData|
                    be_bytes(
                        siphash_2_4(
                            be_value(hash@.subrange(0, 8).reverse()) as u64,
                            be_value(hash@.subrange(8, 16).reverse()) as u64,
                            blake2b_256(TxKernel::encode(k)),
                        ) as nat,
                        8,
                    ).reverse().take(6),
            ),
    {
        let ghost all = self@.kernels;
        let ghost full = |k: KernelData| k.features == KernelFeatures::Coinbase;
        let ghost brief = |k: KernelData| k.features == KernelFeatures::Plain;
        let mut kern_full: Vec<TxKernel> = Vec::new();
        let mut kern_ids: Vec<ShortId> = Vec::new();
        let mut i: usize = 0;
        assert(all.take(0).filter(full) =~= Seq::empty() && all.take(0).filter(brief)
            =~= Seq::empty()) by {
            reveal(Seq::filter);
        }
        assert(views(kern_full@) =~= all.take(0).filter(full));
        assert(views(kern_ids@) =~= short_ids(all.take(0).filter(brief), hash@));
        while i < self.kernels.len()
            invariant
                i <= self.kernels@.len(),
                all == self@.kernels,
                full == (|k: KernelData| k.features == KernelFeatures::Coinbase),
                brief == (|k: KernelData| k.features == KernelFeatures::Plain),
                views(kern_full@) == all.take(i as int).filter(full),
                views(kern_ids@) == short_ids(all.take(i as int).filter(brief), hash@),
            decreases self.kernels@.len() - i,
        {
            let ghost full_before = views(kern_full@);
            let ghost ids_before = views(kern_ids@);
            let ghost k = all[i as int];
            let ghost kept = all.take(i as int).filter(brief);
            proof {
                assert(all.take(i + 1) =~= all.take(i as int).push(k));
                all.take(i as int).lemma_filter_push(k, full);
                all.take(i as int).lemma_filter_push(k, brief);
            }
            if self.kernels[i].features.contains(KernelFeatures::Coinbase) {
                kern_full.push(self.kernels[i]);
                assert(views(kern_full@) =~= full_before.push(k));
            } else {
                kern_ids.push(self.kernels[i].short_id(hash));
                assert(views(kern_ids@) =~= ids_before.push(kernel_short_id(k, hash@)));
                assert(short_ids(kept.push(k), hash@) =~= short_ids(kept, hash@).push(
                    kernel_short_id(k, hash@),
                ));
            }
            i += 1;
        }
        assert(all.take(i as int) =~= all);
        proof {
            let id = |k: KernelData|
                be_bytes(
                    siphash_2_4(
                        be_value(hash@.subrange(0, 8).reverse()) as u64,
                        be_value(hash@.subrange(8, 16).reverse()) as u64,
                        blake2b_256(TxKernel::encode(k)),
                    ) as nat,
                    8,
                ).reverse().take(6);
            assert(short_ids(all.filter(brief), hash@) =~= all.filter(brief).map_values(id));
        }
        (kern_full, kern_ids)
    }

    /// Hydrate a block from a compact block.
    /// Note: caller must validate the block themselves, we do not validate it here.
    pub fn hydrate_from(cb: CompactBlock, txs: Vec<Transaction>) -> (r: Block)
        ensures
            r@ == hydrated(cb@, views(txs@)),
            all_sorted(r@),
            valid_block(r@),
            r@.inputs.no_duplicates(),
            r@.outputs.no_duplicates(),
            r@.kernels.no_duplicates(),
            ({
                let ins = views(txs@).fold_left(
                    Seq::<InputData>::empty(),
                    (|all: Seq<InputData>, t: TransactionData| all + t.inputs),
                );
                let outs = views(txs@).fold_left(
                    Seq::<OutputData>::empty(),
                    (|all: Seq<OutputData>, t: TransactionData| all + t.outputs),
                ) + cb@.out_full;
                let kerns = views(txs@).fold_left(
                    Seq::<KernelData>::empty(),
                    (|all: Seq<KernelData>, t: TransactionData| all + t.kernels),
                ) + cb@.kern_full;
                &&& r@.header == cb@.header
                &&& forall|x: InputData| #[trigger]
                    r@.inputs.contains(x) <==> ins.contains(x) && !exists|j: int|
                        0 <= j < outs.len() && (#[trigger] outs[j]).features
                            == OutputFeatures::Plain && outs[j].commit == x.commit
                &&& forall|x: OutputData| #[trigger]
                    r@.outputs.contains(x) <==> outs.contains(x) && (x.features != OutputFeatures::Plain
                        || !exists|i: int| 0 <= i < ins.len() && (#[trigger] ins[i]).commit == x.commit)
                &&& forall|x: KernelData| #[trigger] r@.kernels.contains(x) <==> kerns.contains(x)
                &&& forall|i: int, j: int|
                    0 <= i < j < r@.inputs.len() ==> lex_le(
                        #[trigger] Input::encode(r@.inputs[i]),
                        #[trigger] Input::encode(r@.inputs[j]),
                    )
                &&& forall|i: int, j: int|
                    0 <= i < j < r@.outputs.len() ==> lex_le(
                        #[trigger] Output::encode(r@.outputs[i]),
                        #[trigger] Output::encode(r@.outputs[j]),
                    )
                &&& forall|i: int, j: int|
                    0 <= i < j < r@.kernels.len() ==> lex_le(
                        #[trigger] TxKernel::encode(r@.kernels[i]),
                        #[trigger] TxKernel::encode(r@.kernels[j]),
                    )
            }),
    {
        let ghost all = views(txs@);
        let mut inputs: Vec<Input> = Vec::new();
        let mut outputs: Vec<Output> = Vec::new();
        let mut kernels: Vec<TxKernel> = Vec::new();
        let mut i: usize = 0;
        assert(views(inputs@) =~= all_inputs(all.take(0)));
        assert(views(outputs@) =~= all_outputs(all.take(0)));
        assert(views(kernels@) =~= all_kernels(all.take(0)));
        while i < txs.len()
            invariant
                i <= txs@.len(),
                all == views(txs@),
                views(inputs@) == all_inputs(all.take(i as int)),
                views(outputs@) == all_outputs(all.take(i as int)),
                views(kernels@) == all_kernels(all.take(i as int)),
            decreases txs@.len() - i,
        {
            assert(all.take(i + 1).drop_last() =~= all.take(i as int));
            append_all(&mut inputs, &txs[i].inputs);
            append_all(&mut outputs, &txs[i].outputs);
            append_all(&mut kernels, &txs[i].kernels);
            i += 1;
        }
        assert(all.take(i as int) =~= all);
        append_all(&mut outputs, &cb.out_full);
        append_all(&mut kernels, &cb.kern_full);
        let block = Block {
            header: cb.header,
            inputs: sort_distinct(&inputs),
            outputs: sort_distinct(&outputs),
            kernels: sort_distinct(&kernels),
        };
        proof {
            lemma_strictly_sorted_after_cut(block@);
            law_hydrated_contents(cb@, all);
        }
        block.cut_through()
    }
}

} // verus!
