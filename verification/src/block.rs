//! Blocks: what they hold, their binary form, and cut-through.

use vstd::prelude::*;
use crate::consensus::{overage_of, ChainParams};
use crate::filters::lemma_contains_multiset;
use crate::hash::blake2b_256;
use crate::header::{
    default_header, hashed_header, header_bytes, parse_header, valid_header, BlockHeader,
    HeaderData,
};
use crate::laws::amounts::law_fees_add_up;
use crate::laws::cutting::law_cut_through_matches_by_commitment;
use crate::order::{
    all_valid, among, duplicate_all, encode_all, parse_sorted, read_and_verify_sorted, sort,
    sorted_form, views, write_sorted, Wire,
};
use crate::secp::Commitment;
use crate::ser::{be_bytes, be_value, Reader, SerError, SerializationMode, Writer};
use crate::transaction::{
    checked_fee_sum, fee_sum, Input, InputData, KernelData, KernelFeatures, Output, OutputData,
    OutputFeatures, TxKernel,
};

verus! {

/// A block as expressed in the MimbleWimble protocol. The reward is non-explicit, assumed to
/// be deducible from block height and expressed as a global transaction fee, additive to the
/// total of fees ever collected.
#[derive(Debug, PartialEq)]
pub struct Block {
    /// The header with metadata and commitments to the rest of the data.
    pub header: BlockHeader,
    /// List of transaction inputs.
    pub inputs: Vec<Input>,
    /// List of transaction outputs.
    pub outputs: Vec<Output>,
    /// List of kernels with associated proofs.
    pub kernels: Vec<TxKernel>,
}

/// What a [`Block`] holds.
pub struct BlockData {
    pub header: HeaderData,
    pub inputs: Seq<InputData>,
    pub outputs: Seq<OutputData>,
    pub kernels: Seq<KernelData>,
}

impl View for Block {
    type V = BlockData;

    open spec fn view(&self) -> BlockData {
        BlockData {
            header: self.header@,
            inputs: views(self.inputs@),
            outputs: views(self.outputs@),
            kernels: views(self.kernels@),
        }
    }
}

/// Whether all items of a block are views of values.
pub open spec fn valid_items(b: BlockData) -> bool {
    &&& all_valid::<Input>(b.inputs)
    &&& all_valid::<Output>(b.outputs)
    &&& all_valid::<TxKernel>(b.kernels)
}

/// Whether `b` is the view of some block, of whatever size.
pub open spec fn valid_block(b: BlockData) -> bool {
    &&& valid_header(b.header)
    &&& valid_items(b)
}

impl Clone for Block {
    fn clone(&self) -> (r: Block)
        ensures
            r@ == self@,
    {
        Block {
            header: self.header.clone(),
            inputs: duplicate_all(&self.inputs),
            outputs: duplicate_all(&self.outputs),
            kernels: duplicate_all(&self.kernels),
        }
    }
}

/// How many items each of three lists has, as eight bytes each.
pub open spec fn counts_bytes(a: nat, b: nat, c: nat) -> Seq<u8> {
    be_bytes(a, 8) + be_bytes(b, 8) + be_bytes(c, 8)
}

/// The binary form of a block. What a hash is made of is that of the header alone; the full
/// form has all lists in lexicographic order.
pub open spec fn block_bytes(b: BlockData, mode: SerializationMode) -> Seq<u8> {
    match mode {
        SerializationMode::Hash => header_bytes(b.header, mode),
        SerializationMode::Full => header_bytes(b.header, mode) + counts_bytes(
            b.inputs.len(),
            b.outputs.len(),
            b.kernels.len(),
        ) + encode_all::<Input>(sorted_form::<Input>(b.inputs)) + encode_all::<Output>(
            sorted_form::<Output>(b.outputs),
        ) + encode_all::<TxKernel>(sorted_form::<TxKernel>(b.kernels)),
    }
}

/// The block that `s` starts with, and what follows it. Lists that are not in order are
/// refused.
pub open spec fn parse_block(s: Seq<u8>, proof_size: nat) -> Result<(BlockData, Seq<u8>), SerError> {
    match parse_header(s, proof_size) {
        Err(e) => Err(e),
        Ok((header, s1)) => if s1.len() < 24 {
            Err(SerError::UnexpectedEof)
        } else {
            match parse_sorted::<Input>(s1.skip(24), be_value(s1.subrange(0, 8))) {
                Err(e) => Err(e),
                Ok((inputs, s2)) => match parse_sorted::<Output>(
                    s2,
                    be_value(s1.subrange(8, 16)),
                ) {
                    Err(e) => Err(e),
                    Ok((outputs, s3)) => match parse_sorted::<TxKernel>(
                        s3,
                        be_value(s1.subrange(16, 24)),
                    ) {
                        Err(e) => Err(e),
                        Ok((kernels, rest)) => Ok(
                            (BlockData { header, inputs, outputs, kernels }, rest),
                        ),
                    },
                },
            }
        },
    }
}

/// Writes how many items each of three lists has.
pub(crate) fn write_counts(writer: &mut Writer, a: usize, b: usize, c: usize)
    ensures
        final(writer)@ == old(writer)@ + counts_bytes(a as nat, b as nat, c as nat),
        final(writer).purpose() == old(writer).purpose(),
{
    writer.write_u64(a as u64);
    writer.write_u64(b as u64);
    writer.write_u64(c as u64);
    assert(writer@ =~= old(writer)@ + counts_bytes(a as nat, b as nat, c as nat));
}

/// Reads how many items each of three lists has.
pub(crate) fn read_counts(reader: &mut Reader) -> (r: Result<(u64, u64, u64), SerError>)
    ensures
        match r {
            Ok((a, b, c)) => {
                &&& old(reader)@.len() >= 24
                &&& a == be_value(old(reader)@.subrange(0, 8))
                &&& b == be_value(old(reader)@.subrange(8, 16))
                &&& c == be_value(old(reader)@.subrange(16, 24))
                &&& final(reader)@ == old(reader)@.skip(24)
            },
            Err(e) => old(reader)@.len() < 24 && e == SerError::UnexpectedEof,
        },
{
    let ghost s = reader@;
    let a: u64 = match reader.read_u64() {
        Ok(a) => a,
        Err(e) => return Err(e),
    };
    assert(s.take(8) =~= s.subrange(0, 8));
    let b: u64 = match reader.read_u64() {
        Ok(b) => b,
        Err(e) => return Err(e),
    };
    assert(s.skip(8).take(8) =~= s.subrange(8, 16));
    assert(s.skip(8).skip(8) =~= s.skip(16));
    let c: u64 = match reader.read_u64() {
        Ok(c) => c,
        Err(e) => return Err(e),
    };
    assert(s.skip(16).take(8) =~= s.subrange(16, 24));
    assert(s.skip(16).skip(8) =~= s.skip(24));
    Ok((a, b, c))
}

/// The commitments of some inputs.
pub open spec fn input_commits(inputs: Seq<InputData>) -> Seq<Seq<u8>> {
    Seq::new(inputs.len(), |i: int| inputs[i].commit)
}

/// The commitments of some outputs.
pub open spec fn output_commits(outputs: Seq<OutputData>) -> Seq<Seq<u8>> {
    Seq::new(outputs.len(), |i: int| outputs[i].commit)
}

/// The outputs with the given features.
pub open spec fn outputs_with(outputs: Seq<OutputData>, features: OutputFeatures) -> Seq<
    OutputData,
> {
    outputs.filter(|o: OutputData| o.features == features)
}

/// The kernels with the given features.
pub open spec fn kernels_with(kernels: Seq<KernelData>, features: KernelFeatures) -> Seq<
    KernelData,
> {
    kernels.filter(|k: KernelData| k.features == features)
}

pub(crate) fn collect_input_commits(inputs: &Vec<Input>) -> (r: Vec<Commitment>)
    ensures
        views(r@) == input_commits(views(inputs@)),
{
    let mut r: Vec<Commitment> = Vec::new();
    let mut i: usize = 0;
    while i < inputs.len()
        invariant
            i <= inputs@.len(),
            views(r@) == input_commits(views(inputs@)).take(i as int),
        decreases inputs@.len() - i,
    {
        let ghost before = views(r@);
        r.push(inputs[i].commitment());
        assert(views(r@) =~= before.push(inputs@[i as int]@.commit));
        i += 1;
    }
    assert(views(r@) =~= input_commits(views(inputs@)));
    r
}

pub(crate) fn collect_output_commits(outputs: &Vec<Output>) -> (r: Vec<Commitment>)
    ensures
        views(r@) == output_commits(views(outputs@)),
{
    let mut r: Vec<Commitment> = Vec::new();
    let mut i: usize = 0;
    while i < outputs.len()
        invariant
            i <= outputs@.len(),
            views(r@) == output_commits(views(outputs@)).take(i as int),
        decreases outputs@.len() - i,
    {
        let ghost before = views(r@);
        r.push(outputs[i].commitment());
        assert(views(r@) =~= before.push(outputs@[i as int]@.commit));
        i += 1;
    }
    assert(views(r@) =~= output_commits(views(outputs@)));
    r
}

pub(crate) fn collect_commits_with(outputs: &Vec<Output>, features: OutputFeatures) -> (r: Vec<
    Commitment,
>)
    ensures
        views(r@) == output_commits(outputs_with(views(outputs@), features)),
{
    let ghost all = views(outputs@);
    let ghost wanted = |o: OutputData| o.features == features;
    let mut r: Vec<Commitment> = Vec::new();
    let mut i: usize = 0;
    assert(views(r@) =~= output_commits(all.take(0).filter(wanted))) by {
        reveal(Seq::filter);
    }
    while i < outputs.len()
        invariant
            i <= outputs@.len(),
            all == views(outputs@),
            wanted == (|o: OutputData| o.features == features),
            views(r@) == output_commits(all.take(i as int).filter(wanted)),
        decreases outputs@.len() - i,
    {
        let ghost before = views(r@);
        let ghost kept = all.take(i as int).filter(wanted);
        proof {
            assert(all.take(i + 1) =~= all.take(i as int).push(all[i as int]));
            all.take(i as int).lemma_filter_push(all[i as int], wanted);
        }
        if outputs[i].features == features {
            r.push(outputs[i].commitment());
            assert(views(r@) =~= before.push(all[i as int].commit));
            assert(output_commits(kept.push(all[i as int])) =~= output_commits(kept).push(
                all[i as int].commit,
            ));
        }
        i += 1;
    }
    assert(all.take(i as int) =~= all);
    r
}

/// Whether a block both spends an output with this commitment and makes one that is not the
/// output of a reward.
pub open spec fn cut(b: BlockData, commit: Seq<u8>) -> bool {
    &&& input_commits(b.inputs).contains(commit)
    &&& output_commits(outputs_with(b.outputs, OutputFeatures::Plain)).contains(commit)
}

/// The inputs that cut-through leaves.
pub open spec fn inputs_left(b: BlockData) -> spec_fn(InputData) -> bool {
    |x: InputData| !cut(b, x.commit)
}

/// The outputs that cut-through leaves: all of rewards, and all that the block does not spend.
pub open spec fn outputs_left(b: BlockData) -> spec_fn(OutputData) -> bool {
    |x: OutputData| x.features == OutputFeatures::Coinbase || !cut(b, x.commit)
}

/// The block without the outputs that it spends itself and the inputs that spend them.
pub open spec fn cut_through_of(b: BlockData) -> BlockData {
    BlockData {
        header: b.header,
        inputs: b.inputs.filter(inputs_left(b)),
        outputs: b.outputs.filter(outputs_left(b)),
        kernels: b.kernels,
    }
}

fn is_cut(spent: &Vec<Commitment>, made: &Vec<Commitment>, commit: &Commitment) -> (r: bool)
    requires
        crate::order::sorted::<Commitment>(views(spent@)),
        crate::order::sorted::<Commitment>(views(made@)),
        all_valid::<Commitment>(views(spent@)),
        all_valid::<Commitment>(views(made@)),
    ensures
        r == (views(spent@).contains(commit@) && views(made@).contains(commit@)),
{
    among(spent, commit) && among(made, commit)
}

impl Block {
    /// The block with no items, under the header of no block in particular.
    pub fn default(proof_size: usize) -> (r: Block)
        ensures
            r@ == (BlockData {
                header: default_header(proof_size as nat),
                inputs: Seq::empty(),
                outputs: Seq::empty(),
                kernels: Seq::empty(),
            }),
    {
        let r = Block {
            header: BlockHeader::default(proof_size),
            inputs: Vec::new(),
            outputs: Vec::new(),
            kernels: Vec::new(),
        };
        assert(r@.inputs =~= Seq::empty());
        assert(r@.outputs =~= Seq::empty());
        assert(r@.kernels =~= Seq::empty());
        r
    }

    /// Appends the binary form. Differentiates between writing the block for the purpose of
    /// full serialization and the one of just extracting a hash.
    pub fn write(&self, writer: &mut Writer)
        ensures
            final(writer)@ == old(writer)@ + block_bytes(self@, old(writer).purpose()),
            final(writer).purpose() == old(writer).purpose(),
    {
        self.header.write(writer);
        if writer.serialization_mode() != SerializationMode::Hash {
            write_counts(writer, self.inputs.len(), self.outputs.len(), self.kernels.len());
            write_sorted(&self.inputs, writer);
            write_sorted(&self.outputs, writer);
            write_sorted(&self.kernels, writer);
            assert(writer@ =~= old(writer)@ + block_bytes(self@, SerializationMode::Full));
        }
    }

    /// Takes a block from the front of what is still to be read.
    pub fn read(reader: &mut Reader, proof_size: usize) -> (r: Result<Block, SerError>)
        ensures
            match r {
                Ok(block) => parse_block(old(reader)@, proof_size as nat) == Ok::<
                    (BlockData, Seq<u8>),
                    SerError,
                >((block@, final(reader)@)),
                Err(e) => parse_block(old(reader)@, proof_size as nat) == Err::<
                    (BlockData, Seq<u8>),
                    SerError,
                >(e),
            },
    {
        let header = match BlockHeader::read(reader, proof_size) {
            Ok(header) => header,
            Err(e) => return Err(e),
        };
        let (input_len, output_len, kernel_len) = match read_counts(reader) {
            Ok(counts) => counts,
            Err(e) => return Err(e),
        };
        let inputs = match read_and_verify_sorted::<Input>(reader, input_len) {
            Ok(inputs) => inputs,
            Err(e) => return Err(e),
        };
        let outputs = match read_and_verify_sorted::<Output>(reader, output_len) {
            Ok(outputs) => outputs,
            Err(e) => return Err(e),
        };
        let kernels = match read_and_verify_sorted::<TxKernel>(reader, kernel_len) {
            Ok(kernels) => kernels,
            Err(e) => return Err(e),
        };
        Ok(Block { header, inputs, outputs, kernels })
    }

    /// The inputs that take part in the sum of all commitments.
    pub fn inputs_committed(&self) -> (r: &Vec<Input>)
        ensures
            *r == self.inputs,
    {
        &self.inputs
    }

    /// The outputs that take part in the sum of all commitments.
    pub fn outputs_committed(&self) -> (r: &Vec<Output>)
        ensures
            *r == self.outputs,
    {
        &self.outputs
    }

    /// What the commitments of the block do not balance by: half of the fees, less the
    /// subsidy.
    pub fn overage(&self, params: &ChainParams) -> (r: i64)
        requires
            params.wf(),
            fee_sum(self@.kernels) <= u64::MAX,
        ensures
            r == overage_of(*params, fee_sum(self@.kernels)),
            r == self@.kernels.fold_left(0int, (|sum: int, k: KernelData| sum + k.fee)) / 2
                - params.subsidy,
    {
        proof {
            law_fees_add_up(self@.kernels);
        }
        (self.total_fees() / 2) as i64 - params.subsidy as i64
    }

    /// Blockhash, computed using only the header.
    pub fn hash(&self) -> (r: crate::hash::Hash)
        ensures
            r@ == blake2b_256(hashed_header(self@.header)),
    {
        self.header.hash()
    }

    /// Sum of all fees (inputs less outputs) in the block.
    pub fn total_fees(&self) -> (r: u64)
        requires
            fee_sum(self@.kernels) <= u64::MAX,
        ensures
            r == fee_sum(self@.kernels),
            r == self@.kernels.fold_left(0int, (|sum: int, k: KernelData| sum + k.fee)),
    {
        proof {
            law_fees_add_up(self@.kernels);
        }
        match checked_fee_sum(&self.kernels) {
            Some(sum) => sum,
            None => 0,
        }
    }

    /// Matches any output with a potential spending input, eliminating them from the block.
    /// Provides a simple way to cut-through the block. The elimination is stable with respect
    /// to the order of inputs and outputs.
    ///
    /// Coinbase outputs take no part: if a block contains a new coinbase output and a
    /// transaction spending a previous coinbase, both are preserved.
    pub fn cut_through(&self) -> (r: Block)
        ensures
            r@ == cut_through_of(self@),
            r@.header == self@.header,
            r@.kernels == self@.kernels,
            r@.inputs == self@.inputs.filter(
                |x: InputData|
                    !exists|j: int|
                        0 <= j < self@.outputs.len() && (#[trigger] self@.outputs[j]).features
                            == OutputFeatures::Plain && self@.outputs[j].commit == x.commit,
            ),
            r@.outputs == self@.outputs.filter(
                |x: OutputData|
                    x.features != OutputFeatures::Plain || !exists|i: int|
                        0 <= i < self@.inputs.len() && (#[trigger] self@.inputs[i]).commit
                            == x.commit,
            ),
            forall|i: int, j: int|
                0 <= i < r@.inputs.len() && 0 <= j < r@.outputs.len() && (
                #[trigger] r@.outputs[j]).features == OutputFeatures::Plain ==> (
                #[trigger] r@.inputs[i]).commit != r@.outputs[j].commit,
            forall|i: int|
                0 <= i < self@.inputs.len() ==> (!r@.inputs.contains(#[trigger] self@.inputs[i])
                    <==> exists|j: int|
                    0 <= j < self@.outputs.len() && (#[trigger] self@.outputs[j]).features
                        == OutputFeatures::Plain && self@.outputs[j].commit
                        == self@.inputs[i].commit),
            forall|j: int|
                0 <= j < self@.outputs.len() && (#[trigger] self@.outputs[j]).features
                    == OutputFeatures::Plain ==> (!r@.outputs.contains(self@.outputs[j])
                    <==> exists|i: int|
                    0 <= i < self@.inputs.len() && (#[trigger] self@.inputs[i]).commit
                        == self@.outputs[j].commit),
            forall|j: int|
                0 <= j < self@.outputs.len() && (#[trigger] self@.outputs[j]).features
                    == OutputFeatures::Coinbase ==> r@.outputs.contains(self@.outputs[j]),
    {
        let spent = sort(&collect_input_commits(&self.inputs));
        let made = sort(&collect_commits_with(&self.outputs, OutputFeatures::Plain));
        let ghost b = self@;
        let ghost left_in = inputs_left(b);
        let ghost left_out = outputs_left(b);
        assert forall|c: Seq<u8>|
            #[trigger] cut(b, c) == (views(spent@).contains(c) && views(made@).contains(c)) by {
            lemma_contains_multiset(views(spent@), input_commits(b.inputs), c);
            lemma_contains_multiset(
                views(made@),
                output_commits(outputs_with(b.outputs, OutputFeatures::Plain)),
                c,
            );
        }
        let mut inputs: Vec<Input> = Vec::new();
        let mut i: usize = 0;
        assert(views(inputs@) =~= b.inputs.take(0).filter(left_in)) by {
            reveal(Seq::filter);
        }
        while i < self.inputs.len()
            invariant
                i <= self.inputs@.len(),
                b == self@,
                left_in == inputs_left(b),
                crate::order::sorted::<Commitment>(views(spent@)),
                crate::order::sorted::<Commitment>(views(made@)),
                all_valid::<Commitment>(views(spent@)),
                all_valid::<Commitment>(views(made@)),
                forall|c: Seq<u8>|
                    #[trigger] cut(b, c) == (views(spent@).contains(c) && views(made@).contains(c)),
                views(inputs@) == b.inputs.take(i as int).filter(left_in),
            decreases self.inputs@.len() - i,
        {
            let ghost before = views(inputs@);
            let ghost x = b.inputs[i as int];
            proof {
                assert(b.inputs.take(i + 1) =~= b.inputs.take(i as int).push(x));
                b.inputs.take(i as int).lemma_filter_push(x, left_in);
                assert(left_in(x) == !cut(b, x.commit));
            }
            if !is_cut(&spent, &made, &self.inputs[i].commit) {
                inputs.push(self.inputs[i]);
                assert(views(inputs@) =~= before.push(x));
            }
            i += 1;
        }
        assert(b.inputs.take(i as int) =~= b.inputs);
        let mut outputs: Vec<Output> = Vec::new();
        let mut j: usize = 0;
        assert(views(outputs@) =~= b.outputs.take(0).filter(left_out)) by {
            reveal(Seq::filter);
        }
        while j < self.outputs.len()
            invariant
                j <= self.outputs@.len(),
                b == self@,
                left_out == outputs_left(b),
                crate::order::sorted::<Commitment>(views(spent@)),
                crate::order::sorted::<Commitment>(views(made@)),
                all_valid::<Commitment>(views(spent@)),
                all_valid::<Commitment>(views(made@)),
                forall|c: Seq<u8>|
                    #[trigger] cut(b, c) == (views(spent@).contains(c) && views(made@).contains(c)),
                views(outputs@) == b.outputs.take(j as int).filter(left_out),
            decreases self.outputs@.len() - j,
        {
            let ghost before = views(outputs@);
            let ghost x = b.outputs[j as int];
            proof {
                assert(b.outputs.take(j + 1) =~= b.outputs.take(j as int).push(x));
                b.outputs.take(j as int).lemma_filter_push(x, left_out);
                assert(left_out(x) == (x.features == OutputFeatures::Coinbase || !cut(b, x.commit)));
            }
            if self.outputs[j].features.contains(OutputFeatures::Coinbase) || !is_cut(
                &spent,
                &made,
                &self.outputs[j].commit,
            ) {
                outputs.push(self.outputs[j].duplicate());
                assert(views(outputs@) =~= before.push(x));
            }
            j += 1;
        }
        assert(b.outputs.take(j as int) =~= b.outputs);
        let r = Block {
            header: self.header.clone(),
            inputs,
            outputs,
            kernels: duplicate_all(&self.kernels),
        };
        proof {
            law_cut_through_matches_by_commitment(self@, r@);
        }
        r
    }
}

} // verus!
