//! Inputs, outputs, kernels and the transactions made of them.

use vstd::prelude::*;
use crate::consensus::ConsensusError;
use crate::hash::{blake2b_256, hash_bytes, short_id_of, siphash_2_4, ShortId};
use crate::laws::amounts::law_fees_add_up;
use crate::order::{duplicate_all, views, wire_bytes, Wire};
use crate::secp::{
    range_proof_check, signature_check, verify_range_proof, verify_signature, BlindingFactor,
    Commitment, MAX_PROOF_SIZE, RangeProof, SecpError, Signature,
};
use crate::ser::{
    be_bytes, be_value, lemma_be_bounds, lemma_be_bytes_len, lemma_bytes_of_value,
    lemma_value_of_bytes, Reader, SerError, SerializationMode, Writer,
};

verus! {

/// Why a transaction is not valid.
#[derive(Clone, Copy, Debug, PartialEq, Eq)]
pub enum TransactionError {
    /// A curve operation failed on a part of it.
    Secp(SecpError),
    /// It breaks a consensus rule.
    Consensus(ConsensusError),
    /// Its parts do not sum to its kernels.
    KernelSumMismatch,
}

/// What kind of output an output is, or an input says it spends.
#[derive(Clone, Copy, Debug, PartialEq, Eq, Structural)]
pub enum OutputFeatures {
    /// No flag.
    Plain,
    /// The output of a block reward.
    Coinbase,
}

/// The byte that features are written as.
pub open spec fn output_features_byte(f: OutputFeatures) -> u8 {
    match f {
        OutputFeatures::Plain => 0u8,
        OutputFeatures::Coinbase => 1u8,
    }
}

impl OutputFeatures {
    /// Whether all flags of `other` are among those of `self`.
    pub fn contains(&self, other: OutputFeatures) -> (r: bool)
        ensures
            r == (other == OutputFeatures::Plain || *self == other),
    {
        other == OutputFeatures::Plain || *self == other
    }

    /// Takes the flags of `other` away.
    pub fn remove(&mut self, other: OutputFeatures)
        ensures
            *final(self) == (if *old(self) == other {
                OutputFeatures::Plain
            } else {
                *old(self)
            }),
    {
        if *self == other {
            *self = OutputFeatures::Plain;
        }
    }

    fn write(&self, writer: &mut Writer)
        ensures
            final(writer)@ == old(writer)@.push(output_features_byte(*self)),
            final(writer).purpose() == old(writer).purpose(),
    {
        match self {
            OutputFeatures::Plain => writer.write_u8(0),
            OutputFeatures::Coinbase => writer.write_u8(1),
        }
    }

    fn read(reader: &mut Reader) -> (r: Result<OutputFeatures, SerError>)
        ensures
            match r {
                Ok(f) => {
                    &&& old(reader)@.len() >= 1
                    &&& old(reader)@[0] == output_features_byte(f)
                    &&& final(reader)@ == old(reader)@.skip(1)
                },
                Err(e) => if old(reader)@.len() == 0 {
                    e == SerError::UnexpectedEof
                } else {
                    e == SerError::CorruptedData && old(reader)@[0] > 1
                },
            },
    {
        match reader.read_u8() {
            Ok(0) => Ok(OutputFeatures::Plain),
            Ok(1) => Ok(OutputFeatures::Coinbase),
            Ok(_) => Err(SerError::CorruptedData),
            Err(e) => Err(e),
        }
    }
}

/// What kind of kernel a kernel is.
#[derive(Clone, Copy, Debug, PartialEq, Eq, Structural)]
pub enum KernelFeatures {
    /// No flag.
    Plain,
    /// The kernel of a block reward.
    Coinbase,
}

/// The byte that features are written as.
pub open spec fn kernel_features_byte(f: KernelFeatures) -> u8 {
    match f {
        KernelFeatures::Plain => 0u8,
        KernelFeatures::Coinbase => 1u8,
    }
}

impl KernelFeatures {
    /// Whether all flags of `other` are among those of `self`.
    pub fn contains(&self, other: KernelFeatures) -> (r: bool)
        ensures
            r == (other == KernelFeatures::Plain || *self == other),
    {
        other == KernelFeatures::Plain || *self == other
    }

    /// Takes the flags of `other` away.
    pub fn remove(&mut self, other: KernelFeatures)
        ensures
            *final(self) == (if *old(self) == other {
                KernelFeatures::Plain
            } else {
                *old(self)
            }),
    {
        if *self == other {
            *self = KernelFeatures::Plain;
        }
    }

    fn write(&self, writer: &mut Writer)
        ensures
            final(writer)@ == old(writer)@.push(kernel_features_byte(*self)),
            final(writer).purpose() == old(writer).purpose(),
    {
        match self {
            KernelFeatures::Plain => writer.write_u8(0),
            KernelFeatures::Coinbase => writer.write_u8(1),
        }
    }

    fn read(reader: &mut Reader) -> (r: Result<KernelFeatures, SerError>)
        ensures
            match r {
                Ok(f) => {
                    &&& old(reader)@.len() >= 1
                    &&& old(reader)@[0] == kernel_features_byte(f)
                    &&& final(reader)@ == old(reader)@.skip(1)
                },
                Err(e) => if old(reader)@.len() == 0 {
                    e == SerError::UnexpectedEof
                } else {
                    e == SerError::CorruptedData && old(reader)@[0] > 1
                },
            },
    {
        match reader.read_u8() {
            Ok(0) => Ok(KernelFeatures::Plain),
            Ok(1) => Ok(KernelFeatures::Coinbase),
            Ok(_) => Err(SerError::CorruptedData),
            Err(e) => Err(e),
        }
    }
}

/// The output features that a byte stands for, which is 0 or 1.
pub open spec fn output_features_of(b: u8) -> OutputFeatures {
    if b == 0 {
        OutputFeatures::Plain
    } else {
        OutputFeatures::Coinbase
    }
}

/// The kernel features that a byte stands for, which is 0 or 1.
pub open spec fn kernel_features_of(b: u8) -> KernelFeatures {
    if b == 0 {
        KernelFeatures::Plain
    } else {
        KernelFeatures::Coinbase
    }
}

/// An output being spent.
#[derive(Clone, Copy, Debug, PartialEq, Eq)]
pub struct Input {
    /// What kind of output it says it spends.
    pub features: OutputFeatures,
    /// The commitment of the output that it spends.
    pub commit: Commitment,
}

/// What an [`Input`] holds.
pub struct InputData {
    pub features: OutputFeatures,
    pub commit: Seq<u8>,
}

impl View for Input {
    type V = InputData;

    open spec fn view(&self) -> InputData {
        InputData { features: self.features, commit: self.commit@ }
    }
}

impl Input {
    /// The commitment of the output that it spends.
    pub fn commitment(&self) -> (r: Commitment)
        ensures
            r@ == self@.commit,
    {
        self.commit
    }
}

impl Wire for Input {
    open spec fn valid(v: InputData) -> bool {
        v.commit.len() == 33
    }

    open spec fn encode(v: InputData) -> Seq<u8> {
        seq![output_features_byte(v.features)] + v.commit
    }

    open spec fn parse(s: Seq<u8>) -> Result<(InputData, Seq<u8>), SerError> {
        if s.len() == 0 {
            Err(SerError::UnexpectedEof)
        } else if s[0] > 1 {
            Err(SerError::CorruptedData)
        } else if s.len() < 34 {
            Err(SerError::UnexpectedEof)
        } else {
            Ok(
                (
                    InputData {
                        features: output_features_of(s[0]),
                        commit: s.subrange(1, 34),
                    },
                    s.skip(34),
                ),
            )
        }
    }

    proof fn lemma_parse_of_encode(v: InputData, rest: Seq<u8>) {
        let s = Self::encode(v) + rest;
        assert(s.subrange(1, 34) =~= v.commit);
        assert(s.skip(34) =~= rest);
    }

    proof fn lemma_encode_of_parse(s: Seq<u8>) {
        match Self::parse(s) {
            Ok((v, rest)) => {
                assert(s =~= Self::encode(v) + rest);
            },
            Err(_) => {},
        }
    }

    fn write(&self, writer: &mut Writer) {
        self.features.write(writer);
        writer.write_fixed_bytes(self.commit.bytes.as_slice());
        assert(writer@ =~= old(writer)@ + Self::encode(self@));
    }

    fn read(reader: &mut Reader) -> (r: Result<Input, SerError>) {
        let ghost s = reader@;
        let features = match OutputFeatures::read(reader) {
            Ok(features) => features,
            Err(e) => return Err(e),
        };
        let bytes = match reader.read_array::<33>() {
            Ok(bytes) => bytes,
            Err(e) => return Err(e),
        };
        assert(s.skip(1).take(33) =~= s.subrange(1, 34));
        assert(s.skip(1).skip(33) =~= s.skip(34));
        Ok(Input { features, commit: Commitment { bytes } })
    }

    fn duplicate(&self) -> (r: Input) {
        *self
    }
}

/// The size of the hash of a switch commitment, in bytes.
pub const SWITCH_COMMIT_HASH_SIZE: usize = 32;

/// The hash of the switch commitment of an output.
#[derive(Clone, Copy, Debug, PartialEq, Eq)]
pub struct SwitchCommitHash {
    pub bytes: [u8; 32],
}

impl View for SwitchCommitHash {
    type V = Seq<u8>;

    open spec fn view(&self) -> Seq<u8> {
        self.bytes@
    }
}

/// An output that can be spent.
#[derive(Debug, PartialEq, Eq)]
pub struct Output {
    /// What kind of output it is.
    pub features: OutputFeatures,
    /// The commitment to its value.
    pub commit: Commitment,
    /// The hash of its switch commitment.
    pub switch_commit_hash: SwitchCommitHash,
    /// The proof that its value is not negative.
    pub proof: RangeProof,
}

/// What an [`Output`] holds.
pub struct OutputData {
    pub features: OutputFeatures,
    pub commit: Seq<u8>,
    pub switch_commit_hash: Seq<u8>,
    pub proof: Seq<u8>,
}

impl View for Output {
    type V = OutputData;

    open spec fn view(&self) -> OutputData {
        OutputData {
            features: self.features,
            commit: self.commit@,
            switch_commit_hash: self.switch_commit_hash@,
            proof: self.proof@,
        }
    }
}

impl Clone for Output {
    fn clone(&self) -> (r: Output)
        ensures
            r@ == self@,
    {
        self.duplicate()
    }
}

impl Output {
    /// The commitment to its value.
    pub fn commitment(&self) -> (r: Commitment)
        ensures
            r@ == self@.commit,
    {
        self.commit
    }

    /// Checks the range proof.
    pub fn verify_proof(&self) -> (r: Result<(), SecpError>)
        ensures
            r == range_proof_check(self@.commit, self@.proof),
    {
        verify_range_proof(&self.commit, &self.proof)
    }
}

impl Wire for Output {
    open spec fn valid(v: OutputData) -> bool {
        &&& v.commit.len() == 33
        &&& v.switch_commit_hash.len() == SWITCH_COMMIT_HASH_SIZE
        &&& v.proof.len() <= MAX_PROOF_SIZE
    }

    open spec fn encode(v: OutputData) -> Seq<u8> {
        seq![output_features_byte(v.features)] + v.commit + v.switch_commit_hash + be_bytes(
            v.proof.len(),
            8,
        ) + v.proof
    }

    open spec fn parse(s: Seq<u8>) -> Result<(OutputData, Seq<u8>), SerError> {
        if s.len() == 0 {
            Err(SerError::UnexpectedEof)
        } else if s[0] > 1 {
            Err(SerError::CorruptedData)
        } else if s.len() < 74 {
            Err(SerError::UnexpectedEof)
        } else {
            let n = be_value(s.subrange(66, 74)) as int;
            if n > MAX_PROOF_SIZE {
                Err(SerError::CorruptedData)
            } else if s.len() < 74 + n {
                Err(SerError::UnexpectedEof)
            } else {
                Ok(
                    (
                        OutputData {
                            features: output_features_of(s[0]),
                            commit: s.subrange(1, 34),
                            switch_commit_hash: s.subrange(34, 66),
                            proof: s.subrange(74, 74 + n),
                        },
                        s.skip(74 + n),
                    ),
                )
            }
        }
    }

    proof fn lemma_parse_of_encode(v: OutputData, rest: Seq<u8>) {
        let s = Self::encode(v) + rest;
        let n = v.proof.len();
        lemma_be_bounds();
        lemma_value_of_bytes(n, 8);
        assert(s.subrange(66, 74) =~= be_bytes(n, 8));
        assert(s.subrange(1, 34) =~= v.commit);
        assert(s.subrange(34, 66) =~= v.switch_commit_hash);
        assert(s.subrange(74, 74 + n as int) =~= v.proof);
        assert(s.skip(74 + n as int) =~= rest);
    }

    proof fn lemma_encode_of_parse(s: Seq<u8>) {
        match Self::parse(s) {
            Ok((v, rest)) => {
                lemma_bytes_of_value(s.subrange(66, 74));
                assert(be_bytes(v.proof.len(), 8) == s.subrange(66, 74));
                assert(s =~= Self::encode(v) + rest);
            },
            Err(_) => {},
        }
    }

    fn write(&self, writer: &mut Writer) {
        self.features.write(writer);
        writer.write_fixed_bytes(self.commit.bytes.as_slice());
        writer.write_fixed_bytes(self.switch_commit_hash.bytes.as_slice());
        writer.write_bytes(self.proof.as_slice());
        assert(writer@ =~= old(writer)@ + Self::encode(self@));
    }

    fn read(reader: &mut Reader) -> (r: Result<Output, SerError>) {
        let ghost s = reader@;
        let features = match OutputFeatures::read(reader) {
            Ok(features) => features,
            Err(e) => return Err(e),
        };
        let commit = match reader.read_array::<33>() {
            Ok(bytes) => Commitment { bytes },
            Err(e) => return Err(e),
        };
        let ghost s1 = s.skip(1);
        assert(s1.take(33) =~= s.subrange(1, 34));
        assert(s1.skip(33) =~= s.skip(34));
        let switch_commit_hash = match reader.read_array::<32>() {
            Ok(bytes) => SwitchCommitHash { bytes },
            Err(e) => return Err(e),
        };
        assert(s.skip(34).take(32) =~= s.subrange(34, 66));
        assert(s.skip(34).skip(32) =~= s.skip(66));
        let n: u64 = match reader.read_u64() {
            Ok(n) => n,
            Err(e) => return Err(e),
        };
        assert(s.skip(66).take(8) =~= s.subrange(66, 74));
        assert(s.skip(66).skip(8) =~= s.skip(74));
        if n > MAX_PROOF_SIZE as u64 {
            return Err(SerError::CorruptedData);
        }
        let bytes = match reader.read_fixed_bytes(n as usize) {
            Ok(bytes) => bytes,
            Err(e) => return Err(e),
        };
        assert(s.skip(74).take(n as int) =~= s.subrange(74, 74 + n));
        assert(s.skip(74).skip(n as int) =~= s.skip(74 + n));
        match RangeProof::new(bytes) {
            Some(proof) => Ok(Output { features, commit, switch_commit_hash, proof }),
            None => Err(SerError::CorruptedData),
        }
    }

    fn duplicate(&self) -> (r: Output) {
        Output {
            features: self.features,
            commit: self.commit,
            switch_commit_hash: self.switch_commit_hash,
            proof: self.proof.duplicate(),
        }
    }
}

/// What an output is known by: its kind and its commitment.
#[derive(Clone, Copy, Debug, PartialEq, Eq)]
pub struct OutputIdentifier {
    pub features: OutputFeatures,
    pub commit: Commitment,
}

/// What an [`OutputIdentifier`] holds.
pub struct OutputIdentifierData {
    pub features: OutputFeatures,
    pub commit: Seq<u8>,
}

impl View for OutputIdentifier {
    type V = OutputIdentifierData;

    open spec fn view(&self) -> OutputIdentifierData {
        OutputIdentifierData { features: self.features, commit: self.commit@ }
    }
}

/// What the output with this data is known by.
pub open spec fn identifier_of(v: OutputData) -> OutputIdentifierData {
    OutputIdentifierData { features: v.features, commit: v.commit }
}

impl OutputIdentifier {
    /// What an output is known by.
    pub fn from_output(output: &Output) -> (r: OutputIdentifier)
        ensures
            r@ == identifier_of(output@),
            r@.features == output@.features,
            r@.commit == output@.commit,
    {
        OutputIdentifier { features: output.features, commit: output.commit }
    }

    /// What the output that an input spends is known by.
    pub fn from_input(input: &Input) -> (r: OutputIdentifier)
        ensures
            r@.features == input@.features,
            r@.commit == input@.commit,
    {
        OutputIdentifier { features: input.features, commit: input.commit }
    }

    /// Whether both are those of one output.
    pub fn same(&self, other: &OutputIdentifier) -> (r: bool)
        ensures
            r == (self@ == other@),
    {
        self.features == other.features && self.commit.same(&other.commit)
    }
}

/// The message that the signature of a kernel signs.
pub open spec fn kernel_sig_msg_of(fee: u64, lock_height: u64) -> Seq<u8> {
    Seq::new(16, |i: int| 0u8) + be_bytes(fee as nat, 8) + be_bytes(lock_height as nat, 8)
}

/// The message that the signature of a kernel signs: sixteen zeros, the fee and the lock
/// height.
pub fn kernel_sig_msg(fee: u64, lock_height: u64) -> (r: [u8; 32])
    ensures
        r@ == kernel_sig_msg_of(fee, lock_height),
        forall|i: int| 0 <= i < 16 ==> r@[i] == 0,
        be_value(r@.subrange(16, 24)) == fee,
        be_value(r@.subrange(24, 32)) == lock_height,
        fee == 0 ==> forall|i: int| 0 <= i < 24 ==> r@[i] == 0,
{
    let mut writer = Writer::new(SerializationMode::Full);
    writer.write_u64(0);
    writer.write_u64(0);
    writer.write_u64(fee);
    writer.write_u64(lock_height);
    let bytes = writer.into_bytes();
    proof {
        reveal_with_fuel(be_bytes, 9);
        lemma_be_bytes_len(fee as nat, 8);
        lemma_be_bytes_len(lock_height as nat, 8);
        assert(be_bytes(0, 8) =~= Seq::new(8, |i: int| 0u8));
        assert(bytes@ =~= kernel_sig_msg_of(fee, lock_height));
    }
    let mut r = [0u8; 32];
    let mut i: usize = 0;
    while i < 32
        invariant
            i <= 32,
            bytes@.len() == 32,
            forall|k: int| 0 <= k < i ==> r@[k] == bytes@[k],
        decreases 32 - i,
    {
        r[i] = bytes[i];
        i += 1;
    }
    assert(r@ =~= bytes@);
    proof {
        lemma_be_bounds();
        lemma_value_of_bytes(fee as nat, 8);
        lemma_value_of_bytes(lock_height as nat, 8);
        assert(r@.subrange(16, 24) =~= be_bytes(fee as nat, 8));
        assert(r@.subrange(24, 32) =~= be_bytes(lock_height as nat, 8));
    }
    r
}

/// The proof that a transaction, or a block reward, adds up.
#[derive(Clone, Copy, Debug, PartialEq, Eq)]
pub struct TxKernel {
    /// What kind of kernel it is.
    pub features: KernelFeatures,
    /// The fee of the transaction.
    pub fee: u64,
    /// The first height of a block that may hold the kernel.
    pub lock_height: u64,
    /// What is left of the sum of all commitments, which is also a public key.
    pub excess: Commitment,
    /// The signature of fee and lock height under that key.
    pub excess_sig: Signature,
}

/// What a [`TxKernel`] holds.
pub struct KernelData {
    pub features: KernelFeatures,
    pub fee: u64,
    pub lock_height: u64,
    pub excess: Seq<u8>,
    pub excess_sig: Seq<u8>,
}

impl View for TxKernel {
    type V = KernelData;

    open spec fn view(&self) -> KernelData {
        KernelData {
            features: self.features,
            fee: self.fee,
            lock_height: self.lock_height,
            excess: self.excess@,
            excess_sig: self.excess_sig@,
        }
    }
}

/// Whether the signature of a kernel is right: what [`TxKernel::verify`] returns.
pub open spec fn kernel_check(k: KernelData) -> Result<(), SecpError> {
    signature_verdict(
        signature_check(k.excess_sig, kernel_sig_msg_of(k.fee, k.lock_height), k.excess),
    )
}

/// What follows for a kernel from the check of its signature.
pub open spec fn signature_verdict(checked: Result<bool, SecpError>) -> Result<(), SecpError> {
    match checked {
        Ok(true) => Ok(()),
        Ok(false) => Err(SecpError::IncorrectSignature),
        Err(e) => Err(e),
    }
}

/// What follows for a kernel from the check of its signature.
pub fn signature_outcome(checked: Result<bool, SecpError>) -> (r: Result<(), SecpError>)
    ensures
        r == signature_verdict(checked),
        r is Ok <==> checked == Ok::<bool, SecpError>(true),
        checked == Ok::<bool, SecpError>(false) ==> r == Err::<(), SecpError>(
            SecpError::IncorrectSignature,
        ),
        checked matches Err(e) ==> r == Err::<(), SecpError>(e),
{
    match checked {
        Ok(valid) => if valid {
            Ok(())
        } else {
            Err(SecpError::IncorrectSignature)
        },
        Err(e) => Err(e),
    }
}

/// The short id of a kernel in the block that `block` is the hash of.
pub open spec fn kernel_short_id(k: KernelData, block: Seq<u8>) -> Seq<u8> {
    short_id_of(blake2b_256(TxKernel::encode(k)), block)
}

impl TxKernel {
    /// Checks the signature of fee and lock height.
    pub fn verify(&self) -> (r: Result<(), SecpError>)
        ensures
            r == kernel_check(self@),
            r == (match signature_check(
                self@.excess_sig,
                Seq::new(16, |j: int| 0u8) + be_bytes(self@.fee as nat, 8) + be_bytes(
                    self@.lock_height as nat,
                    8,
                ),
                self@.excess,
            ) {
                Ok(true) => Ok::<(), SecpError>(()),
                Ok(false) => Err(SecpError::IncorrectSignature),
                Err(e) => Err(e),
            }),
    {
        let msg = kernel_sig_msg(self.fee, self.lock_height);
        signature_outcome(verify_signature(&self.excess_sig, &msg, &self.excess))
    }

    /// The hash of the kernel.
    pub fn hash(&self) -> (r: crate::hash::Hash)
        ensures
            r@ == blake2b_256(Self::encode(self@)),
    {
        hash_bytes(&wire_bytes(self))
    }

    /// The short id of the kernel in the block that `block` is the hash of.
    pub fn short_id(&self, block: &crate::hash::Hash) -> (r: ShortId)
        ensures
            r@ == kernel_short_id(self@, block@),
            r@ == be_bytes(
                siphash_2_4(
                    be_value(block@.subrange(0, 8).reverse()) as u64,
                    be_value(block@.subrange(8, 16).reverse()) as u64,
                    blake2b_256(Self::encode(self@)),
                ) as nat,
                8,
            ).reverse().take(6),
    {
        ShortId::derive(&self.hash(), block)
    }
}

impl Wire for TxKernel {
    open spec fn valid(v: KernelData) -> bool {
        &&& v.excess.len() == 33
        &&& v.excess_sig.len() == 64
    }

    open spec fn encode(v: KernelData) -> Seq<u8> {
        seq![kernel_features_byte(v.features)] + be_bytes(v.fee as nat, 8) + be_bytes(
            v.lock_height as nat,
            8,
        ) + v.excess + v.excess_sig
    }

    open spec fn parse(s: Seq<u8>) -> Result<(KernelData, Seq<u8>), SerError> {
        if s.len() == 0 {
            Err(SerError::UnexpectedEof)
        } else if s[0] > 1 {
            Err(SerError::CorruptedData)
        } else if s.len() < 114 {
            Err(SerError::UnexpectedEof)
        } else {
            Ok(
                (
                    KernelData {
                        features: kernel_features_of(s[0]),
                        fee: be_value(s.subrange(1, 9)) as u64,
                        lock_height: be_value(s.subrange(9, 17)) as u64,
                        excess: s.subrange(17, 50),
                        excess_sig: s.subrange(50, 114),
                    },
                    s.skip(114),
                ),
            )
        }
    }

    proof fn lemma_parse_of_encode(v: KernelData, rest: Seq<u8>) {
        let s = Self::encode(v) + rest;
        lemma_be_bounds();
        lemma_value_of_bytes(v.fee as nat, 8);
        lemma_value_of_bytes(v.lock_height as nat, 8);
        assert(s.subrange(1, 9) =~= be_bytes(v.fee as nat, 8));
        assert(s.subrange(9, 17) =~= be_bytes(v.lock_height as nat, 8));
        assert(s.subrange(17, 50) =~= v.excess);
        assert(s.subrange(50, 114) =~= v.excess_sig);
        assert(s.skip(114) =~= rest);
    }

    proof fn lemma_encode_of_parse(s: Seq<u8>) {
        match Self::parse(s) {
            Ok((v, rest)) => {
                lemma_be_bounds();
                lemma_bytes_of_value(s.subrange(1, 9));
                lemma_bytes_of_value(s.subrange(9, 17));
                assert(s =~= Self::encode(v) + rest);
            },
            Err(_) => {},
        }
    }

    fn write(&self, writer: &mut Writer) {
        self.features.write(writer);
        writer.write_u64(self.fee);
        writer.write_u64(self.lock_height);
        writer.write_fixed_bytes(self.excess.bytes.as_slice());
        writer.write_fixed_bytes(self.excess_sig.bytes.as_slice());
        assert(writer@ =~= old(writer)@ + Self::encode(self@));
    }

    fn read(reader: &mut Reader) -> (r: Result<TxKernel, SerError>) {
        let ghost s = reader@;
        let features = match KernelFeatures::read(reader) {
            Ok(features) => features,
            Err(e) => return Err(e),
        };
        let fee: u64 = match reader.read_u64() {
            Ok(fee) => fee,
            Err(e) => return Err(e),
        };
        assert(s.skip(1).take(8) =~= s.subrange(1, 9));
        assert(s.skip(1).skip(8) =~= s.skip(9));
        let lock_height: u64 = match reader.read_u64() {
            Ok(lock_height) => lock_height,
            Err(e) => return Err(e),
        };
        assert(s.skip(9).take(8) =~= s.subrange(9, 17));
        assert(s.skip(9).skip(8) =~= s.skip(17));
        let excess = match reader.read_array::<33>() {
            Ok(bytes) => Commitment { bytes },
            Err(e) => return Err(e),
        };
        assert(s.skip(17).take(33) =~= s.subrange(17, 50));
        assert(s.skip(17).skip(33) =~= s.skip(50));
        let excess_sig = match reader.read_array::<64>() {
            Ok(bytes) => Signature { bytes },
            Err(e) => return Err(e),
        };
        assert(s.skip(50).take(64) =~= s.subrange(50, 114));
        assert(s.skip(50).skip(64) =~= s.skip(114));
        Ok(TxKernel { features, fee, lock_height, excess, excess_sig })
    }

    fn duplicate(&self) -> (r: TxKernel) {
        *self
    }
}

/// The sum of the fees of some kernels.
pub open spec fn fee_sum(kernels: Seq<KernelData>) -> nat
    decreases kernels.len(),
{
    if kernels.len() == 0 {
        0
    } else {
        fee_sum(kernels.drop_last()) + kernels.last().fee as nat
    }
}

pub proof fn lemma_fee_sum_of_prefix(kernels: Seq<KernelData>, n: int)
    requires
        0 <= n <= kernels.len(),
    ensures
        fee_sum(kernels.take(n)) <= fee_sum(kernels),
    decreases kernels.len(),
{
    if n < kernels.len() {
        lemma_fee_sum_of_prefix(kernels.drop_last(), n);
        assert(kernels.drop_last().take(n) =~= kernels.take(n));
    } else {
        assert(kernels.take(n) =~= kernels);
    }
}

/// The sum of the fees of some kernels, if it fits.
pub fn checked_fee_sum(kernels: &Vec<TxKernel>) -> (r: Option<u64>)
    ensures
        match r {
            Some(sum) => sum == fee_sum(views(kernels@)),
            None => fee_sum(views(kernels@)) > u64::MAX,
        },
        match r {
            Some(sum) => sum == views(kernels@).fold_left(
                0int,
                (|sum: int, k: KernelData| sum + k.fee),
            ),
            None => views(kernels@).fold_left(0int, (|sum: int, k: KernelData| sum + k.fee))
                > u64::MAX,
        },
{
    proof {
        law_fees_add_up(views(kernels@));
    }
    let ghost all = views(kernels@);
    let mut sum: u64 = 0;
    let mut i: usize = 0;
    while i < kernels.len()
        invariant
            i <= kernels@.len(),
            all == views(kernels@),
            sum == fee_sum(all.take(i as int)),
        decreases kernels@.len() - i,
    {
        assert(all.take(i + 1).drop_last() =~= all.take(i as int));
        match sum.checked_add(kernels[i].fee) {
            Some(more) => {
                sum = more;
            },
            None => {
                proof {
                    lemma_fee_sum_of_prefix(all, i + 1);
                    law_fees_add_up(all);
                }
                return None;
            },
        }
        i += 1;
    }
    assert(all.take(i as int) =~= all);
    Some(sum)
}

/// A transaction: it spends inputs, makes outputs, and proves by kernels that both add up.
#[derive(Debug, PartialEq, Eq)]
pub struct Transaction {
    pub inputs: Vec<Input>,
    pub outputs: Vec<Output>,
    pub kernels: Vec<TxKernel>,
    /// The part of the blinding that no kernel holds.
    pub offset: BlindingFactor,
}

/// What a [`Transaction`] holds.
pub struct TransactionData {
    pub inputs: Seq<InputData>,
    pub outputs: Seq<OutputData>,
    pub kernels: Seq<KernelData>,
    pub offset: Seq<u8>,
}

impl View for Transaction {
    type V = TransactionData;

    open spec fn view(&self) -> TransactionData {
        TransactionData {
            inputs: views(self.inputs@),
            outputs: views(self.outputs@),
            kernels: views(self.kernels@),
            offset: self.offset@,
        }
    }
}

impl Clone for Transaction {
    fn clone(&self) -> (r: Transaction)
        ensures
            r@ == self@,
    {
        Transaction {
            inputs: duplicate_all(&self.inputs),
            outputs: duplicate_all(&self.outputs),
            kernels: duplicate_all(&self.kernels),
            offset: self.offset,
        }
    }
}

impl Transaction {
    /// The fee: the sum of the fees of all kernels.
    pub fn fee(&self) -> (r: u64)
        requires
            fee_sum(self@.kernels) <= u64::MAX,
        ensures
            r == fee_sum(self@.kernels),
            r == self@.kernels.fold_left(0int, (|sum: int, k: KernelData| sum + k.fee)),
    {
        proof {
            law_fees_add_up(self@.kernels);
        }
        match checked_fee_sum(&self.kernels) {
            Some(sum) => sum,
            None => 0,
        }
    }
}

/// The inputs of all transactions, one after the other.
pub open spec fn all_inputs(txs: Seq<TransactionData>) -> Seq<InputData>
    decreases txs.len(),
{
    if txs.len() == 0 {
        Seq::empty()
    } else {
        all_inputs(txs.drop_last()) + txs.last().inputs
    }
}

/// The outputs of all transactions, one after the other.
pub open spec fn all_outputs(txs: Seq<TransactionData>) -> Seq<OutputData>
    decreases txs.len(),
{
    if txs.len() == 0 {
        Seq::empty()
    } else {
        all_outputs(txs.drop_last()) + txs.last().outputs
    }
}

/// The kernels of all transactions, one after the other.
pub open spec fn all_kernels(txs: Seq<TransactionData>) -> Seq<KernelData>
    decreases txs.len(),
{
    if txs.len() == 0 {
        Seq::empty()
    } else {
        all_kernels(txs.drop_last()) + txs.last().kernels
    }
}

/// A transaction that is to go into a block, with the outcome of its own validation.
#[derive(Debug, PartialEq, Eq)]
pub struct Candidate {
    pub tx: Transaction,
    pub verdict: Result<(), TransactionError>,
}

/// What a [`Candidate`] holds.
pub struct CandidateData {
    pub tx: TransactionData,
    pub verdict: Result<(), TransactionError>,
}

impl View for Candidate {
    type V = CandidateData;

    open spec fn view(&self) -> CandidateData {
        CandidateData { tx: self.tx@, verdict: self.verdict }
    }
}

} // verus!
