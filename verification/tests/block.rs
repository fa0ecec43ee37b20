use grin_block::block::Block;
use grin_block::compact::CompactBlock;
use grin_block::consensus::{ChainParams, ConsensusError};
use grin_block::error::{Error, KeychainError};
use grin_block::hash::ShortId;
use grin_block::header::{BlockHeader, Difficulty};
use grin_block::mining::{checked_candidate_fees, reward_pair, RewardReply, RewardRequest};
use grin_block::secp::{
    commit_sum, BlindingFactor, Commitment, RangeProof, SecpError, Signature,
};
use grin_block::ser::{Reader, SerializationMode, Writer};
use grin_block::transaction::{
    kernel_sig_msg, Candidate, Input, KernelFeatures, Output, OutputFeatures, SwitchCommitHash,
    Transaction, TransactionError, TxKernel,
};
use secp256k1zkp::{aggsig, ContextFlag, Message, Secp256k1, SecretKey};

const PARAMS: ChainParams = ChainParams {
    proof_size: 42,
    coinbase_maturity: 1_000,
    subsidy: 60_000_000_000,
    input_weight: 1,
    output_weight: 10,
    kernel_weight: 2,
    max_weight: 80_000,
};

// how a keychain makes range proofs
#[derive(Clone, Copy, PartialEq)]
enum Proofs {
    // such that they can be verified
    Real,
    // of the size of a bullet proof
    Bullet,
    // of the size of a Borromean range proof
    Borromean,
}

// keys derived from a seed
struct Keychain {
    secp: Secp256k1,
    seed: u8,
    proofs: Proofs,
}

impl Keychain {
    fn new(seed: u8, proofs: Proofs) -> Keychain {
        Keychain { secp: Secp256k1::with_caps(ContextFlag::Commit), seed, proofs }
    }

    fn key(&self, id: u8) -> SecretKey {
        let mut bytes = [self.seed; 32];
        bytes[31] = id;
        SecretKey::from_slice(&self.secp, &bytes).unwrap()
    }

    fn commit(&self, value: u64, id: u8) -> Commitment {
        Commitment { bytes: self.secp.commit(value, self.key(id)).unwrap().0 }
    }

    fn range_proof(&self, value: u64, id: u8) -> RangeProof {
        let bytes = match self.proofs {
            Proofs::Real => {
                let nonce = self.key(200);
                let key = self.key(id);
                let proof = self.secp.bullet_proof(value, key, nonce.clone(), nonce, None, None);
                proof.proof[..proof.plen].to_vec()
            },
            Proofs::Bullet => vec![id; 674],
            Proofs::Borromean => vec![id; 5126],
        };
        RangeProof::new(bytes).unwrap()
    }

    fn sign(&self, msg: &[u8; 32], key: &SecretKey) -> Signature {
        let msg = Message::from_slice(msg).unwrap();
        let sig = aggsig::sign_single(&self.secp, &msg, key, None, None, None, None, None).unwrap();
        Signature { bytes: sig.to_raw_data() }
    }

    fn output(&self, value: u64, id: u8) -> Output {
        Output {
            features: OutputFeatures::Plain,
            commit: self.commit(value, id),
            switch_commit_hash: SwitchCommitHash { bytes: [id; 32] },
            proof: self.range_proof(value, id),
        }
    }

    // a transaction that spends and makes outputs of the given values and keys
    fn transaction(&self, ins: &[(u64, u8)], outs: &[(u64, u8)], fee: u64, offset: u8) -> Candidate {
        let mut negative: Vec<SecretKey> = ins.iter().map(|i| self.key(i.1)).collect();
        let positive: Vec<SecretKey> = outs.iter().map(|o| self.key(o.1)).collect();
        let mut offset_bytes = [0u8; 32];
        if offset != 0 {
            offset_bytes = [offset; 32];
            negative.push(SecretKey::from_slice(&self.secp, &offset_bytes).unwrap());
        }
        let key = self.secp.blind_sum(positive, negative).unwrap();
        let kernel = TxKernel {
            features: KernelFeatures::Plain,
            fee,
            lock_height: 0,
            excess: Commitment { bytes: self.secp.commit(0, key.clone()).unwrap().0 },
            excess_sig: self.sign(&kernel_sig_msg(fee, 0), &key),
        };
        let inputs = ins
            .iter()
            .map(|i| Input { features: OutputFeatures::Plain, commit: self.commit(i.0, i.1) })
            .collect();
        let outputs = outs.iter().map(|o| self.output(o.0, o.1)).collect();
        Candidate {
            tx: Transaction {
                inputs,
                outputs,
                kernels: vec![kernel],
                offset: BlindingFactor { bytes: offset_bytes },
            },
            verdict: Ok(()),
        }
    }

    fn reply(&self, request: &RewardRequest, id: u8) -> RewardReply {
        RewardReply {
            commit: Ok(self.commit(request.value, id)),
            switch_commit_hash: Ok(SwitchCommitHash { bytes: [id; 32] }),
            range_proof: Ok(self.range_proof(request.value, id)),
            sig: Ok(self.sign(&request.msg, &self.key(id))),
        }
    }
}

// utility to create a block without worrying about the key or previous header
fn new_block(txs: Vec<Candidate>, keychain: &Keychain) -> Block {
    let prev = BlockHeader::default(PARAMS.proof_size);
    let fees = checked_candidate_fees(&txs).unwrap();
    let request = Block::reward_request(&PARAMS, fees, prev.height + 1);
    let reply = keychain.reply(&request, 1);
    Block::new(&PARAMS, &prev, &txs, reply, Difficulty::one()).unwrap()
}

// utility producing a transaction that spends an output with the provided value and blinding
// key
fn txspend1i1o(v: u64, keychain: &Keychain, key_id1: u8, key_id2: u8) -> Candidate {
    keychain.transaction(&[(v, key_id1)], &[(3, key_id2)], 2, 33)
}

fn tx1i2o(seed: u8, proofs: Proofs) -> Candidate {
    Keychain::new(seed, proofs).transaction(&[(7, 1)], &[(3, 2), (2, 3)], 2, 0)
}

fn tx2i1o(seed: u8, proofs: Proofs) -> Candidate {
    Keychain::new(seed, proofs).transaction(&[(10, 1), (11, 2)], &[(19, 3)], 2, 0)
}

fn serialize_block(b: &Block) -> Vec<u8> {
    let mut writer = Writer::new(SerializationMode::Full);
    b.write(&mut writer);
    writer.into_bytes()
}

fn serialize_compact(b: &CompactBlock) -> Vec<u8> {
    let mut writer = Writer::new(SerializationMode::Full);
    b.write(&mut writer);
    writer.into_bytes()
}

#[test]
// block with no inputs/outputs/kernels
// no fees, no reward, no coinbase
fn very_empty_block() {
    let b = Block {
        header: BlockHeader::default(PARAMS.proof_size),
        inputs: vec![],
        outputs: vec![],
        kernels: vec![],
    };

    assert_eq!(
        b.verify_coinbase(&PARAMS),
        Err(Error::Secp(SecpError::IncorrectCommitSum))
    );
}

#[test]
// builds a block with a tx spending another and check that cut_through occurred
fn block_with_cut_through() {
    let keychain = Keychain::new(7, Proofs::Real);
    let btx1 = tx2i1o(9, Proofs::Real);
    let btx2 = keychain.transaction(&[(7, 1)], &[(5, 2)], 2, 0);

    // spending tx2 - reuse key 2
    let btx3 = txspend1i1o(5, &keychain, 2, 3);
    let b = new_block(vec![btx1, btx2, btx3], &keychain);

    // block should have been automatically compacted (including reward
    // output) and should still be valid
    b.validate(&PARAMS).unwrap();
    assert_eq!(b.inputs.len(), 3);
    assert_eq!(b.outputs.len(), 3);
}

#[test]
fn empty_block_with_coinbase_is_valid() {
    let keychain = Keychain::new(7, Proofs::Real);
    let b = new_block(vec![], &keychain);

    assert_eq!(b.inputs.len(), 0);
    assert_eq!(b.outputs.len(), 1);
    assert_eq!(b.kernels.len(), 1);

    let coinbase_outputs = b
        .outputs
        .iter()
        .filter(|out| out.features.contains(OutputFeatures::Coinbase))
        .map(|o| o.clone())
        .collect::<Vec<_>>();
    assert_eq!(coinbase_outputs.len(), 1);

    let coinbase_kernels = b
        .kernels
        .iter()
        .filter(|out| out.features.contains(KernelFeatures::Coinbase))
        .map(|o| o.clone())
        .collect::<Vec<_>>();
    assert_eq!(coinbase_kernels.len(), 1);

    // the block should be valid here (single coinbase output with corresponding
    // txn kernel)
    assert_eq!(b.validate(&PARAMS), Ok(()));
}

#[test]
// test that flipping the coinbase flag on the output features
// invalidates the block and specifically it causes verify_coinbase to fail
fn remove_coinbase_output_flag() {
    let keychain = Keychain::new(7, Proofs::Real);
    let mut b = new_block(vec![], &keychain);

    assert!(b.outputs[0].features.contains(OutputFeatures::Coinbase));
    b.outputs[0].features.remove(OutputFeatures::Coinbase);

    assert_eq!(b.verify_coinbase(&PARAMS), Err(Error::CoinbaseSumMismatch));
    assert_eq!(b.verify_kernels(&PARAMS), Ok(()));

    assert_eq!(b.validate(&PARAMS), Err(Error::CoinbaseSumMismatch));
}

#[test]
// test that flipping the coinbase flag on the kernel features
// invalidates the block and specifically it causes verify_coinbase to fail
fn remove_coinbase_kernel_flag() {
    let keychain = Keychain::new(7, Proofs::Real);
    let mut b = new_block(vec![], &keychain);

    assert!(b.kernels[0].features.contains(KernelFeatures::Coinbase));
    b.kernels[0].features.remove(KernelFeatures::Coinbase);

    assert_eq!(
        b.verify_coinbase(&PARAMS),
        Err(Error::Secp(SecpError::IncorrectCommitSum))
    );

    assert_eq!(
        b.validate(&PARAMS),
        Err(Error::Secp(SecpError::IncorrectCommitSum))
    );
}

#[test]
fn serialize_deserialize_block() {
    let keychain = Keychain::new(7, Proofs::Real);
    let b = new_block(vec![], &keychain);

    let vec = serialize_block(&b);
    let b2 = Block::read(&mut Reader::new(&vec), PARAMS.proof_size).unwrap();

    assert_eq!(b.header, b2.header);
    assert_eq!(b.inputs, b2.inputs);
    assert_eq!(b.outputs, b2.outputs);
    assert_eq!(b.kernels, b2.kernels);
}

#[test]
fn empty_block_serialized_size() {
    for (proofs, target_len) in [(Proofs::Bullet, 1_256), (Proofs::Borromean, 5_708)] {
        let keychain = Keychain::new(7, proofs);
        let b = new_block(vec![], &keychain);
        assert_eq!(serialize_block(&b).len(), target_len);
    }
}

#[test]
fn block_single_tx_serialized_size() {
    for (proofs, target_len) in [(Proofs::Bullet, 2_900), (Proofs::Borromean, 16_256)] {
        let keychain = Keychain::new(7, proofs);
        let tx1 = tx1i2o(9, proofs);
        let b = new_block(vec![tx1], &keychain);
        assert_eq!(serialize_block(&b).len(), target_len);
    }
}

#[test]
fn empty_compact_block_serialized_size() {
    for (proofs, target_len) in [(Proofs::Bullet, 1_264), (Proofs::Borromean, 5_716)] {
        let keychain = Keychain::new(7, proofs);
        let b = new_block(vec![], &keychain);
        assert_eq!(serialize_compact(&b.as_compact_block()).len(), target_len);
    }
}

#[test]
fn compact_block_single_tx_serialized_size() {
    for (proofs, target_len) in [(Proofs::Bullet, 1_270), (Proofs::Borromean, 5_722)] {
        let keychain = Keychain::new(7, proofs);
        let tx1 = tx1i2o(9, proofs);
        let b = new_block(vec![tx1], &keychain);
        assert_eq!(serialize_compact(&b.as_compact_block()).len(), target_len);
    }
}

#[test]
fn block_10_tx_serialized_size() {
    for (proofs, target_len) in [(Proofs::Bullet, 17696), (Proofs::Borromean, 111188)] {
        let keychain = Keychain::new(7, proofs);
        let mut txs = vec![];
        for seed in 0..10 {
            let tx = tx1i2o(20 + seed, proofs);
            txs.push(tx);
        }

        let b = new_block(txs, &keychain);
        assert_eq!(serialize_block(&b).len(), target_len);
    }
}

#[test]
fn compact_block_10_tx_serialized_size() {
    for (proofs, target_len) in [(Proofs::Bullet, 1_324), (Proofs::Borromean, 5_776)] {
        let keychain = Keychain::new(7, proofs);
        let mut txs = vec![];
        for seed in 0..10 {
            let tx = tx1i2o(20 + seed, proofs);
            txs.push(tx);
        }

        let b = new_block(txs, &keychain);
        assert_eq!(serialize_compact(&b.as_compact_block()).len(), target_len);
    }
}

#[test]
fn compact_block_hash_with_nonce() {
    let keychain = Keychain::new(7, Proofs::Bullet);
    let tx = tx1i2o(9, Proofs::Bullet);
    let kernel = tx.tx.kernels[0];
    let b = new_block(vec![tx], &keychain);
    let cb1 = b.as_compact_block();
    let cb2 = b.as_compact_block();

    // random nonce included in hash each time we generate a compact_block
    // so the hash will always be unique (we use this to generate unique short_ids)
    assert!(cb1.hash() != cb2.hash());

    assert!(cb1.kern_ids[0] != cb2.kern_ids[0]);

    // check we can identify the specified kernel from the short_id
    // in either of the compact_blocks
    assert_eq!(cb1.kern_ids[0], kernel.short_id(&cb1.hash()));
    assert_eq!(cb2.kern_ids[0], kernel.short_id(&cb2.hash()));
}

#[test]
fn convert_block_to_compact_block() {
    let keychain = Keychain::new(7, Proofs::Bullet);
    let tx1 = tx1i2o(9, Proofs::Bullet);
    let b = new_block(vec![tx1], &keychain);
    let cb = b.as_compact_block();

    assert_eq!(cb.out_full.len(), 1);
    assert_eq!(cb.kern_full.len(), 1);
    assert_eq!(cb.kern_ids.len(), 1);

    assert_eq!(
        cb.kern_ids[0],
        b.kernels
            .iter()
            .find(|x| !x.features.contains(KernelFeatures::Coinbase))
            .unwrap()
            .short_id(&cb.hash())
    );
}

#[test]
fn hydrate_empty_compact_block() {
    let keychain = Keychain::new(7, Proofs::Bullet);
    let b = new_block(vec![], &keychain);
    let cb = b.as_compact_block();
    let hb = Block::hydrate_from(cb, vec![]);
    assert_eq!(hb.header, b.header);
    assert_eq!(hb.outputs, b.outputs);
    assert_eq!(hb.kernels, b.kernels);
}

#[test]
fn serialize_deserialize_compact_block() {
    let b = CompactBlock {
        header: BlockHeader::default(PARAMS.proof_size),
        nonce: 0,
        out_full: vec![],
        kern_full: vec![],
        kern_ids: vec![ShortId::zero()],
    };

    let vec = serialize_compact(&b);
    let b2 = CompactBlock::read(&mut Reader::new(&vec), PARAMS.proof_size).unwrap();

    assert_eq!(b.header, b2.header);
    assert_eq!(b.kern_ids, b2.kern_ids);
}

#[test]
fn hydrating_gives_back_a_built_block() {
    let keychain = Keychain::new(7, Proofs::Bullet);
    let tx1 = keychain.transaction(&[(7, 1)], &[(5, 2)], 2, 0);
    let tx2 = txspend1i1o(5, &keychain, 2, 3);
    // in another order, and one of them twice
    let txs = vec![tx2.tx.clone(), tx1.tx.clone(), tx2.tx.clone()];
    let b = new_block(vec![tx1, tx2], &keychain);
    assert_eq!((b.inputs.len(), b.outputs.len(), b.kernels.len()), (1, 2, 3));
    let hb = Block::hydrate_from(b.as_compact_block(), txs);
    assert_eq!(hb, b);
}

#[test]
fn a_built_block_follows_the_previous_one() {
    let keychain = Keychain::new(7, Proofs::Bullet);
    let mut prev = BlockHeader::default(PARAMS.proof_size);
    prev.height = 41;
    prev.total_difficulty = Difficulty::from_num(1_000);
    let tx = tx1i2o(9, Proofs::Bullet);
    let request = Block::reward_request(&PARAMS, 2, 42);
    let txs = vec![tx];
    let b = Block::new(
        &PARAMS,
        &prev,
        &txs,
        keychain.reply(&request, 1),
        Difficulty::from_num(10),
    )
    .unwrap();
    assert_eq!(b.header.version, 1);
    assert_eq!(b.header.height, 42);
    assert_eq!(b.header.previous, prev.hash());
    assert_eq!(b.header.difficulty, Difficulty::one());
    assert_eq!(b.header.total_difficulty, Difficulty::from_num(1_010));
    assert_eq!(b.header.kernel_offset, BlindingFactor::zero());
    assert!(b.header.timestamp > 1_500_000_000);
    assert_eq!(b.total_fees(), 2);
    assert_eq!(b.overage(&PARAMS), 1 - 60_000_000_000);
    assert_eq!(b.verify_sorted(), Ok(()));
    assert_eq!(b.verify_coinbase(&PARAMS), Ok(()));
    assert_eq!(b.verify_kernel_rules(), Ok(()));
    assert_eq!(b.hash(), b.header.hash());
}

#[test]
fn offsets_are_summed() {
    let keychain = Keychain::new(7, Proofs::Real);
    let other = Keychain::new(9, Proofs::Real);
    let tx1 = keychain.transaction(&[(7, 1)], &[(5, 2)], 2, 2);
    let tx2 = other.transaction(&[(7, 1)], &[(5, 2)], 2, 3);
    let b = new_block(vec![tx1, tx2], &keychain);
    assert_eq!(b.header.kernel_offset, BlindingFactor { bytes: [5u8; 32] });
    assert_eq!(b.validate(&PARAMS), Ok(()));
}

#[test]
fn building_ignores_the_order_of_transactions() {
    let keychain = Keychain::new(7, Proofs::Bullet);
    let txs: Vec<Candidate> = (1..5u8)
        .map(|n| Keychain::new(10 + n, Proofs::Bullet).transaction(&[(7, 1)], &[(5, 2)], 2, 40 * n))
        .collect();
    let prev = BlockHeader::default(PARAMS.proof_size);
    let request = Block::reward_request(&PARAMS, 8, 1);
    let (out, kern) = Block::reward_output(&PARAMS, keychain.reply(&request, 1), 8, 1).unwrap();
    let build = |order: [usize; 4]| {
        let txs = order
            .iter()
            .map(|i| Candidate { tx: txs[*i].tx.clone(), verdict: Ok(()) })
            .collect();
        let difficulty = Difficulty::one();
        let mut b = Block::with_reward(&PARAMS, &prev, &txs, out.clone(), kern, difficulty).unwrap();
        b.header.timestamp = 0;
        b
    };
    let b = build([0, 1, 2, 3]);
    assert_eq!(b, build([3, 1, 0, 2]));
    assert_eq!(b, build([2, 3, 1, 0]));
    assert!(b.header.kernel_offset != BlindingFactor::zero());
}

#[test]
fn cut_through_keeps_the_balance() {
    let keychain = Keychain::new(7, Proofs::Bullet);
    let input = |v, id| Input { features: OutputFeatures::Plain, commit: keychain.commit(v, id) };
    let b = Block {
        header: BlockHeader::default(PARAMS.proof_size),
        inputs: vec![input(9, 1), input(5, 2), input(4, 3)],
        outputs: vec![keychain.output(5, 2), keychain.output(4, 3), keychain.output(7, 4)],
        kernels: vec![],
    };
    let c = b.cut_through();
    assert_eq!((c.inputs.len(), c.outputs.len()), (1, 1));
    let sum = |b: &Block| {
        let outs = b.outputs.iter().map(|o| o.commit).collect();
        let ins = b.inputs.iter().map(|i| i.commit).collect();
        commit_sum(&outs, &ins).unwrap()
    };
    assert_eq!(sum(&c), sum(&b));
    assert_eq!(c.overage(&PARAMS), b.overage(&PARAMS));
}

#[test]
fn one_reward_does_not_pass_for_another() {
    let keychain = Keychain::new(7, Proofs::Bullet);
    let b = new_block(vec![tx1i2o(9, Proofs::Bullet)], &keychain);
    assert_eq!(b.total_fees(), 2);
    assert_eq!(b.verify_coinbase(&PARAMS), Ok(()));

    // the rest of the block makes no difference, and neither does a fee that is halved away
    let mut other = b.clone();
    other.header.height = 77;
    other.inputs.clear();
    other.outputs.retain(|o| o.features == OutputFeatures::Coinbase);
    assert_eq!(other.verify_coinbase(&PARAMS), Ok(()));
    let plain = other.kernels.iter().position(|k| k.features == KernelFeatures::Plain).unwrap();
    other.kernels[plain].fee = 3;
    assert_eq!(other.verify_coinbase(&PARAMS), Ok(()));

    // another reward is refused
    for fee in [0, 4, 1_000_000] {
        other.kernels[plain].fee = fee;
        assert_eq!(other.verify_coinbase(&PARAMS), Err(Error::CoinbaseSumMismatch));
    }
}

#[test]
fn cut_through_leaves_a_malformed_commitment() {
    let keychain = Keychain::new(7, Proofs::Bullet);
    let input = |v, id| Input { features: OutputFeatures::Plain, commit: keychain.commit(v, id) };
    let mut b = Block {
        header: BlockHeader::default(PARAMS.proof_size),
        inputs: vec![input(9, 1), input(5, 2)],
        outputs: vec![keychain.output(5, 2), keychain.output(7, 4)],
        kernels: vec![],
    };
    b.outputs[1].commit = Commitment { bytes: [0; 33] };
    let sum = |b: &Block| {
        let outs = b.outputs.iter().map(|o| o.commit).collect();
        let ins = b.inputs.iter().map(|i| i.commit).collect();
        commit_sum(&outs, &ins)
    };
    let c = b.cut_through();
    assert_eq!((c.inputs.len(), c.outputs.len()), (1, 1));
    assert_eq!(sum(&b), Err(SecpError::InvalidCommit));
    assert_eq!(sum(&c), sum(&b));
}

#[test]
fn hydrating_ignores_the_nonce() {
    let keychain = Keychain::new(7, Proofs::Bullet);
    let tx = tx1i2o(9, Proofs::Bullet);
    let txs = vec![tx.tx.clone()];
    let b = new_block(vec![tx], &keychain);
    let one = Block::hydrate_from(b.as_compact_block_with(1), txs.clone());
    assert_eq!(one, Block::hydrate_from(b.as_compact_block_with(2), txs));
    assert_eq!(one, b);
}

#[test]
fn offsets_that_cancel_out_are_an_error() {
    let keychain = Keychain::new(7, Proofs::Bullet);
    let mut tx1 = keychain.transaction(&[(7, 1)], &[(5, 2)], 2, 2);
    let mut tx2 = tx1i2o(9, Proofs::Bullet);
    tx1.tx.offset = BlindingFactor { bytes: [1u8; 32] };
    let one = SecretKey::from_slice(&keychain.secp, &[1u8; 32]).unwrap();
    let two = SecretKey::from_slice(&keychain.secp, &[2u8; 32]).unwrap();
    let minus = keychain.secp.blind_sum(vec![one.clone()], vec![two]).unwrap();
    tx2.tx.offset = BlindingFactor { bytes: minus.0 };
    let txs = vec![tx1, tx2];
    let prev = BlockHeader::default(PARAMS.proof_size);
    let request = Block::reward_request(&PARAMS, 4, 1);
    let reply = keychain.reply(&request, 1);
    let r = Block::new(&PARAMS, &prev, &txs, reply, Difficulty::one());
    assert_eq!(r, Err(Error::Secp(SecpError::InvalidSecretKey)));
}

#[test]
fn the_first_invalid_transaction_is_reported() {
    let keychain = Keychain::new(7, Proofs::Bullet);
    let mut tx1 = tx1i2o(9, Proofs::Bullet);
    let mut tx2 = tx1i2o(10, Proofs::Bullet);
    tx1.verdict = Err(TransactionError::Consensus(ConsensusError::SortError));
    tx2.verdict = Err(TransactionError::KernelSumMismatch);
    let tx3 = tx1i2o(11, Proofs::Bullet);
    let prev = BlockHeader::default(PARAMS.proof_size);
    let request = Block::reward_request(&PARAMS, 6, 1);
    let reply = keychain.reply(&request, 1);
    let txs = vec![tx3, tx1, tx2];
    let r = Block::new(&PARAMS, &prev, &txs, reply, Difficulty::one());
    assert_eq!(
        r,
        Err(Error::Transaction(TransactionError::Consensus(ConsensusError::SortError)))
    );
}

#[test]
fn a_failure_to_make_the_reward_is_reported() {
    let keychain = Keychain::new(7, Proofs::Bullet);
    let prev = BlockHeader::default(PARAMS.proof_size);
    let request = Block::reward_request(&PARAMS, 0, 1);
    let mut reply = keychain.reply(&request, 1);
    reply.range_proof = Err(KeychainError::KeyDerivation);
    reply.sig = Err(KeychainError::Transaction);
    let txs = vec![];
    let r = Block::new(&PARAMS, &prev, &txs, reply, Difficulty::one());
    assert_eq!(r, Err(Error::Keychain(KeychainError::KeyDerivation)));

    let mut reply = keychain.reply(&request, 1);
    reply.sig = Err(KeychainError::Transaction);
    let r = Block::reward_output(&PARAMS, reply, 0, 1);
    assert_eq!(r, Err(KeychainError::Transaction));

    let mut reply = keychain.reply(&request, 1);
    reply.commit = Err(KeychainError::KeyDerivation);
    reply.switch_commit_hash = Err(KeychainError::Transaction);
    let r = Block::reward_output(&PARAMS, reply, 0, 1);
    assert_eq!(r, Err(KeychainError::KeyDerivation));

    let mut reply = keychain.reply(&request, 1);
    reply.switch_commit_hash = Err(KeychainError::Transaction);
    let r = Block::reward_output(&PARAMS, reply, 0, 1);
    assert_eq!(r, Err(KeychainError::Transaction));

    let mut reply = keychain.reply(&request, 1);
    reply.commit = Ok(Commitment { bytes: [0u8; 33] });
    let r = Block::reward_output(&PARAMS, reply, 0, 1);
    assert_eq!(r, Err(KeychainError::Secp(SecpError::InvalidCommit)));

    let reply = keychain.reply(&request, 1);
    let r = reward_pair(reply, Err(SecpError::IncorrectCommitSum), 1);
    assert_eq!(r, Err(KeychainError::Secp(SecpError::IncorrectCommitSum)));
}

#[test]
fn the_reward_is_made_of_the_reply() {
    let keychain = Keychain::new(7, Proofs::Bullet);
    let request = Block::reward_request(&PARAMS, 11, 9);
    assert_eq!(request.value, 60_000_000_005);
    assert_eq!(request.msg, kernel_sig_msg(0, 9));
    let reply = keychain.reply(&request, 4);
    let sig = reply.sig.unwrap();
    let (output, kernel) = Block::reward_output(&PARAMS, reply, 11, 9).unwrap();
    assert_eq!(output.features, OutputFeatures::Coinbase);
    assert_eq!(output.commit, keychain.commit(60_000_000_005, 4));
    assert_eq!(output.switch_commit_hash, SwitchCommitHash { bytes: [4; 32] });
    assert_eq!(output.proof, keychain.range_proof(60_000_000_005, 4));
    assert_eq!(kernel.features, KernelFeatures::Coinbase);
    assert_eq!(kernel.fee, 0);
    assert_eq!(kernel.lock_height, 9);
    assert_eq!(kernel.excess, keychain.commit(0, 4));
    assert_eq!(kernel.excess_sig, sig);
    assert_eq!(kernel.verify(), Ok(()));
}

#[test]
fn each_rule_has_its_error() {
    let keychain = Keychain::new(7, Proofs::Real);
    let good = new_block(vec![tx1i2o(9, Proofs::Real)], &keychain);
    assert_eq!(good.validate(&PARAMS), Ok(()));

    // one input, three outputs and two kernels weigh 35
    let mut tight = PARAMS;
    tight.max_weight = 35;
    assert_eq!(good.validate(&tight), Ok(()));
    tight.max_weight = 34;
    assert_eq!(good.validate(&tight), Err(Error::WeightExceeded));

    let mut b = good.clone();
    b.outputs.swap(0, 1);
    assert_eq!(b.validate(&PARAMS), Err(Error::Consensus(ConsensusError::SortError)));
    assert_eq!(b.verify_kernels(&PARAMS), Ok(()));

    let mut b = good.clone();
    b.kernels.swap(0, 1);
    assert_eq!(b.verify_sorted(), Err(Error::Consensus(ConsensusError::SortError)));

    let mut b = good.clone();
    b.kernels[0].lock_height = 2;
    assert_eq!(b.verify_kernels(&PARAMS), Err(Error::KernelLockHeight(2)));
    b.kernels[0].fee = 3;
    assert_eq!(b.verify_kernels(&PARAMS), Err(Error::OddKernelFee));

    let mut b = good.clone();
    b.header.kernel_offset = BlindingFactor { bytes: [1u8; 32] };
    assert_eq!(b.verify_kernels(&PARAMS), Err(Error::KernelSumMismatch));
    b.header.kernel_offset = BlindingFactor { bytes: [255u8; 32] };
    assert_eq!(
        b.verify_kernels(&PARAMS),
        Err(Error::Keychain(KeychainError::Secp(SecpError::InvalidSecretKey)))
    );

    let mut b = good.clone();
    b.kernels[0].excess_sig = b.kernels[1].excess_sig;
    assert_eq!(
        b.verify_kernels(&PARAMS),
        Err(Error::Secp(SecpError::IncorrectSignature))
    );

    let mut b = good.clone();
    let swapped = b.outputs[0].clone();
    b.outputs[0].proof = b.outputs[1].proof.duplicate();
    b.outputs[1].proof = swapped.proof;
    assert_eq!(
        b.verify_kernels(&PARAMS),
        Err(Error::Secp(SecpError::InvalidRangeProof))
    );

    let mut b = good.clone();
    b.inputs[0].commit = Commitment { bytes: [0u8; 33] };
    assert_eq!(b.verify_kernels(&PARAMS), Err(Error::Secp(SecpError::InvalidCommit)));
    assert_eq!(b.verify_proofs(), Ok(()));
}

#[test]
fn coinbase_matures_after_a_thousand_blocks() {
    let keychain = Keychain::new(7, Proofs::Bullet);
    let b = new_block(vec![tx1i2o(9, Proofs::Bullet)], &keychain);
    assert_eq!(b.header.height, 1);
    let reward = b.outputs.iter().find(|o| o.features == OutputFeatures::Coinbase).unwrap();
    let input = Input { features: OutputFeatures::Coinbase, commit: reward.commit };
    assert_eq!(
        b.verify_coinbase_maturity(&PARAMS, &input, 1_000),
        Err(Error::ImmatureCoinbase { height: 1_000, lock_height: 1_001 })
    );
    assert_eq!(b.verify_coinbase_maturity(&PARAMS, &input, 1_001), Ok(()));
    assert_eq!(b.verify_coinbase_maturity(&PARAMS, &input, 5_000), Ok(()));

    // an output with this commitment that is not that of a reward does not count
    let plain = b.outputs.iter().find(|o| o.features == OutputFeatures::Plain).unwrap();
    let input = Input { features: OutputFeatures::Coinbase, commit: plain.commit };
    assert_eq!(
        b.verify_coinbase_maturity(&PARAMS, &input, 5_000),
        Err(Error::Other("output not found in block".to_string()))
    );
}
