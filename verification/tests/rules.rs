use grin_block::block::Block;
use grin_block::consensus::{ChainParams, ConsensusError};
use grin_block::error::{Error, KeychainError};
use grin_block::header::{BlockHeader, Difficulty};
use grin_block::mining::checked_candidate_fees;
use grin_block::secp::{BlindingFactor, Commitment, RangeProof, SecpError, Signature};
use grin_block::transaction::{
    checked_fee_sum, signature_outcome, Candidate, Input, KernelFeatures, Output, OutputFeatures,
    SwitchCommitHash, Transaction, TransactionError, TxKernel,
};
use grin_block::validate::{compare_coinbase_sums, compare_kernel_sums};

const PARAMS: ChainParams = ChainParams {
    proof_size: 2,
    coinbase_maturity: 3,
    subsidy: 50,
    input_weight: 1,
    output_weight: 10,
    kernel_weight: 2,
    max_weight: 100,
};

fn commit(n: u8) -> Commitment {
    Commitment { bytes: [n; 33] }
}

fn input(n: u8) -> Input {
    Input { features: OutputFeatures::Plain, commit: commit(n) }
}

fn output(features: OutputFeatures, n: u8) -> Output {
    Output {
        features,
        commit: commit(n),
        switch_commit_hash: SwitchCommitHash { bytes: [n; 32] },
        proof: RangeProof::new(vec![n; 3]).unwrap(),
    }
}

fn kernel(features: KernelFeatures, fee: u64, lock_height: u64, n: u8) -> TxKernel {
    TxKernel {
        features,
        fee,
        lock_height,
        excess: commit(n),
        excess_sig: Signature { bytes: [n; 64] },
    }
}

fn block(inputs: &[u8], outputs: Vec<Output>) -> Block {
    Block {
        header: BlockHeader::default(2),
        inputs: inputs.iter().map(|n| input(*n)).collect(),
        outputs,
        kernels: vec![kernel(KernelFeatures::Plain, 4, 0, 1)],
    }
}

fn plain(n: u8) -> Output {
    output(OutputFeatures::Plain, n)
}

fn coinbase(n: u8) -> Output {
    output(OutputFeatures::Coinbase, n)
}

fn candidate(inputs: &[u8], outputs: Vec<Output>, fee: u64, n: u8) -> Candidate {
    Candidate {
        tx: Transaction {
            inputs: inputs.iter().map(|n| input(*n)).collect(),
            outputs,
            kernels: vec![kernel(KernelFeatures::Plain, fee, 0, n)],
            offset: BlindingFactor::zero(),
        },
        verdict: Ok(()),
    }
}

#[test]
fn cut_through_takes_what_is_made_and_spent() {
    let b = block(&[5, 1, 3], vec![plain(3), plain(2), plain(5), plain(9)]);
    let c = b.cut_through();
    assert_eq!(c.inputs, vec![input(1)]);
    assert_eq!(c.outputs, vec![plain(2), plain(9)]);
    assert_eq!(c.header, b.header);
    assert_eq!(c.kernels, b.kernels);
    assert_eq!(c.total_fees(), b.total_fees());
    assert_eq!(c.cut_through(), c);
    assert_eq!(c.hash(), b.hash());
}

#[test]
fn cut_through_is_stable() {
    let b = block(&[9, 5, 7, 1], vec![plain(8), plain(5), plain(6), plain(2)]);
    let c = b.cut_through();
    assert_eq!(c.inputs, vec![input(9), input(7), input(1)]);
    assert_eq!(c.outputs, vec![plain(8), plain(6), plain(2)]);
}

#[test]
fn cut_through_preserves_coinbase() {
    // a new coinbase output, and an input that spends an earlier one
    let b = block(&[5], vec![coinbase(5), plain(6)]);
    assert_eq!(b.cut_through(), b);

    // beside an output with the same commitment that is spent
    let b = block(&[5], vec![coinbase(5), plain(5)]);
    let c = b.cut_through();
    assert_eq!(c.inputs, vec![]);
    assert_eq!(c.outputs, vec![coinbase(5)]);
}

#[test]
fn cut_through_takes_all_with_the_same_commitment() {
    let b = block(&[5, 5], vec![plain(5)]);
    let c = b.cut_through();
    assert!(c.inputs.is_empty());
    assert!(c.outputs.is_empty());
}

#[test]
fn cut_through_keeps_order() {
    let b = block(&[1, 2, 3, 4], vec![plain(2), plain(3), plain(7), plain(8)]);
    assert_eq!(b.verify_sorted(), Ok(()));
    assert_eq!(b.cut_through().verify_sorted(), Ok(()));
}

#[test]
fn reward_is_subsidy_and_half_of_the_fees() {
    assert_eq!(PARAMS.reward(0), 50);
    assert_eq!(PARAMS.reward(7), 53);
    let mut params = PARAMS;
    params.subsidy = i64::MAX as u64;
    assert_eq!(params.reward(u64::MAX), u64::MAX - 1);
}

#[test]
fn overage_is_half_of_the_fees_less_the_subsidy() {
    let mut b = block(&[], vec![]);
    assert_eq!(b.overage(&PARAMS), 2 - 50);
    b.kernels[0].fee = 101;
    assert_eq!(b.overage(&PARAMS), 0);
    b.kernels.push(kernel(KernelFeatures::Plain, u64::MAX - 101, 0, 2));
    assert_eq!(b.total_fees(), u64::MAX);
    assert_eq!(b.overage(&PARAMS), i64::MAX - 50);
    // what the miner claims less what the transactions pay
    let fees = 48;
    assert_eq!(PARAMS.reward(fees) as i64 - fees as i64, 26);
    b.kernels = vec![kernel(KernelFeatures::Plain, fees, 0, 1)];
    assert_eq!(b.overage(&PARAMS), -26);
}

#[test]
fn fees_are_summed_if_they_fit() {
    let k = |fee| kernel(KernelFeatures::Plain, fee, 0, 1);
    assert_eq!(checked_fee_sum(&vec![]), Some(0));
    assert_eq!(checked_fee_sum(&vec![k(3), k(4)]), Some(7));
    assert_eq!(checked_fee_sum(&vec![k(u64::MAX), k(0)]), Some(u64::MAX));
    assert_eq!(checked_fee_sum(&vec![k(u64::MAX), k(1)]), None);
    let txs = vec![candidate(&[], vec![], 3, 1), candidate(&[], vec![], 5, 2)];
    assert_eq!(checked_candidate_fees(&txs), Some(8));
    assert_eq!(txs[1].tx.fee(), 5);
    let txs = vec![candidate(&[], vec![], u64::MAX, 1), candidate(&[], vec![], 5, 2)];
    assert_eq!(checked_candidate_fees(&txs), None);
}

#[test]
fn weight_is_weighted_by_kind() {
    assert!(!PARAMS.exceeds_weight(100, 0, 0));
    assert!(PARAMS.exceeds_weight(101, 0, 0));
    assert!(!PARAMS.exceeds_weight(0, 10, 0));
    assert!(PARAMS.exceeds_weight(1, 10, 0));
    assert!(!PARAMS.exceeds_weight(0, 0, 50));
    assert!(!PARAMS.exceeds_weight(8, 9, 1));
    assert!(PARAMS.exceeds_weight(9, 9, 1));
    assert!(PARAMS.exceeds_weight(usize::MAX, usize::MAX, usize::MAX));
    let b = block(&[], (0..10).map(|n| plain(n)).collect());
    assert_eq!(b.validate(&PARAMS), Err(Error::WeightExceeded));
}

#[test]
fn the_first_faulty_kernel_is_reported() {
    let mut b = block(&[], vec![]);
    b.header.height = 10;
    let k = |fee, lock_height| kernel(KernelFeatures::Plain, fee, lock_height, 1);
    b.kernels = vec![k(2, 10), k(0, 0)];
    assert_eq!(b.verify_kernel_rules(), Ok(()));
    b.kernels = vec![k(2, 10), k(4, 11), k(3, 0)];
    assert_eq!(b.verify_kernel_rules(), Err(Error::KernelLockHeight(11)));
    b.kernels = vec![k(3, 0), k(4, 11)];
    assert_eq!(b.verify_kernel_rules(), Err(Error::OddKernelFee));
    // of one kernel, the fee is checked first
    b.kernels = vec![k(3, 11)];
    assert_eq!(b.verify_kernels(&PARAMS), Err(Error::OddKernelFee));
}

#[test]
fn sums_are_compared() {
    assert_eq!(compare_coinbase_sums(Ok(commit(1)), Ok(commit(1))), Ok(()));
    assert_eq!(
        compare_coinbase_sums(Ok(commit(1)), Ok(commit(2))),
        Err(Error::CoinbaseSumMismatch)
    );
    assert_eq!(
        compare_coinbase_sums(Err(SecpError::InvalidCommit), Err(SecpError::IncorrectCommitSum)),
        Err(Error::Secp(SecpError::InvalidCommit))
    );
    assert_eq!(
        compare_coinbase_sums(Ok(commit(1)), Err(SecpError::IncorrectCommitSum)),
        Err(Error::Secp(SecpError::IncorrectCommitSum))
    );
    assert_eq!(compare_kernel_sums(Ok(commit(1)), Ok(commit(1))), Ok(()));
    assert_eq!(
        compare_kernel_sums(Ok(commit(1)), Ok(commit(2))),
        Err(Error::KernelSumMismatch)
    );
    assert_eq!(
        compare_kernel_sums(Err(SecpError::InvalidCommit), Err(Error::OddKernelFee)),
        Err(Error::Secp(SecpError::InvalidCommit))
    );
    assert_eq!(
        compare_kernel_sums(
            Ok(commit(1)),
            Err(Error::Keychain(KeychainError::Secp(SecpError::InvalidSecretKey)))
        ),
        Err(Error::Keychain(KeychainError::Secp(SecpError::InvalidSecretKey)))
    );
}

#[test]
fn overage_goes_to_one_side() {
    let b = block(&[1], vec![plain(2)]);
    let over = commit(9);
    assert_eq!(b.balance(5, &over), (vec![commit(2), commit(9)], vec![commit(1)]));
    assert_eq!(b.balance(0, &over), (vec![commit(2)], vec![commit(1)]));
    assert_eq!(b.balance(-5, &over), (vec![commit(2)], vec![commit(1), commit(9)]));
    assert_eq!(*b.inputs_committed(), b.inputs);
    assert_eq!(*b.outputs_committed(), b.outputs);
}

#[test]
fn a_signature_that_does_not_match_is_an_error() {
    assert_eq!(signature_outcome(Ok(true)), Ok(()));
    assert_eq!(signature_outcome(Ok(false)), Err(SecpError::IncorrectSignature));
    assert_eq!(
        signature_outcome(Err(SecpError::InvalidPublicKey)),
        Err(SecpError::InvalidPublicKey)
    );
}

#[test]
fn errors_convert() {
    assert_eq!(
        Error::from(TransactionError::KernelSumMismatch),
        Error::Transaction(TransactionError::KernelSumMismatch)
    );
    assert_eq!(
        Error::from(SecpError::InvalidCommit),
        Error::Secp(SecpError::InvalidCommit)
    );
    assert_eq!(
        Error::from(KeychainError::from(SecpError::InvalidCommit)),
        Error::Keychain(KeychainError::Secp(SecpError::InvalidCommit))
    );
    assert_eq!(
        Error::from(ConsensusError::SortError),
        Error::Consensus(ConsensusError::SortError)
    );
}

#[test]
fn assembling_takes_offset_and_time() {
    let mut prev = BlockHeader::default(2);
    prev.height = 6;
    prev.total_difficulty = Difficulty::from_num(100);
    let txs = vec![candidate(&[8, 5], vec![plain(3)], 2, 7), candidate(&[3], vec![plain(1)], 4, 6)];
    let offset = BlindingFactor { bytes: [9; 32] };
    let reward_kern = kernel(KernelFeatures::Coinbase, 0, 7, 0);
    let b = Block::assemble(
        &PARAMS,
        &prev,
        &txs,
        coinbase(4),
        reward_kern,
        Difficulty::from_num(20),
        Ok(offset),
        1234,
    )
    .unwrap();
    let mut header = BlockHeader::default(2);
    header.height = 7;
    header.previous = prev.hash();
    header.timestamp = 1234;
    header.total_difficulty = Difficulty::from_num(120);
    header.kernel_offset = offset;
    assert_eq!(b.header, header);
    assert_eq!(b.inputs, vec![input(5), input(8)]);
    assert_eq!(b.outputs, vec![plain(1), coinbase(4)]);
    assert_eq!(
        b.kernels,
        vec![
            kernel(KernelFeatures::Plain, 2, 0, 7),
            kernel(KernelFeatures::Plain, 4, 0, 6),
            reward_kern,
        ]
    );
    assert_eq!(b.total_fees(), 6);
    let r = Block::assemble(
        &PARAMS,
        &prev,
        &txs,
        coinbase(4),
        reward_kern,
        Difficulty::from_num(20),
        Err(SecpError::InvalidSecretKey),
        1234,
    );
    assert_eq!(r, Err(Error::Secp(SecpError::InvalidSecretKey)));
}

#[test]
fn the_order_of_transactions_makes_no_difference() {
    let prev = BlockHeader::default(2);
    let tx = |n: u8| candidate(&[n], vec![plain(n + 10), plain(n + 20)], 2, n);
    let build = |txs: Vec<Candidate>| {
        Block::assemble(
            &PARAMS,
            &prev,
            &txs,
            coinbase(4),
            kernel(KernelFeatures::Coinbase, 0, 1, 0),
            Difficulty::one(),
            Ok(BlindingFactor::zero()),
            5,
        )
        .unwrap()
    };
    let b = build(vec![tx(1), tx(2), tx(3)]);
    assert_eq!(b, build(vec![tx(3), tx(1), tx(2)]));
    assert_eq!(b.verify_sorted(), Ok(()));
    assert_eq!(b.verify_kernel_rules(), Ok(()));
}

#[test]
fn kernels_are_summed_with_the_offset() {
    let mut b = block(&[], vec![]);
    b.kernels.push(kernel(KernelFeatures::Plain, 0, 0, 2));
    assert_eq!(b.kernel_commits(None), vec![commit(1), commit(2)]);
    assert_eq!(b.kernel_commits(Some(commit(9))), vec![commit(1), commit(2), commit(9)]);
}

#[test]
fn hydrating_collects_each_item_once() {
    let b = block(&[], vec![coinbase(9), coinbase(2)]);
    let mut cb = b.as_compact_block_with(3);
    cb.kern_full.push(kernel(KernelFeatures::Coinbase, 0, 0, 5));
    let txs = vec![
        candidate(&[4, 1], vec![plain(6), plain(7)], 2, 2),
        candidate(&[1, 6], vec![plain(7)], 2, 1),
    ];
    let txs: Vec<Transaction> = txs.into_iter().map(|c| c.tx).collect();
    let hb = Block::hydrate_from(cb, txs);
    assert_eq!(hb.header, b.header);
    assert_eq!(hb.inputs, vec![input(1), input(4)]);
    assert_eq!(hb.outputs, vec![plain(7), coinbase(2), coinbase(9)]);
    assert_eq!(
        hb.kernels,
        vec![
            kernel(KernelFeatures::Plain, 2, 0, 1),
            kernel(KernelFeatures::Plain, 2, 0, 2),
            kernel(KernelFeatures::Coinbase, 0, 0, 5),
        ]
    );
}

#[test]
fn features_are_flags() {
    assert!(OutputFeatures::Coinbase.contains(OutputFeatures::Plain));
    assert!(OutputFeatures::Coinbase.contains(OutputFeatures::Coinbase));
    assert!(!OutputFeatures::Plain.contains(OutputFeatures::Coinbase));
    let mut f = KernelFeatures::Coinbase;
    f.remove(KernelFeatures::Plain);
    assert_eq!(f, KernelFeatures::Coinbase);
    f.remove(KernelFeatures::Coinbase);
    assert_eq!(f, KernelFeatures::Plain);
}

#[test]
fn maturity_is_counted_from_the_block() {
    let mut b = block(&[], vec![coinbase(1), plain(2)]);
    b.header.height = 7;
    let spend = Input { features: OutputFeatures::Coinbase, commit: commit(1) };
    assert_eq!(
        b.verify_coinbase_maturity(&PARAMS, &spend, 9),
        Err(Error::ImmatureCoinbase { height: 9, lock_height: 10 })
    );
    assert_eq!(b.verify_coinbase_maturity(&PARAMS, &spend, 10), Ok(()));
}
