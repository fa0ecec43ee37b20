use grin_block::secp::{
    commit, commit_sum, commit_value, convert_error, sum_offsets, verify_range_proof, verify_signature,
    BlindingFactor, Commitment, RangeProof, SecpError, Signature,
};
use secp256k1zkp::{aggsig, ContextFlag, Message, Secp256k1, SecretKey};

fn secp() -> Secp256k1 {
    Secp256k1::with_caps(ContextFlag::Commit)
}

fn key(n: u8) -> SecretKey {
    SecretKey::from_slice(&secp(), &[n; 32]).unwrap()
}

fn factor(n: u8) -> BlindingFactor {
    BlindingFactor { bytes: [n; 32] }
}

#[test]
fn commitments_are_those_of_the_curve() {
    let c = commit_value(5).unwrap();
    assert_eq!(c.bytes, secp().commit_value(5).unwrap().0);
    assert!(c != commit_value(6).unwrap());
    let c = commit(5, &factor(3)).unwrap();
    assert_eq!(c.bytes, secp().commit(5, key(3)).unwrap().0);
    assert!(c != commit(5, &factor(4)).unwrap());
    assert!(c != commit(6, &factor(3)).unwrap());
}

#[test]
fn commitments_add_up() {
    let a = commit(2, &factor(3)).unwrap();
    let b = commit(3, &factor(4)).unwrap();
    let c = commit(5, &factor(7)).unwrap();
    assert_eq!(commit_sum(&vec![a, b], &vec![]), Ok(c));
    assert_eq!(commit_sum(&vec![c], &vec![b]), Ok(a));
    // a sum sums to itself
    assert_eq!(commit_sum(&vec![c], &vec![]), Ok(c));
    assert_eq!(commit_sum(&vec![c], &vec![a, b]), Err(SecpError::IncorrectCommitSum));
    assert_eq!(commit_sum(&vec![], &vec![]), Err(SecpError::IncorrectCommitSum));
    let bad = Commitment { bytes: [0; 33] };
    assert_eq!(commit_sum(&vec![bad], &vec![]), Err(SecpError::InvalidCommit));
    assert!(a.same(&a));
    assert!(!a.same(&b));
}

#[test]
fn keys_are_in_range() {
    assert_eq!(factor(3).secret_key(), Ok(factor(3)));
    assert_eq!(factor(0).secret_key(), Err(SecpError::InvalidSecretKey));
    assert_eq!(factor(255).secret_key(), Err(SecpError::InvalidSecretKey));
    assert!(factor(0).is_zero());
    assert!(!factor(1).is_zero());
    assert_eq!(BlindingFactor::zero(), factor(0));
}

#[test]
fn offsets_add_up() {
    assert_eq!(sum_offsets(&vec![factor(2), factor(3)]), Ok(factor(5)));
    // zeros and what is no key do not count
    assert_eq!(sum_offsets(&vec![factor(2), factor(0), factor(255)]), Ok(factor(2)));
    assert_eq!(sum_offsets(&vec![factor(0)]), Ok(factor(0)));
    assert_eq!(sum_offsets(&vec![]), Ok(factor(0)));
}

#[test]
fn range_proofs_belong_to_their_commitment() {
    let secp = secp();
    let proof = secp.bullet_proof(7, key(3), key(9), key(9), None, None);
    let proof = RangeProof::new(proof.proof[..proof.plen].to_vec()).unwrap();
    let c = commit(7, &factor(3)).unwrap();
    assert_eq!(verify_range_proof(&c, &proof), Ok(()));
    let other = commit(8, &factor(3)).unwrap();
    assert_eq!(verify_range_proof(&other, &proof), Err(SecpError::InvalidRangeProof));
    let empty = RangeProof::new(vec![]).unwrap();
    assert_eq!(verify_range_proof(&c, &empty), Err(SecpError::InvalidRangeProof));
    let mut bytes = proof.as_slice().to_vec();
    bytes[100] ^= 1;
    let bad = RangeProof::new(bytes).unwrap();
    assert_eq!(verify_range_proof(&c, &bad), Err(SecpError::InvalidRangeProof));
}

#[test]
fn signatures_belong_to_message_and_key() {
    let secp = secp();
    let msg = [6u8; 32];
    let message = Message::from_slice(&msg).unwrap();
    let sig = aggsig::sign_single(&secp, &message, &key(3), None, None, None, None, None).unwrap();
    let sig = Signature { bytes: sig.to_raw_data() };
    let excess = commit(0, &factor(3)).unwrap();
    assert_eq!(verify_signature(&sig, &msg, &excess), Ok(true));
    assert_eq!(verify_signature(&sig, &[7u8; 32], &excess), Ok(false));
    let other = commit(0, &factor(4)).unwrap();
    assert_eq!(verify_signature(&sig, &msg, &other), Ok(false));
    let bad = Commitment { bytes: [0; 33] };
    assert_eq!(verify_signature(&sig, &msg, &bad), Err(SecpError::InvalidCommit));
}

// the order of the curve less `n`
fn below_order(n: u8) -> [u8; 32] {
    let mut bytes = secp256k1zkp::constants::CURVE_ORDER;
    bytes[31] -= n;
    bytes
}

#[test]
fn keys_are_below_the_order() {
    let last = BlindingFactor { bytes: below_order(1) };
    assert_eq!(last.secret_key(), Ok(last));
    let order = BlindingFactor { bytes: below_order(0) };
    assert_eq!(order.secret_key(), Err(SecpError::InvalidSecretKey));
    let mut one = [0u8; 32];
    one[31] = 1;
    let one = BlindingFactor { bytes: one };
    assert_eq!(one.secret_key(), Ok(one));
}

#[test]
fn offsets_are_summed_modulo_the_order() {
    let last = BlindingFactor { bytes: below_order(1) };
    let mut three = [0u8; 32];
    three[31] = 3;
    let mut two = [0u8; 32];
    two[31] = 2;
    let (two, three) = (BlindingFactor { bytes: two }, BlindingFactor { bytes: three });
    assert_eq!(sum_offsets(&vec![last, three]), Ok(two));
    assert_eq!(sum_offsets(&vec![three, last]), Ok(two));
    let before = BlindingFactor { bytes: below_order(3) };
    assert_eq!(sum_offsets(&vec![three, before]), Err(SecpError::InvalidSecretKey));
}

#[test]
fn amounts_add_up() {
    let sum = commit_sum(&vec![commit_value(2).unwrap(), commit_value(3).unwrap()], &vec![]);
    assert_eq!(sum, commit_value(5));
    // a key and a value add up
    let parts = vec![commit(0, &factor(3)).unwrap(), commit_value(5).unwrap()];
    assert_eq!(commit_sum(&parts, &vec![]), commit(5, &factor(3)));
    // nothing is no commitment, and neither is what a key out of range blinds
    assert_eq!(commit_value(0), commit(9, &factor(255)));
    let none = vec![commit_value(0).unwrap()];
    assert_eq!(commit_sum(&none, &vec![]), Err(SecpError::InvalidCommit));
}

#[test]
fn errors_keep_their_names() {
    let pairs = [
        (secp256k1zkp::Error::IncapableContext, SecpError::IncapableContext),
        (secp256k1zkp::Error::IncorrectSignature, SecpError::IncorrectSignature),
        (secp256k1zkp::Error::InvalidMessage, SecpError::InvalidMessage),
        (secp256k1zkp::Error::InvalidPublicKey, SecpError::InvalidPublicKey),
        (secp256k1zkp::Error::InvalidCommit, SecpError::InvalidCommit),
        (secp256k1zkp::Error::InvalidSignature, SecpError::InvalidSignature),
        (secp256k1zkp::Error::InvalidSecretKey, SecpError::InvalidSecretKey),
        (secp256k1zkp::Error::InvalidRecoveryId, SecpError::InvalidRecoveryId),
        (secp256k1zkp::Error::IncorrectCommitSum, SecpError::IncorrectCommitSum),
        (secp256k1zkp::Error::InvalidRangeProof, SecpError::InvalidRangeProof),
        (secp256k1zkp::Error::PartialSigFailure, SecpError::PartialSigFailure),
        (secp256k1zkp::Error::SigSubtractionFailure, SecpError::SigSubtractionFailure),
    ];
    for (outside, own) in pairs {
        assert_eq!(convert_error(outside as u8), own);
    }
}
