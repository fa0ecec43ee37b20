//! Pedersen commitments, blinding factors and signatures on the curve secp256k1.
//!
//! The curve arithmetic is that of the crate `secp256k1zkp`. A commitment is a point of the
//! curve, and a point is a multiple of the generator: what sums of commitments are is said
//! here over those multiples (`log_of`, `point_bytes`, `value_log`). The checks of range
//! proofs and signatures have a name each.

use vstd::prelude::*;
use crate::laws::amounts::{law_commitments_are_summed, law_logs_add_up, law_offsets_add_up};
use crate::order::{views, Wire};
use crate::ser::{
    be_bound, be_bytes, be_value, lemma_value_of_bytes, same_bytes, Reader, SerError, Writer,
};
use crate::totals::{lemma_total_of_one, total};

verus! {

/// What went wrong in a curve operation.
#[derive(Clone, Copy, Debug, PartialEq, Eq)]
pub enum SecpError {
    /// The context lacks the tables that the operation needs.
    IncapableContext,
    /// A signature does not belong to the message and the key.
    IncorrectSignature,
    /// A message does not have 32 bytes.
    InvalidMessage,
    /// A public key is malformed.
    InvalidPublicKey,
    /// A commitment is malformed.
    InvalidCommit,
    /// A signature is malformed.
    InvalidSignature,
    /// A secret key is malformed or out of range.
    InvalidSecretKey,
    /// A recovery id is out of range.
    InvalidRecoveryId,
    /// A sum of commitments is not a commitment.
    IncorrectCommitSum,
    /// A range proof does not belong to its commitment.
    InvalidRangeProof,
    /// A partial signature could not be made.
    PartialSigFailure,
    /// The difference of two signatures is not a signature.
    SigSubtractionFailure,
}

/// A Pedersen commitment, in its compressed form.
#[derive(Clone, Copy, Debug, PartialEq, Eq)]
pub struct Commitment {
    pub bytes: [u8; 33],
}

impl View for Commitment {
    type V = Seq<u8>;

    open spec fn view(&self) -> Seq<u8> {
        self.bytes@
    }
}

impl Commitment {
    /// Whether two commitments are equal.
    pub fn same(&self, other: &Commitment) -> (r: bool)
        ensures
            r == (self@ == other@),
    {
        same_bytes(self.bytes.as_slice(), other.bytes.as_slice())
    }
}

impl Wire for Commitment {
    open spec fn valid(v: Seq<u8>) -> bool {
        v.len() == 33
    }

    open spec fn encode(v: Seq<u8>) -> Seq<u8> {
        v
    }

    open spec fn parse(s: Seq<u8>) -> Result<(Seq<u8>, Seq<u8>), SerError> {
        if s.len() < 33 {
            Err(SerError::UnexpectedEof)
        } else {
            Ok((s.take(33), s.skip(33)))
        }
    }

    proof fn lemma_parse_of_encode(v: Seq<u8>, rest: Seq<u8>) {
        assert((v + rest).take(33) =~= v);
        assert((v + rest).skip(33) =~= rest);
    }

    proof fn lemma_encode_of_parse(s: Seq<u8>) {
        if s.len() >= 33 {
            assert(s =~= s.take(33) + s.skip(33));
        }
    }

    fn write(&self, writer: &mut Writer) {
        writer.write_fixed_bytes(self.bytes.as_slice());
    }

    fn read(reader: &mut Reader) -> (r: Result<Commitment, SerError>) {
        match reader.read_array::<33>() {
            Ok(bytes) => Ok(Commitment { bytes }),
            Err(e) => Err(e),
        }
    }

    fn duplicate(&self) -> (r: Commitment) {
        *self
    }
}

/// A blinding factor, or the sum of some.
#[derive(Clone, Copy, Debug, PartialEq, Eq)]
pub struct BlindingFactor {
    pub bytes: [u8; 32],
}

impl View for BlindingFactor {
    type V = Seq<u8>;

    open spec fn view(&self) -> Seq<u8> {
        self.bytes@
    }
}

/// The bytes of the blinding factor that blinds nothing.
pub open spec fn zero_factor() -> Seq<u8> {
    Seq::new(32, |i: int| 0u8)
}

impl BlindingFactor {
    /// The blinding factor that blinds nothing.
    pub fn zero() -> (r: BlindingFactor)
        ensures
            r@ == zero_factor(),
            r@ == Seq::new(32, |i: int| 0u8),
    {
        let r = BlindingFactor { bytes: [0u8; 32] };
        assert(r@ =~= zero_factor());
        r
    }

    /// Whether this blinding factor blinds nothing.
    pub fn is_zero(&self) -> (r: bool)
        ensures
            r == (self@ == zero_factor()),
            r == (self@ == Seq::new(32, |i: int| 0u8)),
    {
        let zero = BlindingFactor::zero();
        same_bytes(self.bytes.as_slice(), zero.bytes.as_slice())
    }
}

/// A single-signer signature: the x coordinate of the nonce, then the scalar.
#[derive(Clone, Copy, Debug, PartialEq, Eq)]
pub struct Signature {
    pub bytes: [u8; 64],
}

impl View for Signature {
    type V = Seq<u8>;

    open spec fn view(&self) -> Seq<u8> {
        self.bytes@
    }
}

/// The size of the largest range proof, in bytes.
pub const MAX_PROOF_SIZE: usize = 5134;

/// A proof that the value in a commitment is not negative.
#[derive(Debug, PartialEq, Eq)]
pub struct RangeProof {
    bytes: Vec<u8>,
}

impl View for RangeProof {
    type V = Seq<u8>;

    closed spec fn view(&self) -> Seq<u8> {
        self.bytes@
    }
}

impl RangeProof {
    #[verifier::type_invariant]
    spec fn fits(self) -> bool {
        self.bytes@.len() <= MAX_PROOF_SIZE
    }

    /// The proof with the given bytes, unless they are too many.
    pub fn new(bytes: Vec<u8>) -> (r: Option<RangeProof>)
        ensures
            match r {
                Some(proof) => proof@ == bytes@ && bytes@.len() <= MAX_PROOF_SIZE,
                None => bytes@.len() > MAX_PROOF_SIZE,
            },
    {
        if bytes.len() <= MAX_PROOF_SIZE {
            Some(RangeProof { bytes })
        } else {
            None
        }
    }

    /// The bytes of the proof.
    pub fn as_slice(&self) -> (r: &[u8])
        ensures
            r@ == self@,
            self@.len() <= MAX_PROOF_SIZE,
    {
        proof {
            use_type_invariant(self);
        }
        self.bytes.as_slice()
    }

    /// The same proof again.
    pub fn duplicate(&self) -> (r: RangeProof)
        ensures
            r@ == self@,
            self@.len() <= MAX_PROOF_SIZE,
    {
        proof {
            use_type_invariant(self);
        }
        RangeProof { bytes: vstd::slice::slice_to_vec(self.bytes.as_slice()) }
    }
}

/// The outcome of an operation, with the value by its view.
pub open spec fn outcome<T: View>(r: Result<T, SecpError>) -> Result<T::V, SecpError> {
    match r {
        Ok(x) => Ok(x@),
        Err(e) => Err(e),
    }
}

/// The error that the curve library declares at the place `code` of its list of errors.
pub open spec fn secp_error(code: u8) -> SecpError {
    if code == 0 {
        SecpError::IncapableContext
    } else if code == 1 {
        SecpError::IncorrectSignature
    } else if code == 2 {
        SecpError::InvalidMessage
    } else if code == 3 {
        SecpError::InvalidPublicKey
    } else if code == 4 {
        SecpError::InvalidCommit
    } else if code == 5 {
        SecpError::InvalidSignature
    } else if code == 6 {
        SecpError::InvalidSecretKey
    } else if code == 7 {
        SecpError::InvalidRecoveryId
    } else if code == 8 {
        SecpError::IncorrectCommitSum
    } else if code == 9 {
        SecpError::InvalidRangeProof
    } else if code == 10 {
        SecpError::PartialSigFailure
    } else {
        SecpError::SigSubtractionFailure
    }
}

/// The error that the curve library declares at the place `code` of its list of errors.
pub fn convert_error(code: u8) -> (r: SecpError)
    ensures
        r == secp_error(code),
        code == 0 <==> r == SecpError::IncapableContext,
        code == 1 <==> r == SecpError::IncorrectSignature,
        code == 2 <==> r == SecpError::InvalidMessage,
        code == 3 <==> r == SecpError::InvalidPublicKey,
        code == 4 <==> r == SecpError::InvalidCommit,
        code == 5 <==> r == SecpError::InvalidSignature,
        code == 6 <==> r == SecpError::InvalidSecretKey,
        code == 7 <==> r == SecpError::InvalidRecoveryId,
        code == 8 <==> r == SecpError::IncorrectCommitSum,
        code == 9 <==> r == SecpError::InvalidRangeProof,
        code == 10 <==> r == SecpError::PartialSigFailure,
{
    match code {
        0 => SecpError::IncapableContext,
        1 => SecpError::IncorrectSignature,
        2 => SecpError::InvalidMessage,
        3 => SecpError::InvalidPublicKey,
        4 => SecpError::InvalidCommit,
        5 => SecpError::InvalidSignature,
        6 => SecpError::InvalidSecretKey,
        7 => SecpError::InvalidRecoveryId,
        8 => SecpError::IncorrectCommitSum,
        9 => SecpError::InvalidRangeProof,
        10 => SecpError::PartialSigFailure,
        _ => SecpError::SigSubtractionFailure,
    }
}

/// The outcome of a call into the curve library, with the value by its view and the error
/// by its place in the library's list of errors.
pub open spec fn outside_outcome<T: View>(r: Result<T, u8>) -> Result<T::V, SecpError> {
    match r {
        Ok(x) => Ok(x@),
        Err(code) => Err(secp_error(code)),
    }
}

/// The number of points of the curve, the point at infinity among them. All are multiples of
/// the generator.
pub open spec fn curve_order() -> nat {
    0xFFFFFFFF_FFFFFFFF_FFFFFFFF_FFFFFFFE_BAAEDCE6_AF48A03B_BFD25E8C_D0364141nat
}

/// Which multiple of the generator the point is that the curve library reads from the bytes
/// of a commitment (`secp256k1_pedersen_commitment_parse`), or `None` where it reads none.
pub uninterp spec fn log_of(commit: Seq<u8>) -> Option<nat>;

/// How the curve library writes the point that is the given multiple of the generator
/// (`secp256k1_pedersen_commitment_serialize`). For the point at infinity, that is what it
/// makes of a buffer of zeros.
pub uninterp spec fn point_bytes(log: nat) -> Seq<u8>;

/// Which multiple of the generator the commitment to `value` under no blinding is.
pub uninterp spec fn value_log(value: u64) -> nat;

/// Which multiple of the generator an amount is, given the commitment to one unit.
pub open spec fn amount_log(amount: nat) -> nat {
    (amount * value_log(1)) % curve_order()
}

/// The commitment to `value` under no blinding.
pub open spec fn commit_value_of(value: u64) -> Result<Seq<u8>, SecpError> {
    Ok(point_bytes(amount_log(value as nat)))
}

/// Whether `commit` is read as the point of `value`, unless that is the point at infinity.
pub open spec fn is_read_as_amount(commit: Seq<u8>, value: u64) -> bool {
    value > 0 ==> log_of(commit) == Some(amount_log(value as nat))
}

/// Whether `commit`, which is the commitment to `value`, is read as another point than the
/// commitment to any other value.
pub open spec fn is_told_apart(commit: Seq<u8>, value: u64) -> bool {
    value > 0 ==> forall|other: u64|
        0 < other && other != value && log_of(
            #[trigger] point_bytes(amount_log(other as nat)),
        ) is Some ==> (log_value(commit) - log_value(point_bytes(amount_log(other as nat))))
            % curve_order() as int != 0
}

/// Calls `Secp256k1::commit_value`, which multiplies the second generator of the library by
/// the value. Trusted: it succeeds; the point is the value times that of one unit; it is read
/// back from its bytes, unless it is the point at infinity; and other values give other
/// points, because the order of the curve is a prime that no value reaches.
#[verifier::external_body]
fn outside_commit_value(value: u64) -> (r: Result<Commitment, u8>)
    ensures
        outside_outcome(r) == commit_value_of(value),
        r matches Ok(c) ==> c@ == point_bytes(value_log(value)),
        r matches Ok(c) ==> is_read_as_amount(c@, value),
        r matches Ok(c) ==> is_told_apart(c@, value),
{
    let secp = secp256k1zkp::Secp256k1::with_caps(secp256k1zkp::ContextFlag::Commit);
    secp.commit_value(value).map(|c| Commitment { bytes: c.0 }).map_err(|e| e as u8)
}

/// The commitment to `value` under no blinding.
pub fn commit_value(value: u64) -> (r: Result<Commitment, SecpError>)
    ensures
        outcome(r) == commit_value_of(value),
        r matches Ok(c) ==> is_read_as_amount(c@, value),
        r matches Ok(c) ==> is_told_apart(c@, value),
        r matches Ok(c) && c@ == point_bytes(((value * value_log(1)) % curve_order() as int) as nat),
        r matches Ok(c) && (value > 0 ==> log_of(c@) == Some(
            ((value * value_log(1)) % curve_order() as int) as nat,
        )),
{
    match outside_commit_value(value) {
        Ok(c) => Ok(c),
        Err(e) => Err(convert_error(e)),
    }
}

/// Which multiple of the generator the commitment to `value` under the blinding factor `key`
/// is. A key out of range gives the point at infinity.
pub open spec fn blinded_log(value: u64, key: Seq<u8>) -> nat {
    if be_value(key) >= curve_order() {
        0
    } else {
        (be_value(key) + value as nat * value_log(1)) % curve_order()
    }
}

/// The commitment to `value` under the blinding factor `key`.
pub open spec fn commit_of(value: u64, key: Seq<u8>) -> Result<Seq<u8>, SecpError> {
    Ok(point_bytes(blinded_log(value, key)))
}

/// Whether `commit` is read as the given multiple of the generator, unless that is the point
/// at infinity.
pub open spec fn is_read_as(commit: Seq<u8>, log: nat) -> bool {
    log > 0 ==> log_of(commit) == Some(log)
}

/// Calls `Secp256k1::commit`, which multiplies the first generator by the key and the second
/// by the value and adds both. Trusted: it succeeds, the point is that sum, and it is read
/// back from its bytes, unless it is the point at infinity.
#[verifier::external_body]
fn outside_commit(value: u64, key: &BlindingFactor) -> (r: Result<Commitment, u8>)
    ensures
        outside_outcome(r) == commit_of(value, key@),
        r matches Ok(c) ==> is_read_as(c@, blinded_log(value, key@)),
{
    let secp = secp256k1zkp::Secp256k1::with_caps(secp256k1zkp::ContextFlag::Commit);
    let blind = secp256k1zkp::SecretKey(key.bytes);
    secp.commit(value, blind).map(|c| Commitment { bytes: c.0 }).map_err(|e| e as u8)
}

/// The commitment to `value` under the blinding factor `key`.
pub fn commit(value: u64, key: &BlindingFactor) -> (r: Result<Commitment, SecpError>)
    ensures
        outcome(r) == commit_of(value, key@),
        r matches Ok(c) ==> is_read_as(c@, blinded_log(value, key@)),
        be_value(key@) < curve_order() ==> (r matches Ok(c) && c@ == point_bytes(
            ((be_value(key@) + value * value_log(1)) % curve_order() as int) as nat,
        )),
        be_value(key@) < curve_order() && (be_value(key@) + value * value_log(1))
            % curve_order() as int != 0 ==> (r matches Ok(c) && log_of(c@) == Some(
            ((be_value(key@) + value * value_log(1)) % curve_order() as int) as nat,
        )),
{
    match outside_commit(value, key) {
        Ok(c) => Ok(c),
        Err(e) => Err(convert_error(e)),
    }
}

/// Whether the curve library reads a point from each of some commitments.
pub open spec fn all_points(commits: Seq<Seq<u8>>) -> bool {
    forall|i: int| 0 <= i < commits.len() ==> log_of(#[trigger] commits[i]) is Some
}

/// Which multiple of the generator a commitment is that is one.
pub open spec fn log_value(commit: Seq<u8>) -> int {
    match log_of(commit) {
        Some(log) => log as int,
        None => 0,
    }
}

/// Which multiple of the generator the sum of some commitments is.
pub open spec fn log_total(commits: Seq<Seq<u8>>) -> int {
    total(commits, |c: Seq<u8>| log_value(c))
}

/// The commitment that is the given multiple of the generator, unless that is the point at
/// infinity, which is none.
pub open spec fn point_at(log: int) -> Result<Seq<u8>, SecpError> {
    if log % curve_order() as int == 0 {
        Err(SecpError::IncorrectCommitSum)
    } else {
        Ok(point_bytes((log % curve_order() as int) as nat))
    }
}

/// The sum of the commitments in `positive` less those in `negative`.
pub open spec fn commit_sum_of(positive: Seq<Seq<u8>>, negative: Seq<Seq<u8>>) -> Result<
    Seq<u8>,
    SecpError,
> {
    if all_points(positive) && all_points(negative) {
        point_at(log_total(positive) - log_total(negative))
    } else {
        Err(SecpError::InvalidCommit)
    }
}

/// The number that a sum of commitments is read as.
pub open spec fn sum_log(positive: Seq<Seq<u8>>, negative: Seq<Seq<u8>>) -> Option<nat> {
    Some(((log_total(positive) - log_total(negative)) % curve_order() as int) as nat)
}

/// Whether no point but the one that is read from `c` is written as `c`.
pub open spec fn is_written_once(c: Seq<u8>) -> bool {
    forall|log: nat|
        0 < log < curve_order() && #[trigger] point_bytes(log) == c ==> log_of(c) == Some(log)
}

/// Whether `c` is the sum of `c` alone.
pub open spec fn is_own_sum(c: Seq<u8>) -> bool {
    commit_sum_of(seq![c], Seq::empty()) == Ok::<Seq<u8>, SecpError>(c)
}

/// Calls `Secp256k1::commit_sum`. Trusted: it fails where one of the commitments is not read
/// as a point, and where the points sum to the point at infinity; otherwise it writes the
/// sum, the sum is read back from its bytes, and no other point is written as they are.
#[verifier::external_body]
fn outside_commit_sum(positive: &Vec<Commitment>, negative: &Vec<Commitment>) -> (r: Result<
    Commitment,
    u8,
>)
    ensures
        outside_outcome(r) == commit_sum_of(views(positive@), views(negative@)),
        r matches Ok(sum) ==> log_of(sum@) == sum_log(views(positive@), views(negative@)),
        r matches Ok(sum) ==> is_written_once(sum@),
{
    let secp = secp256k1zkp::Secp256k1::with_caps(secp256k1zkp::ContextFlag::Commit);
    let pos = positive.iter().map(|c| secp256k1zkp::pedersen::Commitment(c.bytes)).collect();
    let neg = negative.iter().map(|c| secp256k1zkp::pedersen::Commitment(c.bytes)).collect();
    secp.commit_sum(pos, neg).map(|c| Commitment { bytes: c.0 }).map_err(|e| e as u8)
}

/// The sum of the commitments in `positive` less those in `negative`.
pub fn commit_sum(positive: &Vec<Commitment>, negative: &Vec<Commitment>) -> (r: Result<
    Commitment,
    SecpError,
>)
    ensures
        outcome(r) == commit_sum_of(views(positive@), views(negative@)),
        r matches Ok(sum) ==> log_of(sum@) == sum_log(views(positive@), views(negative@)),
        r matches Ok(sum) ==> is_written_once(sum@),
        r matches Ok(sum) ==> is_own_sum(sum@),
        ({
            let plus = views(positive@).fold_left(
                0int,
                (|sum: int, c: Seq<u8>|
                    sum + match log_of(c) {
                        Some(log) => log as int,
                        None => 0,
                    }),
            );
            let minus = views(negative@).fold_left(
                0int,
                (|sum: int, c: Seq<u8>|
                    sum + match log_of(c) {
                        Some(log) => log as int,
                        None => 0,
                    }),
            );
            let sum = (plus - minus) % curve_order() as int;
            let points = (forall|i: int|
                0 <= i < views(positive@).len() ==> log_of(#[trigger] views(positive@)[i]) is Some) && (forall|
                i: int,
            |
                0 <= i < views(negative@).len() ==> log_of(#[trigger] views(negative@)[i]) is Some);
            &&& r is Ok <==> points && sum != 0
            &&& r matches Ok(c) ==> log_of(c@) == Some(sum as nat) && c@ == point_bytes(sum as nat)
            &&& !points ==> r == Err::<Commitment, SecpError>(SecpError::InvalidCommit)
            &&& points && sum == 0 ==> r == Err::<Commitment, SecpError>(SecpError::IncorrectCommitSum)
        }),
{
    proof {
        law_commitments_are_summed(views(positive@), views(negative@));
        law_logs_add_up(views(positive@));
        law_logs_add_up(views(negative@));
    }
    match outside_commit_sum(positive, negative) {
        Ok(c) => {
            proof {
                let log = |c: Seq<u8>| log_value(c);
                lemma_total_of_one(c@, log);
                assert(total(Seq::<Seq<u8>>::empty(), log) == 0);
                assert(is_own_sum(c@));
            }
            Ok(c)
        },
        Err(e) => Err(convert_error(e)),
    }
}

/// The secret key that has the given bytes: they spell a number from one up to the order of
/// the curve, which is no key any more.
pub open spec fn secret_key_of(bytes: Seq<u8>) -> Result<Seq<u8>, SecpError> {
    if 0 < be_value(bytes) < curve_order() {
        Ok(bytes)
    } else {
        Err(SecpError::InvalidSecretKey)
    }
}

/// Calls `SecretKey::from_slice`. Trusted: it succeeds just for numbers above zero and below
/// the order of the curve, and the key has the bytes it was made of.
#[verifier::external_body]
fn outside_secret_key(bytes: &BlindingFactor) -> (r: Result<BlindingFactor, u8>)
    ensures
        outside_outcome(r) == secret_key_of(bytes@),
{
    let secp = secp256k1zkp::Secp256k1::with_caps(secp256k1zkp::ContextFlag::Commit);
    secp256k1zkp::SecretKey::from_slice(&secp, &bytes.bytes).map(
        |key| BlindingFactor { bytes: key.0 },
    ).map_err(|e| e as u8)
}

/// The sum of the numbers that some keys spell.
pub open spec fn key_total(keys: Seq<Seq<u8>>) -> int {
    total(keys, |key: Seq<u8>| be_value(key) as int)
}

/// The sum of some secret keys modulo the order of the curve, unless that is zero, which is
/// no key.
pub open spec fn blind_sum_of(keys: Seq<Seq<u8>>) -> Result<Seq<u8>, SecpError> {
    let sum = key_total(keys) % curve_order() as int;
    if sum == 0 {
        Err(SecpError::InvalidSecretKey)
    } else {
        Ok(be_bytes(sum as nat, 32))
    }
}

/// Calls `Secp256k1::blind_sum` with positive terms only. Trusted: it sums the keys modulo
/// the order of the curve, and fails where the sum is zero. The call panics on a term that is
/// out of range.
#[verifier::external_body]
fn outside_blind_sum(keys: &Vec<BlindingFactor>) -> (r: Result<BlindingFactor, u8>)
    requires
        forall|i: int| 0 <= i < keys@.len() ==> secret_key_of(#[trigger] keys@[i]@) is Ok,
    ensures
        outside_outcome(r) == blind_sum_of(views(keys@)),
{
    let secp = secp256k1zkp::Secp256k1::with_caps(secp256k1zkp::ContextFlag::Commit);
    let terms = keys.iter().map(|key| secp256k1zkp::SecretKey(key.bytes)).collect();
    secp.blind_sum(terms, Vec::new()).map(|sum| BlindingFactor { bytes: sum.0 }).map_err(
        |e| e as u8,
    )
}

/// A sum of keys spells a number that is congruent to the sum of theirs, and is a key.
pub proof fn lemma_blind_sum(keys: Seq<Seq<u8>>)
    ensures
        blind_sum_of(keys) matches Ok(sum) ==> {
            &&& be_value(sum) == key_total(keys) % curve_order() as int
            &&& secret_key_of(sum) is Ok
        },
{
    let sum = key_total(keys) % curve_order() as int;
    if sum != 0 {
        lemma_order_fits();
        lemma_value_of_bytes(sum as nat, 32);
    }
}

proof fn lemma_order_fits()
    ensures
        curve_order() < be_bound(32),
{
    reveal_with_fuel(be_bound, 33);
}

impl BlindingFactor {
    /// The secret key with the bytes of this blinding factor.
    pub fn secret_key(&self) -> (r: Result<BlindingFactor, SecpError>)
        ensures
            outcome(r) == secret_key_of(self@),
            0 < be_value(self@) < curve_order() ==> (r matches Ok(key) && key@ == self@),
            !(0 < be_value(self@) < curve_order()) ==> r == Err::<BlindingFactor, SecpError>(
                SecpError::InvalidSecretKey,
            ),
    {
        match outside_secret_key(self) {
            Ok(key) => Ok(key),
            Err(e) => Err(convert_error(e)),
        }
    }
}

/// The offsets that count in a sum: those that blind something and are secret keys.
pub open spec fn summable(offset: Seq<u8>) -> bool {
    offset != zero_factor() && secret_key_of(offset) is Ok
}

/// The sum of the offsets that count, or the zero factor where none does.
pub open spec fn offset_sum_of(offsets: Seq<Seq<u8>>) -> Result<Seq<u8>, SecpError> {
    let keys = offsets.filter(|offset: Seq<u8>| summable(offset));
    if keys.len() == 0 {
        Ok(zero_factor())
    } else {
        blind_sum_of(keys)
    }
}

/// Sums blinding factors, leaving out zeros and what is no secret key.
pub fn sum_offsets(offsets: &Vec<BlindingFactor>) -> (r: Result<BlindingFactor, SecpError>)
    ensures
        outcome(r) == offset_sum_of(views(offsets@)),
        r matches Ok(sum) ==> sum@ == zero_factor() || secret_key_of(sum@) is Ok,
        ({
            let sum = views(offsets@).fold_left(
                0int,
                (|sum: int, x: Seq<u8>|
                    if 0 < be_value(x) < curve_order() {
                        sum + be_value(x)
                    } else {
                        sum
                    }),
            ) % curve_order() as int;
            let some = exists|i: int|
                0 <= i < views(offsets@).len() && 0 < be_value(#[trigger] views(offsets@)[i])
                    < curve_order();
            &&& r is Err <==> some && sum == 0
            &&& r matches Ok(offset) ==> be_value(offset@) == sum
            &&& r matches Err(e) ==> e == SecpError::InvalidSecretKey
        }),
{
    proof {
        law_offsets_add_up(views(offsets@));
    }
    let ghost all = views(offsets@);
    let ghost counts = |offset: Seq<u8>| summable(offset);
    let mut keys: Vec<BlindingFactor> = Vec::new();
    let mut i: usize = 0;
    assert(views(keys@) =~= all.take(0).filter(counts)) by {
        reveal(Seq::filter);
    }
    while i < offsets.len()
        invariant
            i <= offsets@.len(),
            all == views(offsets@),
            counts == (|offset: Seq<u8>| summable(offset)),
            views(keys@) == all.take(i as int).filter(counts),
            forall|k: int| 0 <= k < keys@.len() ==> secret_key_of(#[trigger] keys@[k]@) is Ok,
        decreases offsets@.len() - i,
    {
        let ghost before = views(keys@);
        proof {
            assert(all.take(i + 1) =~= all.take(i as int).push(all[i as int]));
            all.take(i as int).lemma_filter_push(all[i as int], counts);
        }
        if !offsets[i].is_zero() {
            match offsets[i].secret_key() {
                Ok(key) => {
                    keys.push(key);
                    assert(views(keys@) =~= before.push(all[i as int]));
                },
                Err(_) => {},
            }
        }
        i += 1;
    }
    assert(all.take(i as int) =~= all);
    assert(views(keys@).len() == keys@.len());
    if keys.len() == 0 {
        Ok(BlindingFactor::zero())
    } else {
        proof {
            lemma_blind_sum(views(keys@));
        }
        match outside_blind_sum(&keys) {
            Ok(sum) => Ok(sum),
            Err(e) => Err(convert_error(e)),
        }
    }
}

/// Whether `proof` shows that the value in `commit` is not negative.
pub uninterp spec fn range_proof_check(commit: Seq<u8>, proof: Seq<u8>) -> Result<(), SecpError>;

/// Calls `Secp256k1::verify_bullet_proof` without extra data. Trusted: its result depends on
/// the commitment and the bytes of the proof alone.
#[verifier::external_body]
fn outside_verify_range_proof(commit: &Commitment, proof: &RangeProof) -> (r: Result<
    (),
    u8,
>)
    requires
        proof@.len() <= MAX_PROOF_SIZE,
    ensures
        outside_outcome(r) == range_proof_check(commit@, proof@),
{
    let secp = secp256k1zkp::Secp256k1::with_caps(secp256k1zkp::ContextFlag::Commit);
    let plen = proof.bytes.len();
    let mut bytes = [0u8; secp256k1zkp::constants::MAX_PROOF_SIZE];
    bytes[..plen].copy_from_slice(&proof.bytes);
    let proof = secp256k1zkp::pedersen::RangeProof { proof: bytes, plen };
    let commit = secp256k1zkp::pedersen::Commitment(commit.bytes);
    secp.verify_bullet_proof(commit, proof, None).map(|_range| ()).map_err(|e| e as u8)
}

/// Checks that `proof` shows that the value in `commit` is not negative.
pub fn verify_range_proof(commit: &Commitment, proof: &RangeProof) -> (r: Result<(), SecpError>)
    ensures
        r == range_proof_check(commit@, proof@),
{
    proof {
        use_type_invariant(proof);
    }
    match outside_verify_range_proof(commit, proof) {
        Ok(()) => Ok(()),
        Err(e) => Err(convert_error(e)),
    }
}

/// Whether `sig` signs the message under the public key that `excess` is.
pub uninterp spec fn signature_check(sig: Seq<u8>, msg: Seq<u8>, excess: Seq<u8>) -> Result<
    bool,
    SecpError,
>;

/// Reads the commitment as a public key with `Commitment::to_pubkey`, which fails where it is
/// none, and takes the bytes of the signature and the message as they are with
/// `Signature::from_raw_data` and `Message::from_slice`; then calls `aggsig::verify_single` for
/// a complete signature, with no nonce or key of other signers. Trusted: what comes of these
/// steps, the failure of the first or the verdict of the last, depends on the signature, the
/// message and the commitment alone.
#[verifier::external_body]
fn outside_verify_signature(sig: &Signature, msg: &[u8; 32], excess: &Commitment) -> (r: Result<
    bool,
    u8,
>)
    ensures
        outside_outcome(r) == signature_check(sig@, msg@, excess@),
{
    let secp = secp256k1zkp::Secp256k1::with_caps(secp256k1zkp::ContextFlag::Commit);
    let key = secp256k1zkp::pedersen::Commitment(excess.bytes).to_pubkey(&secp).map_err(
        |e| e as u8,
    )?;
    let sig = secp256k1zkp::Signature::from_raw_data(&sig.bytes).map_err(|e| e as u8)?;
    let msg = secp256k1zkp::Message::from_slice(msg).map_err(|e| e as u8)?;
    Ok(secp256k1zkp::aggsig::verify_single(&secp, &sig, &msg, None, &key, None, None, false))
}

/// Whether `sig` signs the message under the public key that `excess` is.
pub fn verify_signature(sig: &Signature, msg: &[u8; 32], excess: &Commitment) -> (r: Result<
    bool,
    SecpError,
>)
    ensures
        r == signature_check(sig@, msg@, excess@),
{
    match outside_verify_signature(sig, msg, excess) {
        Ok(valid) => Ok(valid),
        Err(e) => Err(convert_error(e)),
    }
}

} // verus!
