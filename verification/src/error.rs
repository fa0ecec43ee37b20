//! The errors of building and validating a block.

use vstd::prelude::*;
use crate::consensus::ConsensusError;
use crate::secp::SecpError;
use crate::transaction::TransactionError;

verus! {

/// What went wrong where keys are kept.
#[derive(Clone, Copy, Debug, PartialEq, Eq)]
pub enum KeychainError {
    /// A curve operation failed.
    Secp(SecpError),
    /// A key could not be derived.
    KeyDerivation,
    /// A transaction could not be signed or built.
    Transaction,
}

/// Errors thrown by block validation.
#[derive(Clone, Debug, PartialEq)]
pub enum Error {
    /// The sum of output minus input commitments does not match the sum of kernel
    /// commitments.
    KernelSumMismatch,
    /// Same as above but for the coinbase part of a block, including reward.
    CoinbaseSumMismatch,
    /// A kernel fee can't be odd, due to half fee burning.
    OddKernelFee,
    /// Too many inputs, outputs or kernels in the block.
    WeightExceeded,
    /// A kernel is not valid because its lock height exceeds the height of the block.
    KernelLockHeight(u64),
    /// A transaction is not valid.
    Transaction(TransactionError),
    /// A curve operation failed.
    Secp(SecpError),
    /// Something went wrong where keys are kept.
    Keychain(KeychainError),
    /// A consensus rule is broken.
    Consensus(ConsensusError),
    /// A coinbase output has not yet matured and cannot be spent.
    ImmatureCoinbase {
        /// The height of the block with the input that spends the coinbase output.
        height: u64,
        /// The height that has to be reached for the coinbase output to mature.
        lock_height: u64,
    },
    /// Any other error.
    Other(String),
}

impl From<TransactionError> for Error {
    fn from(e: TransactionError) -> (r: Error) {
        Error::Transaction(e)
    }
}

impl vstd::std_specs::convert::FromSpecImpl<TransactionError> for Error {
    open spec fn obeys_from_spec() -> bool {
        true
    }

    open spec fn from_spec(e: TransactionError) -> Error {
        Error::Transaction(e)
    }
}

impl From<SecpError> for Error {
    fn from(e: SecpError) -> (r: Error) {
        Error::Secp(e)
    }
}

impl vstd::std_specs::convert::FromSpecImpl<SecpError> for Error {
    open spec fn obeys_from_spec() -> bool {
        true
    }

    open spec fn from_spec(e: SecpError) -> Error {
        Error::Secp(e)
    }
}

impl From<KeychainError> for Error {
    fn from(e: KeychainError) -> (r: Error) {
        Error::Keychain(e)
    }
}

impl vstd::std_specs::convert::FromSpecImpl<KeychainError> for Error {
    open spec fn obeys_from_spec() -> bool {
        true
    }

    open spec fn from_spec(e: KeychainError) -> Error {
        Error::Keychain(e)
    }
}

impl From<ConsensusError> for Error {
    fn from(e: ConsensusError) -> (r: Error) {
        Error::Consensus(e)
    }
}

impl vstd::std_specs::convert::FromSpecImpl<ConsensusError> for Error {
    open spec fn obeys_from_spec() -> bool {
        true
    }

    open spec fn from_spec(e: ConsensusError) -> Error {
        Error::Consensus(e)
    }
}

impl From<SecpError> for KeychainError {
    fn from(e: SecpError) -> (r: KeychainError) {
        KeychainError::Secp(e)
    }
}

impl vstd::std_specs::convert::FromSpecImpl<SecpError> for KeychainError {
    open spec fn obeys_from_spec() -> bool {
        true
    }

    open spec fn from_spec(e: SecpError) -> KeychainError {
        KeychainError::Secp(e)
    }
}

} // verus!
