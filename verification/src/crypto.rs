//! Errors of the signature-verification layer.
//!
//! Cryptographic failures are reported through one error type whose
//! variants either carry a message or name a malformed input, and which
//! can be flattened to a numeric code for transport across the contract
//! virtual-machine boundary.

use vstd::prelude::*;

verus! {

pub type CryptoResult<T> = core::result::Result<T, CryptoError>;

#[derive(Debug)]
pub enum CryptoError {
    BatchErr { msg: String },
    GenericErr { msg: String },
    InvalidHashFormat,
    InvalidPubkeyFormat,
    InvalidSignatureFormat,
    InvalidRecoveryParam,
}

impl CryptoError {
    /// The numeric code of each variant.
    pub open spec fn spec_code(&self) -> u32 {
        match self {
            CryptoError::InvalidHashFormat => 3,
            CryptoError::InvalidSignatureFormat => 4,
            CryptoError::InvalidPubkeyFormat => 5,
            CryptoError::InvalidRecoveryParam => 6,
            CryptoError::BatchErr { .. } => 7,
            CryptoError::GenericErr { .. } => 10,
        }
    }

    pub fn batch_err(msg: String) -> (r: CryptoError)
        ensures
            r == (CryptoError::BatchErr { msg }),
    {
        CryptoError::BatchErr { msg }
    }

    pub fn generic_err(msg: String) -> (r: CryptoError)
        ensures
            r == (CryptoError::GenericErr { msg }),
    {
        CryptoError::GenericErr { msg }
    }

    pub fn invalid_hash_format() -> (r: CryptoError)
        ensures
            r == CryptoError::InvalidHashFormat,
    {
        CryptoError::InvalidHashFormat
    }

    pub fn invalid_pubkey_format() -> (r: CryptoError)
        ensures
            r == CryptoError::InvalidPubkeyFormat,
    {
        CryptoError::InvalidPubkeyFormat
    }

    pub fn invalid_signature_format() -> (r: CryptoError)
        ensures
            r == CryptoError::InvalidSignatureFormat,
    {
        CryptoError::InvalidSignatureFormat
    }

    pub fn invalid_recovery_param() -> (r: CryptoError)
        ensures
            r == CryptoError::InvalidRecoveryParam,
    {
        CryptoError::InvalidRecoveryParam
    }

    /// Numeric error code that can easily be passed over the contract
    /// virtual-machine boundary.
    pub fn code(&self) -> (r: u32)
        ensures
            r == self.spec_code(),
    {
        match self {
            CryptoError::InvalidHashFormat => 3,
            CryptoError::InvalidSignatureFormat => 4,
            CryptoError::InvalidPubkeyFormat => 5,
            CryptoError::InvalidRecoveryParam => 6,
            CryptoError::BatchErr { .. } => 7,
            CryptoError::GenericErr { .. } => 10,
        }
    }
}

} // verus!
