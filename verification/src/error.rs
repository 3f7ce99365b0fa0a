//! What the oracle refuses.

use vstd::prelude::*;

verus! {

/// Why a registration or a submission was refused.
#[derive(Clone, Copy, Debug, PartialEq, Eq, Structural)]
pub enum OracleError {
    /// The key is registered already.
    DuplicateKey,
    /// The key is not registered.
    UnknownKey,
    /// The value has another representation than the key asks for.
    KindMismatch,
    /// A response held no value for the key.
    ExtractionFailed,
    /// A key cannot be settled every zero ticks.
    InvalidPeriod,
    /// No place to fetch the key's values from is known.
    NoUrl,
    /// The place to fetch from is no text.
    InvalidUrl,
    /// The response did not report success.
    UnexpectedStatus,
    /// The body of the response is no text.
    InvalidBody,
    /// The name of the member to read is no text.
    InvalidJsonKey,
}

impl OracleError {
    /// The description of each refusal.
    pub open spec fn text(self) -> Seq<char> {
        match self {
            OracleError::DuplicateKey => "storage key already registered"@,
            OracleError::UnknownKey => "storage key not exist"@,
            OracleError::KindMismatch => "value does not match the registered number type"@,
            OracleError::ExtractionFailed => "Unknown error has been encountered."@,
            OracleError::InvalidPeriod => "schedule must not be zero"@,
            OracleError::NoUrl => "no url for this storage key"@,
            OracleError::InvalidUrl => "parse url error"@,
            OracleError::UnexpectedStatus => "Unknown error has been encountered."@,
            OracleError::InvalidBody => "Unknown error has been encountered."@,
            OracleError::InvalidJsonKey => "json key is invalid"@,
        }
    }

    /// A short description for a log.
    pub fn message(&self) -> (r: &'static str)
        ensures
            r@ == self.text(),
    {
        match self {
            OracleError::DuplicateKey => "storage key already registered",
            OracleError::UnknownKey => "storage key not exist",
            OracleError::KindMismatch => "value does not match the registered number type",
            OracleError::ExtractionFailed => "Unknown error has been encountered.",
            OracleError::InvalidPeriod => "schedule must not be zero",
            OracleError::NoUrl => "no url for this storage key",
            OracleError::InvalidUrl => "parse url error",
            OracleError::UnexpectedStatus => "Unknown error has been encountered.",
            OracleError::InvalidBody => "Unknown error has been encountered.",
            OracleError::InvalidJsonKey => "json key is invalid",
        }
    }
}

} // verus!
