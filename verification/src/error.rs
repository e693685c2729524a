//! The shared error taxonomy: every fallible operation of the library
//! reports one of these named failure kinds instead of panicking.

use vstd::prelude::*;
use vstd::string::StringExecFns;

verus! {

/// Failure kinds shared by the codec, the builder layer and the command
/// parser. `InvalidAddress` and `InsufficientFunds` are reserved for
/// collaborators (address validation, balance checking) that share this
/// taxonomy; the codec itself only produces `InvalidTransaction`, and the
/// command parser only `ParseError`.
#[derive(Debug, Clone, PartialEq, Eq)]
pub enum BitcoinError {
    InvalidTransaction,
    InsufficientFunds,
    InvalidAddress,
    ParseError(String),
}

impl BitcoinError {
    /// The human-readable description of this error.
    pub open spec fn spec_message(&self) -> Seq<char> {
        match self {
            BitcoinError::ParseError(msg) => "Parse Error: "@ + msg@,
            BitcoinError::InvalidTransaction => "Invalid Transaction"@,
            BitcoinError::InsufficientFunds => "Insufficient Funds"@,
            BitcoinError::InvalidAddress => "Invalid Address"@,
        }
    }

    /// Renders the error as a display string.
    pub fn message(&self) -> (r: String)
        ensures
            r@ == self.spec_message(),
    {
        match self {
            BitcoinError::ParseError(msg) => "Parse Error: ".to_owned().concat(msg.as_str()),
            BitcoinError::InvalidTransaction => "Invalid Transaction".to_owned(),
            BitcoinError::InsufficientFunds => "Insufficient Funds".to_owned(),
            BitcoinError::InvalidAddress => "Invalid Address".to_owned(),
        }
    }
}

} // verus!
