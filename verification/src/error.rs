//! The errors of the library.

use vstd::prelude::*;

verus! {

/// What can go wrong in this library.
#[derive(Debug, Clone, Copy, PartialEq, Eq)]
pub enum TurnoutError {
    /// A text is not the hexadecimal form of an address.
    AddressConversion,
}

impl TurnoutError {
    /// The message of the error, as it is shown.
    pub fn message(&self) -> (r: &'static str)
        ensures
            r@ == "could not convert string to sha256 hex"@,
    {
        match self {
            TurnoutError::AddressConversion => "could not convert string to sha256 hex",
        }
    }

    /// A short description of the error.
    pub fn description(&self) -> (r: &'static str)
        ensures
            r@ == "could not convert string to sha 256 hex"@,
    {
        match self {
            TurnoutError::AddressConversion => "could not convert string to sha 256 hex",
        }
    }

    /// The error that caused this one: there never is one.
    pub fn cause(&self) -> (r: Option<TurnoutError>)
        ensures
            r is None,
    {
        match self {
            TurnoutError::AddressConversion => None,
        }
    }
}

} // verus!
