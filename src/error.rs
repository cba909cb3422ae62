//! Errors of the library. None is recovered from: each one means a broken
//! fixture or a fault that a scenario injected on purpose.

use vstd::prelude::*;

verus! {

#[derive(Debug, Clone, PartialEq, Eq)]
pub enum Error {
    /// A proof lookup found no record; carries the hash that was looked up.
    ProofNotFound { hash: Vec<u8> },
    /// Signing needed a key-signing or zone-signing key that is absent.
    MissingKey,
    /// A fault-injection hook returned records that belong to another zone.
    InvalidMutation,
    /// Text or labels that do not form a domain name.
    InvalidName,
    /// A record was narrowed to a type it does not hold.
    ConversionError,
}

} // verus!
