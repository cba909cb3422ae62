//! Building blocks for DNSSEC conformance fixtures: canonical DNS names, NSEC3
//! hashing, zone record sets, NSEC3 chain construction, and an index that
//! answers match / cover / closest-encloser queries over an NSEC3 ring.

pub mod error;
pub mod lex;
pub mod name;
pub mod base32;
pub mod hash;
pub mod nsec3;
pub mod chain;
pub mod record;
mod wire;
pub mod zone;
pub mod fixture;
