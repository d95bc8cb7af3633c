//! Declarations of the outside types that the library carries through.
use vstd::prelude::*;

verus! {

/// The error type of the `cid` crate.
#[verifier::external_type_specification]
#[verifier::external_body]
pub struct ExCidError(cid::Error);

/// A `sled` database handle.
#[verifier::external_type_specification]
#[verifier::external_body]
pub struct ExSledDb(sled::Db);

/// The error type of the `sled` crate.
#[verifier::external_type_specification]
#[verifier::external_body]
pub struct ExSledError(sled::Error);

} // verus!
