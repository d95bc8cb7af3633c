use vstd::prelude::*;

use crate::content_id::Cid;

verus! {

/// The errors that the operations of this library report.
#[derive(Debug)]
pub enum KshError {
    /// Bytes or text that do not hold a well-formed CID.
    InvalidCid,
    /// A multihash that a CIDv0 cannot carry (not SHA2-256 with a 32-byte digest).
    InvalidCidV0Multihash,
    /// A block that a DAG refers to is not in the store.
    BlockNotFound(Cid),
    /// The storage backend failed.
    Store,
    /// Bytes that do not hold a list of pins.
    InvalidPins,
}

} // verus!
