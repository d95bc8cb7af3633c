//! Chunkers: how data is cut into the pieces that become blocks.
use vstd::prelude::*;

use crate::error::KshError;

pub mod fixed;

verus! {

/// The values of a sequence of byte vectors.
pub open spec fn byte_views(v: Seq<Vec<u8>>) -> Seq<Seq<u8>> {
    v.map_values(|c: Vec<u8>| c@)
}

/// Cuts data into chunks.
pub trait Chunker {
    /// Whether this chunker can cut data at all.
    spec fn ready(&self) -> bool;

    /// The chunks that this chunker cuts `data` into, or `None` where it
    /// refuses the data.
    spec fn chunks_of(&self, data: Seq<u8>) -> Option<Seq<Seq<u8>>>;

    /// Cuts `data` into chunks.
    fn chunk(&self, data: &[u8]) -> (r: Result<Vec<Vec<u8>>, KshError>)
        requires
            self.ready(),
        ensures
            r matches Ok(v) ==> self.chunks_of(data@) == Some(byte_views(v@)),
            r is Err ==> self.chunks_of(data@) is None,
    ;
}

} // verus!
