//! Block stores: where blocks are kept, by CID.
use vstd::prelude::*;

use crate::block::{Block, BlockView};
use crate::content_id::{Cid, CidView};
use crate::error::KshError;

pub mod memory;
pub mod sled_store;

pub use sled_store::SledBlockStore;

verus! {

/// The CIDs of a sequence of CIDs, as values.
pub open spec fn cid_views(v: Seq<Cid>) -> Seq<CidView> {
    v.map_values(|c: Cid| c@)
}

/// Reading a store after a block was put gives that block's data under its
/// CID; after a CID was removed, nothing under it; and neither changes what is
/// stored under any other CID.
pub proof fn lemma_read_after_write(contents: Map<CidView, Seq<u8>>, block: BlockView, other: CidView)
    ensures
        contents.insert(block.cid, block.data).contains_key(block.cid),
        contents.insert(block.cid, block.data)[block.cid] == block.data,
        !contents.remove(block.cid).contains_key(block.cid),
        other != block.cid ==> contents.insert(block.cid, block.data).contains_key(other) == contents.contains_key(other)
            && contents.remove(block.cid).contains_key(other) == contents.contains_key(other),
        other != block.cid && contents.contains_key(other) ==> contents.insert(block.cid, block.data)[other]
            == contents[other] && contents.remove(block.cid)[other] == contents[other],
{
}

/// A store of blocks, keyed by CID.
///
/// Its contents are a map from CID to data. Every operation that succeeds
/// does to that map what its contract says; one that fails reports a storage
/// error and leaves the map as it was or as a success would have. A store
/// that is infallible never fails, and stays infallible.
pub trait BlockStore {
    /// The data held under each CID.
    spec fn contents(&self) -> Map<CidView, Seq<u8>>;

    /// Whether every operation of this store succeeds.
    spec fn infallible(&self) -> bool;

    /// The CIDs that listing the store gives, in the order it gives them.
    spec fn listing(&self) -> Seq<CidView>;

    /// The block stored under `cid`, if any.
    fn get(&self, cid: &Cid) -> (r: Result<Option<Block>, KshError>)
        ensures
            r matches Ok(Some(b)) ==> self.contents().contains_key(cid@) && b@ == (BlockView {
                cid: cid@,
                data: self.contents()[cid@],
            }),
            r matches Ok(None) ==> !self.contents().contains_key(cid@),
            r matches Err(e) ==> e is Store,
            self.infallible() ==> r is Ok,
    ;

    /// Stores `block` under its CID, replacing what was stored there.
    fn put(&mut self, block: &Block) -> (r: Result<(), KshError>)
        ensures
            r is Ok ==> final(self).contents() == old(self).contents().insert(block@.cid, block@.data),
            r is Err ==> final(self).contents() == old(self).contents() || final(self).contents() == old(
                self,
            ).contents().insert(block@.cid, block@.data),
            r matches Err(e) ==> e is Store,
            final(self).infallible() == old(self).infallible(),
            old(self).infallible() ==> r is Ok,
    ;

    /// Whether a block is stored under `cid`.
    fn has(&self, cid: &Cid) -> (r: Result<bool, KshError>)
        ensures
            r matches Ok(b) ==> b == self.contents().contains_key(cid@),
            r matches Err(e) ==> e is Store,
            self.infallible() ==> r is Ok,
    ;

    /// Removes the block stored under `cid`, if any.
    fn remove(&mut self, cid: &Cid) -> (r: Result<(), KshError>)
        ensures
            r is Ok ==> final(self).contents() == old(self).contents().remove(cid@),
            r is Err ==> final(self).contents() == old(self).contents() || final(self).contents() == old(
                self,
            ).contents().remove(cid@),
            r matches Err(e) ==> e is Store,
            final(self).infallible() == old(self).infallible(),
            old(self).infallible() ==> r is Ok,
    ;

    /// The CIDs of the stored blocks: every one of them is listed.
    fn list(&self) -> (r: Result<Vec<Cid>, KshError>)
        ensures
            r matches Ok(v) ==> cid_views(v@) == self.listing() && self.contents().dom().subset_of(
                self.listing().to_set(),
            ),
            self.infallible() ==> r is Ok,
    ;
}

} // verus!
