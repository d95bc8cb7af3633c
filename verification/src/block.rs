//! Blocks: data together with the CID that names it.
use vstd::prelude::*;

use crate::content_id::{Cid, CidView, Multihash, MultihashView, Version, RAW, SHA2_256, sha2_256, cid_from_text};
use crate::error::KshError;

verus! {

/// The CIDv1 with the raw codec that names `data`: its SHA2-256 multihash.
pub open spec fn raw_cid_of(data: Seq<u8>) -> CidView {
    CidView {
        version: Version::V1,
        codec: RAW,
        hash: MultihashView { code: SHA2_256, digest: sha2_256(data) },
    }
}

/// What a block is: a CID and the data it names.
pub struct BlockView {
    pub cid: CidView,
    pub data: Seq<u8>,
}

/// A block of data and its CID.
#[derive(Debug)]
pub struct Block {
    cid: Cid,
    data: Vec<u8>,
}

impl View for Block {
    type V = BlockView;

    closed spec fn view(&self) -> BlockView {
        BlockView { cid: self.cid@, data: self.data@ }
    }
}

impl Block {
    /// Hashes `data` with SHA2-256 and names it by the CIDv1 with the raw codec.
    pub fn new(data: Vec<u8>) -> (r: Result<Block, KshError>)
        ensures
            r matches Ok(b) ==> b@ == (BlockView { cid: raw_cid_of(data@), data: data@ }),
            r is Ok,
    {
        let mh = hash_data(data.as_slice());
        let cid = cid_v1_raw(mh);
        Ok(Block { cid, data })
    }

    /// A block made of a CID and data as they are, with no hashing.
    pub fn from_parts(cid: Cid, data: Vec<u8>) -> (b: Block)
        ensures
            b@ == (BlockView { cid: cid@, data: data@ }),
    {
        Block { cid, data }
    }

    /// The CID.
    pub fn cid(&self) -> (c: &Cid)
        ensures
            c@ == self@.cid,
    {
        &self.cid
    }

    /// The data.
    pub fn data(&self) -> (d: &Vec<u8>)
        ensures
            d@ == self@.data,
    {
        &self.data
    }

    /// The size of the data in bytes.
    pub fn size(&self) -> (s: u64)
        ensures
            s == self@.data.len(),
    {
        self.data.len() as u64
    }

    /// Whether the multihash in the CID is the SHA2-256 multihash of the data.
    pub fn verify(&self) -> (r: Result<bool, KshError>)
        ensures
            r == Ok::<bool, KshError>(
                self@.cid.hash == (MultihashView { code: SHA2_256, digest: sha2_256(self@.data) }),
            ),
    {
        let mh = hash_data(self.data.as_slice());
        Ok(self.cid.hash().equals(&mh))
    }

    /// A copy of this block.
    pub fn duplicate(&self) -> (b: Block)
        ensures
            b@ == self@,
    {
        Block { cid: self.cid.duplicate(), data: vstd::slice::slice_to_vec(self.data.as_slice()) }
    }
}

impl Clone for Block {
    fn clone(&self) -> (b: Self)
        ensures
            b@ == self@,
    {
        self.duplicate()
    }
}

/// The SHA2-256 multihash of `data`.
pub fn hash_data(data: &[u8]) -> (mh: Multihash)
    ensures
        mh@ == (MultihashView { code: SHA2_256, digest: sha2_256(data@) }),
        mh@.digest.len() == 32,
{
    crate::content_id::hash_sha2_256(data)
}

/// The CIDv0 over a multihash; refused unless it is SHA2-256 with a 32-byte digest.
pub fn cid_v0_from_hash(mh: &Multihash) -> (r: Result<Cid, KshError>)
    ensures
        r matches Ok(c) ==> c@ == (CidView {
            version: Version::V0,
            codec: crate::content_id::DAG_PB,
            hash: mh@,
        }),
        r is Ok <==> (mh@.code == SHA2_256 && mh@.digest.len() == 32),
        r matches Err(e) ==> e is InvalidCidV0Multihash,
{
    Cid::new_v0(mh.duplicate())
}

/// The CIDv1 with the raw codec over a multihash.
pub fn cid_v1_raw(mh: Multihash) -> (c: Cid)
    ensures
        c@ == (CidView { version: Version::V1, codec: RAW, hash: mh@ }),
{
    Cid::new_v1(RAW, mh)
}

/// Parses the text form of a CID.
pub fn parse_cid(s: &str) -> (r: Result<Cid, KshError>)
    ensures
        r matches Ok(c) ==> cid_from_text(s@) == Some(c@),
        r matches Err(e) ==> e is InvalidCid && cid_from_text(s@) is None,
{
    Cid::from_text(s)
}

/// A block made by `Block::new` verifies: the multihash in its CID is the
/// SHA2-256 multihash of its data.
pub proof fn lemma_new_block_verifies(data: Seq<u8>)
    ensures
        raw_cid_of(data).hash == (MultihashView { code: SHA2_256, digest: sha2_256(data) }),
{
}

} // verus!
