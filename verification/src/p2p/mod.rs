//! Exchanging blocks with peers: what a node answers to a request for a
//! block, and what it does with a response.
use vstd::prelude::*;

use crate::block::{Block, raw_cid_of};
use crate::content_id::{Cid, CidView, cid_decoding, cid_encoding, encodes_back};
use crate::error::KshError;
use crate::store::BlockStore;

pub mod bitswap;

use bitswap::{BitswapRequest, BitswapResponse};

verus! {

/// What a node with `contents` answers to a request: nothing for bytes that
/// hold no CID, else the data of the block, or no bytes where it lacks it.
pub open spec fn answer_of(contents: Map<CidView, Seq<u8>>, request: Seq<u8>) -> Option<Seq<u8>> {
    match cid_decoding(request) {
        None => None,
        Some(c) => if contents.contains_key(c) {
            Some(contents[c])
        } else {
            Some(Seq::empty())
        },
    }
}

/// The answer to a request for a block.
pub fn answer_request<S: BlockStore + ?Sized>(store: &S, request: &BitswapRequest) -> (r: Result<Option<BitswapResponse>, KshError>)
    ensures
        r matches Ok(a) ==> match answer_of(store.contents(), request.0@) {
            None => a is None,
            Some(d) => a matches Some(x) && x.0@ == d,
        },
        cid_decoding(request.0@) is None ==> r matches Ok(None),
        r matches Err(e) ==> e is Store,
        store.infallible() ==> r is Ok,
{
    let cid = match Cid::read_bytes(request.0.as_slice()) {
        Ok(c) => c,
        Err(_) => {
            return Ok(None);
        },
    };
    match store.get(&cid)? {
        Some(block) => Ok(Some(BitswapResponse(vstd::slice::slice_to_vec(block.data().as_slice())))),
        None => Ok(Some(BitswapResponse(Vec::new()))),
    }
}

/// Takes in a response: an empty one says the peer lacks the block; any
/// other is stored as a block, whose CID is returned.
pub fn accept_response<S: BlockStore + ?Sized>(store: &mut S, response: BitswapResponse) -> (r: Result<Option<Cid>, KshError>)
    ensures
        response.0@.len() == 0 ==> (r matches Ok(None) && final(store).contents() == old(store).contents()),
        response.0@.len() > 0 ==> !(r matches Ok(None)),
        r matches Ok(Some(c)) ==> (c@ == raw_cid_of(response.0@) && final(store).contents() == old(
            store,
        ).contents().insert(c@, response.0@)),
        r is Err ==> response.0@.len() > 0 && !old(store).infallible() && (final(store).contents() == old(
            store,
        ).contents() || final(store).contents() == old(store).contents().insert(
            raw_cid_of(response.0@),
            response.0@,
        )),
        r matches Err(e) ==> e is Store,
        old(store).infallible() ==> r is Ok,
        final(store).infallible() == old(store).infallible(),
{
    if response.0.len() == 0 {
        return Ok(None);
    }
    let block = Block::new(response.0)?;
    store.put(&block)?;
    Ok(Some(block.cid().duplicate()))
}

/// A node that holds a block answers a request for it with its data.
pub proof fn lemma_request_answered(contents: Map<CidView, Seq<u8>>, c: CidView)
    requires
        encodes_back(c),
        contents.contains_key(c),
    ensures
        answer_of(contents, cid_encoding(c)) == Some(contents[c]),
{
}

} // verus!
