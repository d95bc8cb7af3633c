//! The bitswap wire format: each message is its length as 4 little-endian
//! bytes, then its bytes.
use vstd::prelude::*;

use crate::content_id::{Cid, cid_encoding, encodes_back};
use crate::dag::{append_bytes, le32};
use crate::dag::resolver::read_le32;

verus! {

/// The name of the bitswap protocol.
pub const PROTOCOL: &'static str = "/ksh/bitswap/1.0.0";

/// A request: the binary encoding of the CID of the wanted block.
#[derive(Debug)]
pub struct BitswapRequest(pub Vec<u8>);

/// A response: the data of the block, or nothing where the peer lacks it.
#[derive(Debug)]
pub struct BitswapResponse(pub Vec<u8>);

/// Frames and reads bitswap messages.
#[derive(Debug, Clone, Copy, Default)]
pub struct BitswapCodec;

/// The frame of a message: its length cut to 32 bits, little-endian, then its bytes.
pub open spec fn frame(payload: Seq<u8>) -> Seq<u8> {
    le32(payload.len() as u32) + payload
}

/// The message that a frame read from the front of `bytes` holds: `None`
/// where the bytes end before the length or before the message does.
pub open spec fn unframe(bytes: Seq<u8>) -> Option<Seq<u8>> {
    if bytes.len() < 4 {
        None
    } else {
        let len = read_le32(bytes, 0) as int;
        if bytes.len() < 4 + len {
            None
        } else {
            Some(bytes.subrange(4, 4 + len))
        }
    }
}

impl BitswapRequest {
    /// The request for the block of `cid`.
    pub fn for_cid(cid: &Cid) -> (r: BitswapRequest)
        ensures
            r.0@ == cid_encoding(cid@),
            encodes_back(cid@),
    {
        BitswapRequest(cid.to_bytes())
    }
}

impl BitswapCodec {
    /// The frame of `payload`.
    pub fn encode_frame(payload: &[u8]) -> (v: Vec<u8>)
        ensures
            v@ == frame(payload@),
    {
        let mut v: Vec<u8> = Vec::new();
        let len = payload.len() as u32;
        v.push(len as u8);
        v.push((len >> 8u32) as u8);
        v.push((len >> 16u32) as u8);
        v.push((len >> 24u32) as u8);
        assert(v@ =~= le32(len));
        append_bytes(&mut v, payload);
        v
    }

    /// The length of the message that a frame with this 4-byte header holds.
    pub fn frame_len(header: &[u8; 4]) -> (n: usize)
        ensures
            n as int == read_le32(header@, 0) as int,
    {
        ((header[0] as u32) | ((header[1] as u32) << 8u32) | ((header[2] as u32) << 16u32) | ((
        header[3] as u32) << 24u32)) as usize
    }

    /// Reads the message of the frame at the front of `bytes`.
    pub fn decode_frame(bytes: &[u8]) -> (r: Option<Vec<u8>>)
        ensures
            match unframe(bytes@) {
                Some(m) => r matches Some(v) && v@ == m,
                None => r is None,
            },
    {
        if bytes.len() < 4 {
            return None;
        }
        let len = ((bytes[0] as u32) | ((bytes[1] as u32) << 8u32) | ((bytes[2] as u32) << 16u32) | ((
        bytes[3] as u32) << 24u32)) as usize;
        if bytes.len() - 4 < len {
            return None;
        }
        Some(vstd::slice::slice_to_vec(vstd::slice::slice_subrange(bytes, 4, 4 + len)))
    }

    /// The frame of a request.
    pub fn write_request(&self, req: &BitswapRequest) -> (v: Vec<u8>)
        ensures
            v@ == frame(req.0@),
    {
        Self::encode_frame(req.0.as_slice())
    }

    /// The frame of a response.
    pub fn write_response(&self, res: &BitswapResponse) -> (v: Vec<u8>)
        ensures
            v@ == frame(res.0@),
    {
        Self::encode_frame(res.0.as_slice())
    }

    /// The request in the frame at the front of `bytes`.
    pub fn read_request(&self, bytes: &[u8]) -> (r: Option<BitswapRequest>)
        ensures
            match unframe(bytes@) {
                Some(m) => r matches Some(q) && q.0@ == m,
                None => r is None,
            },
    {
        match Self::decode_frame(bytes) {
            Some(m) => Some(BitswapRequest(m)),
            None => None,
        }
    }

    /// The response in the frame at the front of `bytes`.
    pub fn read_response(&self, bytes: &[u8]) -> (r: Option<BitswapResponse>)
        ensures
            match unframe(bytes@) {
                Some(m) => r matches Some(q) && q.0@ == m,
                None => r is None,
            },
    {
        match Self::decode_frame(bytes) {
            Some(m) => Some(BitswapResponse(m)),
            None => None,
        }
    }
}

/// Reading back a frame gives the message, for any message shorter than 2^32
/// bytes, whatever follows the frame.
pub proof fn lemma_unframe_frame(payload: Seq<u8>, rest: Seq<u8>)
    requires
        payload.len() < 0x1_0000_0000,
    ensures
        unframe(frame(payload) + rest) == Some(payload),
{
    let b = frame(payload) + rest;
    let x = payload.len() as u32;
    assert(b[0] == x as u8);
    assert(b[1] == (x >> 8u32) as u8);
    assert(b[2] == (x >> 16u32) as u8);
    assert(b[3] == (x >> 24u32) as u8);
    assert(((x as u8) as u32) | ((((x >> 8u32) as u8) as u32) << 8u32) | ((((x >> 16u32) as u8) as u32)
        << 16u32) | ((((x >> 24u32) as u8) as u32) << 24u32) == x) by (bit_vector);
    assert(b.subrange(4, 4 + payload.len() as int) =~= payload);
}

} // verus!
