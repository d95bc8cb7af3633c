//! A chunker that cuts data into pieces of one size.
use vstd::prelude::*;

use crate::error::KshError;
use super::{Chunker, byte_views};

verus! {

/// `data` cut into consecutive pieces of `size` bytes; the last piece holds
/// what is left and may be shorter. Empty data gives no pieces.
pub open spec fn fixed_chunks(data: Seq<u8>, size: nat) -> Seq<Seq<u8>>
    recommends
        size > 0,
    decreases data.len(),
{
    if data.len() == 0 || size == 0 {
        Seq::empty()
    } else if data.len() <= size {
        seq![data]
    } else {
        seq![data.take(size as int)] + fixed_chunks(data.skip(size as int), size)
    }
}

/// A chunker that cuts data into pieces of `chunk_size` bytes.
pub struct FixedChunker {
    pub chunk_size: usize,
}

impl FixedChunker {
    /// A chunker with the given piece size.
    pub fn new(chunk_size: usize) -> (c: FixedChunker)
        ensures
            c.chunk_size == chunk_size,
    {
        FixedChunker { chunk_size }
    }
}

impl Default for FixedChunker {
    /// Pieces of 256 KiB.
    fn default() -> (c: FixedChunker)
        ensures
            c.chunk_size == 256 * 1024,
    {
        FixedChunker { chunk_size: 256 * 1024 }
    }
}

impl Chunker for FixedChunker {
    open spec fn ready(&self) -> bool {
        self.chunk_size > 0
    }

    open spec fn chunks_of(&self, data: Seq<u8>) -> Option<Seq<Seq<u8>>> {
        Some(fixed_chunks(data, self.chunk_size as nat))
    }

    fn chunk(&self, data: &[u8]) -> (r: Result<Vec<Vec<u8>>, KshError>) {
        let n = data.len();
        let size = self.chunk_size;
        let mut pieces: Vec<Vec<u8>> = Vec::new();
        let mut i: usize = 0;
        assert(data@.skip(0) =~= data@);
        while i < n
            invariant
                n == data@.len(),
                size == self.chunk_size,
                size > 0,
                i <= n,
                byte_views(pieces@) + fixed_chunks(data@.skip(i as int), size as nat) == fixed_chunks(
                    data@,
                    size as nat,
                ),
            decreases n - i,
        {
            let rest = n - i;
            let end = if rest <= size { n } else { i + size };
            let piece = vstd::slice::slice_to_vec(vstd::slice::slice_subrange(data, i, end));
            let ghost tail = data@.skip(i as int);
            proof {
                if rest <= size {
                    assert(fixed_chunks(tail, size as nat) == seq![tail]);
                    assert(piece@ =~= tail);
                    assert(data@.skip(end as int) =~= Seq::<u8>::empty());
                } else {
                    assert(piece@ =~= tail.take(size as int));
                    assert(tail.skip(size as int) =~= data@.skip(end as int));
                }
            }
            let ghost before = byte_views(pieces@);
            let ghost piece_view = piece@;
            pieces.push(piece);
            proof {
                assert(byte_views(pieces@) =~= before.push(piece_view));
                assert(fixed_chunks(tail, size as nat) =~= seq![piece_view] + fixed_chunks(
                    data@.skip(end as int),
                    size as nat,
                ));
                assert(before.push(piece_view) + fixed_chunks(data@.skip(end as int), size as nat)
                    =~= before + fixed_chunks(tail, size as nat));
            }
            i = end;
        }
        assert(data@.skip(n as int) =~= Seq::<u8>::empty());
        assert(byte_views(pieces@) =~= fixed_chunks(data@, size as nat));
        Ok(pieces)
    }
}

} // verus!
