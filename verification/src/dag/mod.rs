//! DAGs of blocks: data cut into leaf blocks under one parent block.
//!
//! A parent block holds the number of its children (4 bytes, little-endian),
//! then for each child the length of its CID's binary encoding (4 bytes,
//! little-endian) and that encoding, then the total size of the children's
//! data (8 bytes, little-endian).
use vstd::prelude::*;

use crate::block::{Block, raw_cid_of};
use crate::chunker::Chunker;
use crate::content_id::{Cid, CidView, cid_encoding, encodes_back};
use crate::error::KshError;
use crate::store::{BlockStore, cid_views};

pub mod resolver;
pub mod laws;

pub use resolver::DagResolver;



verus! {

/// The little-endian bytes of a `u32`.
pub open spec fn le32(x: u32) -> Seq<u8> {
    seq![x as u8, (x >> 8u32) as u8, (x >> 16u32) as u8, (x >> 24u32) as u8]
}

/// The little-endian bytes of a `u64`.
pub open spec fn le64(x: u64) -> Seq<u8> {
    seq![
        x as u8,
        (x >> 8u64) as u8,
        (x >> 16u64) as u8,
        (x >> 24u64) as u8,
        (x >> 32u64) as u8,
        (x >> 40u64) as u8,
        (x >> 48u64) as u8,
        (x >> 56u64) as u8,
    ]
}

/// The total number of bytes in `chunks`.
pub open spec fn total_len(chunks: Seq<Seq<u8>>) -> nat
    decreases chunks.len(),
{
    if chunks.len() == 0 {
        0
    } else {
        total_len(chunks.drop_last()) + chunks.last().len()
    }
}

/// The entry of one child in a parent block: the length of the CID's
/// encoding, then the encoding.
pub open spec fn child_entry(cid: CidView) -> Seq<u8> {
    le32(cid_encoding(cid).len() as u32) + cid_encoding(cid)
}

/// The entries of the children, in order.
pub open spec fn child_entries(cids: Seq<CidView>) -> Seq<u8>
    decreases cids.len(),
{
    if cids.len() == 0 {
        Seq::empty()
    } else {
        child_entries(cids.drop_last()) + child_entry(cids.last())
    }
}

/// The CIDs of the leaf blocks of `chunks`.
pub open spec fn leaf_cids(chunks: Seq<Seq<u8>>) -> Seq<CidView> {
    chunks.map_values(|c: Seq<u8>| raw_cid_of(c))
}

/// The data of the parent block over `chunks`.
pub open spec fn parent_node(chunks: Seq<Seq<u8>>) -> Seq<u8> {
    le32(chunks.len() as u32) + child_entries(leaf_cids(chunks)) + le64(total_len(chunks) as u64)
}

/// `contents` after the leaf block of each chunk is stored, in order.
pub open spec fn store_leaves(contents: Map<CidView, Seq<u8>>, chunks: Seq<Seq<u8>>) -> Map<CidView, Seq<u8>>
    decreases chunks.len(),
{
    if chunks.len() == 0 {
        contents
    } else {
        store_leaves(contents, chunks.drop_last()).insert(raw_cid_of(chunks.last()), chunks.last())
    }
}

/// What adding data cut into `chunks` does: the root CID, and the store's
/// contents after. One chunk is stored as a single block; any other number of
/// chunks is stored as leaf blocks under a parent block.
pub open spec fn dag_add(contents: Map<CidView, Seq<u8>>, chunks: Seq<Seq<u8>>) -> (CidView, Map<CidView, Seq<u8>>) {
    if chunks.len() == 1 {
        (raw_cid_of(chunks[0]), contents.insert(raw_cid_of(chunks[0]), chunks[0]))
    } else {
        let p = parent_node(chunks);
        (raw_cid_of(p), store_leaves(contents, chunks).insert(raw_cid_of(p), p))
    }
}

/// Whether `after` is what a store holds where adding data cut into `chunks`
/// to `before` stopped part way: the leaf blocks of the first chunks, in
/// order, or everything that the whole addition stores.
pub open spec fn partly_added(before: Map<CidView, Seq<u8>>, chunks: Seq<Seq<u8>>, after: Map<CidView, Seq<u8>>) -> bool {
    ||| exists|i: int| 0 <= i <= chunks.len() && after == store_leaves(before, #[trigger] chunks.take(i))
    ||| after == dag_add(before, chunks).1
}

proof fn lemma_total_len_prefix(chunks: Seq<Seq<u8>>, i: int)
    requires
        0 <= i <= chunks.len(),
    ensures
        total_len(chunks.take(i)) <= total_len(chunks),
    decreases chunks.len(),
{
    if i < chunks.len() {
        assert(chunks.drop_last().take(i) =~= chunks.take(i));
        lemma_total_len_prefix(chunks.drop_last(), i);
    } else {
        assert(chunks.take(i) =~= chunks);
    }
}

/// Appends the little-endian bytes of `x`.
fn push_le32(v: &mut Vec<u8>, x: u32)
    ensures
        final(v)@ == old(v)@ + le32(x),
{
    v.push(x as u8);
    v.push((x >> 8u32) as u8);
    v.push((x >> 16u32) as u8);
    v.push((x >> 24u32) as u8);
    assert(v@ =~= old(v)@ + le32(x));
}

/// Appends the little-endian bytes of `x`.
fn push_le64(v: &mut Vec<u8>, x: u64)
    ensures
        final(v)@ == old(v)@ + le64(x),
{
    v.push(x as u8);
    v.push((x >> 8u64) as u8);
    v.push((x >> 16u64) as u8);
    v.push((x >> 24u64) as u8);
    v.push((x >> 32u64) as u8);
    v.push((x >> 40u64) as u8);
    v.push((x >> 48u64) as u8);
    v.push((x >> 56u64) as u8);
    assert(v@ =~= old(v)@ + le64(x));
}

/// Appends `s`.
pub fn append_bytes(v: &mut Vec<u8>, s: &[u8])
    ensures
        final(v)@ == old(v)@ + s@,
{
    let n = s.len();
    let mut i: usize = 0;
    while i < n
        invariant
            n == s@.len(),
            i <= n,
            v@ == old(v)@ + s@.take(i as int),
        decreases n - i,
    {
        v.push(s[i]);
        i = i + 1;
        assert(v@ =~= old(v)@ + s@.take(i as int));
    }
    assert(s@.take(n as int) =~= s@);
}

/// The data of the parent block over children with the given CIDs and total size.
fn encode_parent(cids: &Vec<Cid>, total: u64) -> (p: Vec<u8>)
    ensures
        p@ == le32(cids@.len() as u32) + child_entries(cid_views(cids@)) + le64(total),
        forall|i: int| 0 <= i < cids@.len() ==> encodes_back(#[trigger] cids@[i]@),
{
    let mut p: Vec<u8> = Vec::new();
    push_le32(&mut p, cids.len() as u32);
    let n = cids.len();
    let mut j: usize = 0;
    while j < n
        invariant
            n == cids@.len(),
            j <= n,
            p@ == le32(n as u32) + child_entries(cid_views(cids@).take(j as int)),
            forall|i: int| 0 <= i < j ==> encodes_back(#[trigger] cids@[i]@),
        decreases n - j,
    {
        let bytes = cids[j].to_bytes();
        push_le32(&mut p, bytes.len() as u32);
        append_bytes(&mut p, bytes.as_slice());
        proof {
            let views = cid_views(cids@);
            assert(views.take(j + 1).drop_last() =~= views.take(j as int));
            assert(views.take(j + 1).last() == cids@[j as int]@);
        }
        j = j + 1;
    }
    assert(cid_views(cids@).take(n as int) =~= cid_views(cids@));
    push_le64(&mut p, total);
    p
}

/// Builds DAGs of blocks into a store, cutting data with a chunker.
pub struct DagBuilder<S, C> {
    pub store: S,
    pub chunker: C,
}

impl<S: BlockStore, C: Chunker> DagBuilder<S, C> {
    /// A builder over a store and a chunker.
    pub fn new(store: S, chunker: C) -> (b: DagBuilder<S, C>)
        ensures
            b.store == store,
            b.chunker == chunker,
    {
        DagBuilder { store, chunker }
    }

    /// Cuts `data` into chunks and stores them: a single chunk as one block,
    /// any other number as leaf blocks under a parent block. Returns the CID
    /// of the root block.
    pub fn add_bytes(&mut self, data: &[u8]) -> (r: Result<Cid, KshError>)
        requires
            old(self).chunker.ready(),
            old(self).chunker.chunks_of(data@) matches Some(cs) ==> total_len(cs) <= u64::MAX,
        ensures
            final(self).chunker == old(self).chunker,
            final(self).store.infallible() == old(self).store.infallible(),
            r matches Ok(root) ==> old(self).chunker.chunks_of(data@) matches Some(cs) && (root@, final(self).store.contents())
                == dag_add(old(self).store.contents(), cs),
            r is Err ==> old(self).chunker.chunks_of(data@) is None || !old(self).store.infallible(),
            r matches Err(e) ==> match old(self).chunker.chunks_of(data@) {
                None => final(self).store.contents() == old(self).store.contents(),
                Some(cs) => e is Store && partly_added(old(self).store.contents(), cs, final(self).store.contents()),
            },
            r is Ok ==> (old(self).chunker.chunks_of(data@) matches Some(cs) && (cs.len() != 1 ==> forall|i: int|
                0 <= i < cs.len() ==> encodes_back(#[trigger] raw_cid_of(cs[i])))),
    {
        let chunks = self.chunker.chunk(data)?;
        let ghost cs = crate::chunker::byte_views(chunks@);
        let ghost before = self.store.contents();
        if chunks.len() == 1 {
            let block = Block::new(vstd::slice::slice_to_vec(chunks[0].as_slice()))?;
            match self.store.put(&block) {
                Ok(()) => {},
                Err(e) => {
                    proof {
                        assert(cs.take(0) =~= Seq::<Seq<u8>>::empty());
                        assert(store_leaves(before, cs.take(0)) == before);
                    }
                    return Err(e);
                },
            }
            return Ok(block.cid().duplicate());
        }
        let n = chunks.len();
        let mut child_cids: Vec<Cid> = Vec::new();
        let mut total: u64 = 0;
        let mut i: usize = 0;
        proof {
            assert(cs.take(0) =~= Seq::<Seq<u8>>::empty());
            assert(cid_views(child_cids@) =~= leaf_cids(cs.take(0)));
        }
        while i < n
            invariant
                n == chunks@.len(),
                cs == crate::chunker::byte_views(chunks@),
                i <= n,
                total_len(cs) <= u64::MAX,
                total == total_len(cs.take(i as int)),
                cid_views(child_cids@) == leaf_cids(cs.take(i as int)),
                self.store.contents() == store_leaves(before, cs.take(i as int)),
                self.store.infallible() == old(self).store.infallible(),
                self.chunker == old(self).chunker,
                old(self).chunker.chunks_of(data@) == Some(cs),
                before == old(self).store.contents(),
            decreases n - i,
        {
            let len = chunks[i].len() as u64;
            let block = Block::new(vstd::slice::slice_to_vec(chunks[i].as_slice()))?;
            let ghost cids_before = cid_views(child_cids@);
            child_cids.push(block.cid().duplicate());
            proof {
                assert(cs.take(i + 1).drop_last() =~= cs.take(i as int));
                assert(cs.take(i + 1).last() == cs[i as int]);
                lemma_total_len_prefix(cs, i + 1);
                assert(cid_views(child_cids@) =~= cids_before.push(raw_cid_of(cs[i as int])));
                assert(leaf_cids(cs.take(i + 1)) =~= leaf_cids(cs.take(i as int)).push(raw_cid_of(cs[i as int])));
            }
            total = total + len;
            match self.store.put(&block) {
                Ok(()) => {},
                Err(e) => {
                    proof {
                        assert(store_leaves(before, cs.take(i + 1)) == store_leaves(before, cs.take(i as int)).insert(
                            raw_cid_of(cs[i as int]),
                            cs[i as int],
                        ));
                        if self.store.contents() == store_leaves(before, cs.take(i as int)) {
                            assert(0 <= i <= cs.len());
                        } else {
                            assert(0 <= i + 1 <= cs.len());
                        }
                    }
                    return Err(e);
                },
            }
            i = i + 1;
        }
        proof {
            assert(cs.take(n as int) =~= cs);
        }
        let parent = encode_parent(&child_cids, total);
        assert forall|i: int| 0 <= i < cs.len() implies encodes_back(#[trigger] raw_cid_of(cs[i])) by {
            assert(cid_views(child_cids@)[i] == leaf_cids(cs)[i]);
            assert(encodes_back(child_cids@[i]@));
        }
        let parent_block = Block::new(parent)?;
        match self.store.put(&parent_block) {
            Ok(()) => {},
            Err(e) => {
                proof {
                    assert(cs.take(cs.len() as int) =~= cs);
                }
                return Err(e);
            },
        }
        Ok(parent_block.cid().duplicate())
    }
}

} // verus!
