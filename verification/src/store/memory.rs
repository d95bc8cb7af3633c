//! A block store held in memory.
use vstd::prelude::*;

use crate::block::Block;
use crate::content_id::{Cid, CidView};
use crate::error::KshError;
use crate::keyed::{distinct_keys, has_key, keyed_map, lemma_keyed_append, lemma_keyed_lookup, lemma_keyed_replace, lemma_keyed_take_out};
use super::{BlockStore, cid_views};

verus! {

/// The entry of a block: its CID and its data.
pub open spec fn entry_of(b: Block) -> (CidView, Seq<u8>) {
    (b@.cid, b@.data)
}

/// A block store held in memory: blocks with distinct CIDs.
pub struct MemoryBlockStore {
    blocks: Vec<Block>,
}

impl MemoryBlockStore {
    /// The blocks held, in the order they were first stored.
    pub closed spec fn entries(&self) -> Seq<(CidView, Seq<u8>)> {
        self.blocks@.map_values(|b: Block| entry_of(b))
    }

    #[verifier::type_invariant]
    closed spec fn inv(self) -> bool {
        distinct_keys(self.blocks@.map_values(|b: Block| entry_of(b)))
    }

    /// An empty store.
    pub fn new() -> (s: MemoryBlockStore)
        ensures
            s.contents() == Map::<CidView, Seq<u8>>::empty(),
            s.entries() == Seq::<(CidView, Seq<u8>)>::empty(),
            s.listing() == Seq::<CidView>::empty(),
            s.infallible(),
    {
        let s = MemoryBlockStore { blocks: Vec::new() };
        assert(s.contents() =~= Map::<CidView, Seq<u8>>::empty());
        s
    }

    /// The CIDs of the held blocks, in the order they were first stored.
    pub fn list_cids(&self) -> (v: Vec<Cid>)
        ensures
            cid_views(v@) == self.entries().map_values(|e: (CidView, Seq<u8>)| e.0),
            self.contents().dom() == cid_views(v@).to_set(),
            cid_views(v@).no_duplicates(),
    {
        let n = self.blocks.len();
        let mut v: Vec<Cid> = Vec::new();
        let mut i: usize = 0;
        while i < n
            invariant
                n == self.blocks@.len(),
                i <= n,
                v@.len() == i,
                forall|j: int| 0 <= j < i ==> (#[trigger] v@[j])@ == self.blocks@[j]@.cid,
            decreases n - i,
        {
            v.push(self.blocks[i].cid().duplicate());
            i = i + 1;
        }
        let ghost views = cid_views(v@);
        assert(views =~= self.entries().map_values(|e: (CidView, Seq<u8>)| e.0));
        assert forall|c: CidView| #[trigger] self.contents().contains_key(c) <==> views.to_set().contains(c) by {
            if self.contents().contains_key(c) {
                let j = choose|j: int| 0 <= j < self.entries().len() && (#[trigger] self.entries()[j]).0 == c;
                assert(views[j] == c);
            }
            if views.to_set().contains(c) {
                let j = choose|j: int| 0 <= j < views.len() && views[j] == c;
                assert(self.entries()[j].0 == c);
                assert(has_key(self.entries(), c));
            }
        }
        assert(self.contents().dom() =~= views.to_set());
        proof {
            use_type_invariant(self);
            assert forall|a: int, b: int| 0 <= a < views.len() && 0 <= b < views.len() && a != b implies views[a]
                != views[b] by {
                assert(self.entries()[a].0 == views[a] && self.entries()[b].0 == views[b]);
            }
        }
        v
    }

    /// The index of the block of `cid`, if it is held.
    fn find(&self, cid: &Cid) -> (r: Option<usize>)
        ensures
            r matches Some(i) ==> i < self.blocks@.len() && self.blocks@[i as int]@.cid == cid@,
            r is None ==> forall|i: int| 0 <= i < self.blocks@.len() ==> self.blocks@[i]@.cid != cid@,
    {
        let n = self.blocks.len();
        let mut i: usize = 0;
        while i < n
            invariant
                n == self.blocks@.len(),
                i <= n,
                forall|j: int| 0 <= j < i ==> self.blocks@[j]@.cid != cid@,
            decreases n - i,
        {
            if self.blocks[i].cid().equals(cid) {
                return Some(i);
            }
            i = i + 1;
        }
        None
    }
}

impl BlockStore for MemoryBlockStore {
    closed spec fn contents(&self) -> Map<CidView, Seq<u8>> {
        keyed_map(self.entries())
    }

    open spec fn infallible(&self) -> bool {
        true
    }

    closed spec fn listing(&self) -> Seq<CidView> {
        self.entries().map_values(|e: (CidView, Seq<u8>)| e.0)
    }

    fn get(&self, cid: &Cid) -> (r: Result<Option<Block>, KshError>) {
        proof {
            use_type_invariant(self);
        }
        match self.find(cid) {
            Some(i) => {
                proof {
                    lemma_keyed_lookup(self.entries(), i as int);
                }
                Ok(Some(self.blocks[i].duplicate()))
            },
            None => {
                assert(!has_key(self.entries(), cid@));
                Ok(None)
            },
        }
    }

    fn put(&mut self, block: &Block) -> (r: Result<(), KshError>) {
        proof {
            use_type_invariant(&*self);
        }
        let ghost before = self.entries();
        let found = self.find(block.cid());
        let mut blocks: Vec<Block> = Vec::new();
        std::mem::swap(&mut blocks, &mut self.blocks);
        assert(blocks@.map_values(|b: Block| entry_of(b)) == before);
        match found {
            Some(k) => {
                blocks.set(k, block.duplicate());
                proof {
                    lemma_keyed_replace(before, k as int, (block@.cid, block@.data));
                    assert(blocks@.map_values(|b: Block| entry_of(b)) =~= before.update(k as int, (block@.cid, block@.data)));
                }
            },
            None => {
                blocks.push(block.duplicate());
                proof {
                    lemma_keyed_append(before, (block@.cid, block@.data));
                    assert(blocks@.map_values(|b: Block| entry_of(b)) =~= before.push((block@.cid, block@.data)));
                }
            },
        }
        self.blocks = blocks;
        Ok(())
    }

    fn has(&self, cid: &Cid) -> (r: Result<bool, KshError>) {
        proof {
            use_type_invariant(self);
        }
        match self.find(cid) {
            Some(i) => {
                proof {
                    lemma_keyed_lookup(self.entries(), i as int);
                }
                Ok(true)
            },
            None => {
                assert(!has_key(self.entries(), cid@));
                Ok(false)
            },
        }
    }

    fn remove(&mut self, cid: &Cid) -> (r: Result<(), KshError>) {
        proof {
            use_type_invariant(&*self);
        }
        let ghost before = self.entries();
        match self.find(cid) {
            Some(k) => {
                let mut blocks: Vec<Block> = Vec::new();
                std::mem::swap(&mut blocks, &mut self.blocks);
                assert(blocks@.map_values(|b: Block| entry_of(b)) == before);
                blocks.remove(k);
                proof {
                    lemma_keyed_take_out(before, k as int);
                    assert(blocks@.map_values(|b: Block| entry_of(b)) =~= before.remove(k as int));
                }
                self.blocks = blocks;
            },
            None => {
                assert(!has_key(before, cid@));
                assert(keyed_map(before).remove(cid@) =~= keyed_map(before));
            },
        }
        Ok(())
    }

    fn list(&self) -> (r: Result<Vec<Cid>, KshError>)
        ensures
            r matches Ok(v) ==> cid_views(v@).no_duplicates() && cid_views(v@).to_set() == self.contents().dom(),
    {
        let cids = self.list_cids();
        Ok(cids)
    }
}

} // verus!
