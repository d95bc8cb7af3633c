//! A block store kept on disk in a `sled` database, keyed by the binary
//! encoding of each CID.
//!
//! The store's contents are read off the database's contents; this holds as
//! long as no other handle to the same database writes to it.
use vstd::prelude::*;

use crate::block::Block;
use crate::content_id::{Cid, CidView, cid_decoding, cid_encoding, encodes_back};
use crate::error::KshError;
use super::{BlockStore, cid_views};

verus! {

/// The key-value pairs in a `sled` database.
pub uninterp spec fn sled_contents(db: sled::Db) -> Map<Seq<u8>, Seq<u8>>;

/// The keys of a `sled` database in the order its iterator gives them.
pub uninterp spec fn sled_key_order(db: sled::Db) -> Seq<Seq<u8>>;

/// The path a `sled` database was opened at.
pub uninterp spec fn sled_opened_at(db: sled::Db) -> Seq<char>;

/// Trusted: `sled::open` opens, or creates, the database at `path`; a database
/// it returns is the one at `path`. Whether it succeeds, and what the database
/// holds, depend on the disk and are not claimed.
#[verifier::external_body]
fn sled_open(path: &str) -> (r: Result<sled::Db, sled::Error>)
    ensures
        r matches Ok(db) ==> sled_opened_at(db) == path@,
{
    sled::open(path)
}

/// Trusted: `sled::Tree::get` returns the value stored under `key`, if any.
#[verifier::external_body]
fn sled_get(db: &sled::Db, key: &[u8]) -> (r: Result<Option<Vec<u8>>, sled::Error>)
    ensures
        r matches Ok(Some(v)) ==> sled_contents(*db).contains_key(key@) && v@ == sled_contents(*db)[key@],
        r matches Ok(None) ==> !sled_contents(*db).contains_key(key@),
{
    Ok(db.get(key)?.map(|v| v.to_vec()))
}

/// Trusted: `sled::Tree::insert` stores `value` under `key`, replacing what
/// was stored there. Single-key operations of sled are atomic, so where it
/// fails the contents are as they were or as after the insert.
#[verifier::external_body]
fn sled_insert(db: &mut sled::Db, key: &[u8], value: &[u8]) -> (r: Result<(), sled::Error>)
    ensures
        r is Ok ==> sled_contents(*final(db)) == sled_contents(*old(db)).insert(key@, value@),
        r is Err ==> sled_contents(*final(db)) == sled_contents(*old(db)) || sled_contents(*final(db))
            == sled_contents(*old(db)).insert(key@, value@),
{
    db.insert(key, value)?;
    Ok(())
}

/// Trusted: `sled::Tree::flush` writes dirty buffers to disk and leaves the
/// contents as they are.
#[verifier::external_body]
fn sled_flush(db: &mut sled::Db) -> (r: Result<(), sled::Error>)
    ensures
        sled_contents(*final(db)) == sled_contents(*old(db)),
{
    db.flush()?;
    Ok(())
}

/// Trusted: `sled::Tree::contains_key` tells whether a value is stored under `key`.
#[verifier::external_body]
fn sled_contains_key(db: &sled::Db, key: &[u8]) -> (r: Result<bool, sled::Error>)
    ensures
        r matches Ok(b) ==> b == sled_contents(*db).contains_key(key@),
{
    db.contains_key(key)
}

/// Trusted: `sled::Tree::remove` removes what is stored under `key`, if
/// anything. Single-key operations of sled are atomic, so where it fails the
/// contents are as they were or as after the removal.
#[verifier::external_body]
fn sled_remove(db: &mut sled::Db, key: &[u8]) -> (r: Result<(), sled::Error>)
    ensures
        r is Ok ==> sled_contents(*final(db)) == sled_contents(*old(db)).remove(key@),
        r is Err ==> sled_contents(*final(db)) == sled_contents(*old(db)) || sled_contents(*final(db))
            == sled_contents(*old(db)).remove(key@),
{
    db.remove(key)?;
    Ok(())
}

/// Whether key `a` comes before key `b` in the order of `Vec<u8>`: at the
/// first byte where they differ, or by ending first.
pub open spec fn bytes_before(a: Seq<u8>, b: Seq<u8>) -> bool
    decreases a.len(),
{
    if b.len() == 0 {
        false
    } else if a.len() == 0 {
        true
    } else if a[0] != b[0] {
        a[0] < b[0]
    } else {
        bytes_before(a.drop_first(), b.drop_first())
    }
}

/// Whether each key comes before every later one.
pub open spec fn ascending(ks: Seq<Seq<u8>>) -> bool {
    forall|i: int, j: int| 0 <= i < j < ks.len() ==> bytes_before(#[trigger] ks[i], #[trigger] ks[j])
}

/// Whether `k` is the key that a store puts a block under: the encoding of
/// the CID it holds, which reads back from it.
pub open spec fn key_of_block(k: Seq<u8>) -> bool {
    &&& cid_decoding(k) is Some
    &&& encodes_back(cid_decoding(k)->Some_0)
    &&& cid_encoding(cid_decoding(k)->Some_0) == k
}

/// No key comes before itself.
pub proof fn lemma_bytes_before_irreflexive(a: Seq<u8>)
    ensures
        !bytes_before(a, a),
    decreases a.len(),
{
    if a.len() > 0 {
        lemma_bytes_before_irreflexive(a.drop_first());
    }
}

/// Trusted: `sled::Tree::iter` walks the stored pairs in the order of their
/// keys (that of `Vec<u8>`, as `Tree::get_gt` documents); the keys it gives
/// are each key of the database, once, ascending.
#[verifier::external_body]
fn sled_keys(db: &sled::Db) -> (r: Result<Vec<Vec<u8>>, sled::Error>)
    ensures
        r matches Ok(ks) ==> ks@.map_values(|k: Vec<u8>| k@) == sled_key_order(*db) && sled_key_order(
            *db,
        ).to_set() == sled_contents(*db).dom() && ascending(sled_key_order(*db)),
{
    let mut keys = Vec::new();
    for item in db.iter().keys() {
        keys.push(item?.to_vec());
    }
    Ok(keys)
}

/// The blocks that a database holds: for each CID that the codec reads back
/// from its encoding, the value stored under that encoding.
pub open spec fn blocks_in(kv: Map<Seq<u8>, Seq<u8>>) -> Map<CidView, Seq<u8>> {
    Map::new(
        |c: CidView| c.wf() && encodes_back(c) && kv.contains_key(cid_encoding(c)),
        |c: CidView| kv[cid_encoding(c)],
    )
}

/// A block store kept in a `sled` database.
pub struct SledBlockStore {
    db: sled::Db,
}

impl SledBlockStore {
    /// The keys of the database, in the order the database walks them.
    pub closed spec fn keys(&self) -> Seq<Seq<u8>> {
        sled_key_order(self.db)
    }

    /// The path of the database this store is kept in.
    pub closed spec fn opened_at(&self) -> Seq<char> {
        sled_opened_at(self.db)
    }

    /// Opens, or creates, the database at `path`.
    pub fn new(path: &str) -> (r: Result<SledBlockStore, KshError>)
        ensures
            r matches Ok(s) ==> s.opened_at() == path@,
            r matches Err(e) ==> e is Store,
    {
        match sled_open(path) {
            Ok(db) => Ok(SledBlockStore { db }),
            Err(_) => Err(KshError::Store),
        }
    }

    /// A store over an open database.
    ///
    /// The store's contents are read off the database through this handle
    /// alone: the contract holds only while no other handle to the same
    /// database (a clone of `db` among them) writes to it.
    pub fn with_db(db: sled::Db) -> (s: SledBlockStore)
        ensures
            s.contents() == blocks_in(sled_contents(db)),
            s.keys() == sled_key_order(db),
            s.opened_at() == sled_opened_at(db),
    {
        SledBlockStore { db }
    }

    /// The CIDs that `keys` encode, in order; refused where a key holds no CID.
    pub fn decode_keys(keys: &Vec<Vec<u8>>) -> (r: Result<Vec<Cid>, KshError>)
        ensures
            r matches Ok(v) ==> v@.len() == keys@.len() && forall|j: int|
                0 <= j < keys@.len() ==> cid_decoding(keys@[j]@) == Some(#[trigger] v@[j]@) && v@[j]@.wf(),
            r is Ok <==> forall|j: int| 0 <= j < keys@.len() ==> (#[trigger] cid_decoding(keys@[j]@)) is Some,
            r matches Err(e) ==> e is InvalidCid,
    {
        let n = keys.len();
        let mut cids: Vec<Cid> = Vec::new();
        let mut i: usize = 0;
        while i < n
            invariant
                n == keys@.len(),
                i <= n,
                cids@.len() == i,
                forall|j: int| 0 <= j < i ==> cid_decoding(keys@[j]@) == Some(#[trigger] cids@[j]@) && cids@[j]@.wf(),
            decreases n - i,
        {
            let cid = match Cid::read_bytes(keys[i].as_slice()) {
                Ok(c) => c,
                Err(e) => {
                    assert(cid_decoding(keys@[i as int]@) is None);
                    return Err(e);
                },
            };
            proof {
                use_type_invariant(&cid);
            }
            cids.push(cid);
            i = i + 1;
        }
        assert forall|j: int| 0 <= j < keys@.len() implies (#[trigger] cid_decoding(keys@[j]@)) is Some by {
            assert(cid_decoding(keys@[j]@) == Some(cids@[j]@));
        }
        Ok(cids)
    }

    /// The key of a CID: its binary encoding.
    fn key_of(cid: &Cid) -> (k: Vec<u8>)
        ensures
            k@ == cid_encoding(cid@),
            encodes_back(cid@),
            cid@.wf(),
    {
        proof {
            use_type_invariant(cid);
        }
        cid.to_bytes()
    }

    proof fn lemma_insert(kv: Map<Seq<u8>, Seq<u8>>, c: CidView, d: Seq<u8>)
        requires
            c.wf(),
            encodes_back(c),
        ensures
            blocks_in(kv.insert(cid_encoding(c), d)) == blocks_in(kv).insert(c, d),
    {
        let a = blocks_in(kv.insert(cid_encoding(c), d));
        let b = blocks_in(kv).insert(c, d);
        assert forall|x: CidView| a.contains_key(x) <==> b.contains_key(x) by {
            if x.wf() && encodes_back(x) && cid_encoding(x) == cid_encoding(c) {
                assert(x == c);
            }
        }
        assert forall|x: CidView| a.contains_key(x) implies a[x] == b[x] by {
            if cid_encoding(x) == cid_encoding(c) {
                assert(x == c);
            }
        }
        assert(a =~= b);
    }

    proof fn lemma_remove(kv: Map<Seq<u8>, Seq<u8>>, c: CidView)
        requires
            c.wf(),
            encodes_back(c),
        ensures
            blocks_in(kv.remove(cid_encoding(c))) == blocks_in(kv).remove(c),
    {
        let a = blocks_in(kv.remove(cid_encoding(c)));
        let b = blocks_in(kv).remove(c);
        assert forall|x: CidView| a.contains_key(x) <==> b.contains_key(x) by {
            if x.wf() && encodes_back(x) && cid_encoding(x) == cid_encoding(c) {
                assert(x == c);
            }
        }
        assert(a =~= b);
    }
}

impl BlockStore for SledBlockStore {
    closed spec fn contents(&self) -> Map<CidView, Seq<u8>> {
        blocks_in(sled_contents(self.db))
    }

    closed spec fn infallible(&self) -> bool {
        false
    }

    closed spec fn listing(&self) -> Seq<CidView> {
        sled_key_order(self.db).map_values(|k: Seq<u8>| cid_decoding(k)->Some_0)
    }

    fn get(&self, cid: &Cid) -> (r: Result<Option<Block>, KshError>) {
        let key = Self::key_of(cid);
        match sled_get(&self.db, key.as_slice()) {
            Ok(Some(data)) => Ok(Some(Block::from_parts(cid.duplicate(), data))),
            Ok(None) => Ok(None),
            Err(_) => Err(KshError::Store),
        }
    }

    fn put(&mut self, block: &Block) -> (r: Result<(), KshError>) {
        let key = Self::key_of(block.cid());
        let ghost before = sled_contents(self.db);
        proof {
            Self::lemma_insert(before, block@.cid, block@.data);
        }
        if sled_insert(&mut self.db, key.as_slice(), block.data().as_slice()).is_err() {
            return Err(KshError::Store);
        }
        if sled_flush(&mut self.db).is_err() {
            return Err(KshError::Store);
        }
        Ok(())
    }

    fn has(&self, cid: &Cid) -> (r: Result<bool, KshError>) {
        let key = Self::key_of(cid);
        match sled_contains_key(&self.db, key.as_slice()) {
            Ok(b) => Ok(b),
            Err(_) => Err(KshError::Store),
        }
    }

    fn remove(&mut self, cid: &Cid) -> (r: Result<(), KshError>) {
        let key = Self::key_of(cid);
        let ghost before = sled_contents(self.db);
        proof {
            Self::lemma_remove(before, cid@);
        }
        if sled_remove(&mut self.db, key.as_slice()).is_err() {
            return Err(KshError::Store);
        }
        Ok(())
    }

    fn list(&self) -> (r: Result<Vec<Cid>, KshError>)
        ensures
            r is Ok ==> forall|j: int|
                0 <= j < self.keys().len() ==> (#[trigger] cid_decoding(self.keys()[j])) is Some,
            r is Ok ==> ascending(self.keys()),
            r matches Ok(v) ==> ((forall|j: int| 0 <= j < self.keys().len() ==> key_of_block(#[trigger] self.keys()[j]))
                ==> cid_views(v@).no_duplicates() && cid_views(v@).to_set() == self.contents().dom() && v@.len()
                == self.keys().len() && (forall|i: int| 0 <= i < v@.len() ==> cid_encoding(#[trigger] v@[i]@) == self.keys()[i])
                && (forall|i: int, j: int| 0 <= i < j < v@.len() ==> bytes_before(cid_encoding(#[trigger] v@[i]@), cid_encoding(#[trigger] v@[j]@)))),
            r matches Err(e) ==> e is Store || (e is InvalidCid && exists|j: int|
                0 <= j < self.keys().len() && (#[trigger] cid_decoding(self.keys()[j])) is None),
    {
        let keys = match sled_keys(&self.db) {
            Ok(ks) => ks,
            Err(_) => {
                return Err(KshError::Store);
            },
        };
        let ghost order = sled_key_order(self.db);
        assert forall|j: int| 0 <= j < keys@.len() implies keys@[j]@ == order[j] by {}
        let cids = match Self::decode_keys(&keys) {
            Ok(v) => v,
            Err(e) => {
                proof {
                    let j = choose|j: int| 0 <= j < keys@.len() && (#[trigger] cid_decoding(keys@[j]@)) is None;
                    assert(cid_decoding(order[j]) is None);
                }
                return Err(e);
            },
        };
        let n = keys.len();
        assert forall|j: int| 0 <= j < order.len() implies (#[trigger] cid_decoding(order[j])) is Some by {
            assert(cid_decoding(keys@[j]@) is Some);
        }
        let ghost listing = order.map_values(|k: Seq<u8>| cid_decoding(k)->Some_0);
        assert(cid_views(cids@) =~= listing);
        assert forall|c: CidView| #[trigger] self.contents().contains_key(c) implies listing.to_set().contains(c) by {
            let k = cid_encoding(c);
            assert(order.to_set().contains(k));
            let j = choose|j: int| 0 <= j < order.len() && order[j] == k;
            assert(listing[j] == c);
        }
        assert(self.contents().dom().subset_of(listing.to_set()));
        proof {
            if forall|j: int| 0 <= j < order.len() ==> key_of_block(#[trigger] order[j]) {
                assert forall|a: int, b: int| 0 <= a < listing.len() && 0 <= b < listing.len() && a != b implies listing[a]
                    != listing[b] by {
                    assert(key_of_block(order[a]) && key_of_block(order[b]));
                    if listing[a] == listing[b] {
                        lemma_bytes_before_irreflexive(order[a]);
                        if a < b {
                            assert(bytes_before(order[a], order[b]));
                        } else {
                            assert(bytes_before(order[b], order[a]));
                        }
                    }
                }
                assert forall|c: CidView| listing.to_set().contains(c) implies #[trigger] self.contents().contains_key(c) by {
                    let j = choose|j: int| 0 <= j < listing.len() && listing[j] == c;
                    assert(key_of_block(order[j]));
                    assert(cids@[j]@.wf());
                    assert(order.to_set().contains(order[j]));
                }
                assert(listing.to_set() =~= self.contents().dom());
                assert forall|i: int| 0 <= i < cids@.len() implies cid_encoding(#[trigger] cids@[i]@) == order[i] by {
                    assert(key_of_block(order[i]));
                }
                assert forall|i: int, j: int| 0 <= i < j < cids@.len() implies bytes_before(
                    cid_encoding(#[trigger] cids@[i]@),
                    cid_encoding(#[trigger] cids@[j]@),
                ) by {
                    assert(key_of_block(order[i]) && key_of_block(order[j]));
                    assert(bytes_before(order[i], order[j]));
                }
            }
        }
        Ok(cids)
    }
}

} // verus!
