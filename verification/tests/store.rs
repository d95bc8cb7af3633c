use ksh::block::Block;
use ksh::store::memory::MemoryBlockStore;
use ksh::store::{BlockStore, SledBlockStore};

#[test]
fn memory_put_get_has_remove() {
    let mut store = MemoryBlockStore::new();
    let a = Block::new(b"alpha".to_vec()).unwrap();
    let b = Block::new(b"beta".to_vec()).unwrap();
    assert!(store.get(a.cid()).unwrap().is_none());
    assert!(!store.has(a.cid()).unwrap());
    store.put(&a).unwrap();
    store.put(&b).unwrap();
    assert!(store.has(a.cid()).unwrap());
    let got = store.get(a.cid()).unwrap().unwrap();
    assert_eq!(got.data(), &b"alpha".to_vec());
    assert_eq!(got.cid(), a.cid());
    store.remove(a.cid()).unwrap();
    assert!(!store.has(a.cid()).unwrap());
    assert!(store.has(b.cid()).unwrap());
    store.remove(a.cid()).unwrap();
    assert_eq!(store.list().unwrap(), vec![b.cid().clone()]);
}

#[test]
fn memory_put_twice_keeps_one_entry() {
    let mut store = MemoryBlockStore::new();
    let a = Block::new(b"same".to_vec()).unwrap();
    store.put(&a).unwrap();
    store.put(&a).unwrap();
    assert_eq!(store.list().unwrap().len(), 1);
    // put replaces the data stored under the CID
    let c = Block::from_parts(a.cid().clone(), b"other".to_vec());
    store.put(&c).unwrap();
    assert_eq!(store.get(a.cid()).unwrap().unwrap().data(), &b"other".to_vec());
    assert_eq!(store.list().unwrap().len(), 1);
}

#[test]
fn memory_list_in_insertion_order() {
    let mut store = MemoryBlockStore::new();
    let blocks: Vec<Block> = (0u8..5).map(|i| Block::new(vec![i]).unwrap()).collect();
    for b in &blocks {
        store.put(b).unwrap();
    }
    let listed = store.list().unwrap();
    let expected: Vec<_> = blocks.iter().map(|b| b.cid().clone()).collect();
    assert_eq!(listed, expected);
}

#[test]
fn sled_put_get_has_remove_list() {
    let db = sled::Config::new().temporary(true).open().unwrap();
    let mut store = SledBlockStore::with_db(db);
    let a = Block::new(b"alpha".to_vec()).unwrap();
    let b = Block::new(b"beta".to_vec()).unwrap();
    assert!(store.get(a.cid()).unwrap().is_none());
    store.put(&a).unwrap();
    store.put(&b).unwrap();
    assert!(store.has(a.cid()).unwrap());
    assert_eq!(store.get(b.cid()).unwrap().unwrap().data(), &b"beta".to_vec());
    let mut listed = store.list().unwrap();
    listed.sort_by_key(|c| c.to_bytes());
    let mut expected = vec![a.cid().clone(), b.cid().clone()];
    expected.sort_by_key(|c| c.to_bytes());
    assert_eq!(listed, expected);
    store.remove(a.cid()).unwrap();
    assert!(!store.has(a.cid()).unwrap());
    assert_eq!(store.list().unwrap(), vec![b.cid().clone()]);
}

#[test]
fn sled_list_refuses_a_key_that_is_no_cid() {
    let db = sled::Config::new().temporary(true).open().unwrap();
    db.insert(vec![0xffu8], vec![1u8]).unwrap();
    let store = SledBlockStore::with_db(db);
    assert!(store.list().is_err());
}

#[test]
fn sled_list_names_the_undecodable_key() {
    let db = sled::Config::new().temporary(true).open().unwrap();
    db.insert(vec![0xffu8], vec![1u8]).unwrap();
    let store = SledBlockStore::with_db(db);
    assert!(matches!(store.list(), Err(ksh::error::KshError::InvalidCid)));
}

#[test]
fn decode_keys_keeps_the_order_of_the_keys() {
    let a = Block::new(b"alpha".to_vec()).unwrap();
    let b = Block::new(b"beta".to_vec()).unwrap();
    let keys = vec![b.cid().to_bytes(), a.cid().to_bytes()];
    let cids = SledBlockStore::decode_keys(&keys).unwrap();
    assert_eq!(cids, vec![b.cid().clone(), a.cid().clone()]);
    assert!(SledBlockStore::decode_keys(&Vec::new()).unwrap().is_empty());
}

#[test]
fn decode_keys_refuses_a_key_that_is_no_cid() {
    let a = Block::new(b"alpha".to_vec()).unwrap();
    let keys = vec![a.cid().to_bytes(), vec![0x00u8, 0x01]];
    assert!(matches!(SledBlockStore::decode_keys(&keys), Err(ksh::error::KshError::InvalidCid)));
}

#[test]
fn sled_list_is_in_ascending_key_order() {
    let db = sled::Config::new().temporary(true).open().unwrap();
    let mut store = SledBlockStore::with_db(db);
    let blocks: Vec<Block> = (0u8..6).map(|i| Block::new(vec![i, i, i]).unwrap()).collect();
    for b in &blocks {
        store.put(b).unwrap();
        store.put(b).unwrap();
    }
    let listed = store.list().unwrap();
    assert_eq!(listed.len(), blocks.len());
    for w in listed.windows(2) {
        assert!(w[0].to_bytes() < w[1].to_bytes());
    }
}

#[test]
fn memory_store_lists_each_cid_once() {
    let mut store = MemoryBlockStore::new();
    assert!(store.list().unwrap().is_empty());
    let a = Block::new(b"a".to_vec()).unwrap();
    store.put(&a).unwrap();
    store.put(&a).unwrap();
    assert_eq!(store.list().unwrap(), vec![a.cid().clone()]);
}

#[test]
fn sled_list_follows_the_cid_encodings() {
    let db = sled::Config::new().temporary(true).open().unwrap();
    let mut store = SledBlockStore::with_db(db);
    let a = Block::new(b"one".to_vec()).unwrap();
    let b = Block::new(b"two".to_vec()).unwrap();
    store.put(&a).unwrap();
    store.put(&b).unwrap();
    let listed = store.list().unwrap();
    let mut expected = vec![a.cid().clone(), b.cid().clone()];
    expected.sort_by_key(|c| c.to_bytes());
    assert_eq!(listed, expected);
}
