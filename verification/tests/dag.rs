use ksh::block::Block;
use ksh::chunker::fixed::FixedChunker;
use ksh::dag::resolver::{parse_node, Probe};
use ksh::dag::{DagBuilder, DagResolver};
use ksh::store::memory::MemoryBlockStore;
use ksh::store::BlockStore;
use ksh::KshError;

#[test]
fn add_then_cat_many_chunks() {
    let data = b"hello world, this is a content-addressed store".to_vec();
    let mut builder = DagBuilder::new(MemoryBlockStore::new(), FixedChunker::new(4));
    let root = builder.add_bytes(&data).unwrap();
    // 12 leaves and the parent
    assert_eq!(builder.store.list().unwrap().len(), 13);
    let resolver = DagResolver::new(&builder.store);
    assert_eq!(resolver.cat(&root).unwrap(), data);
    assert_eq!(resolver.cat_within(&root, 2).unwrap(), Some(data.clone()));
    assert_eq!(resolver.cat_within(&root, 1).unwrap(), None);
}

#[test]
fn add_single_chunk_is_one_raw_block() {
    let data = b"small".to_vec();
    let mut builder = DagBuilder::new(MemoryBlockStore::new(), FixedChunker::new(64));
    let root = builder.add_bytes(&data).unwrap();
    assert_eq!(&root, Block::new(data.clone()).unwrap().cid());
    assert_eq!(builder.store.list().unwrap().len(), 1);
    let resolver = DagResolver::new(&builder.store);
    assert_eq!(resolver.cat(&root).unwrap(), data);
}

#[test]
fn parent_block_layout() {
    let data = b"abcdef".to_vec();
    let mut builder = DagBuilder::new(MemoryBlockStore::new(), FixedChunker::new(3));
    let root = builder.add_bytes(&data).unwrap();
    let parent = builder.store.get(&root).unwrap().unwrap();
    let p = parent.data().clone();
    let c1 = Block::new(b"abc".to_vec()).unwrap().cid().to_bytes();
    let c2 = Block::new(b"def".to_vec()).unwrap().cid().to_bytes();
    let mut expected = vec![2, 0, 0, 0];
    expected.extend_from_slice(&(c1.len() as u32).to_le_bytes());
    expected.extend_from_slice(&c1);
    expected.extend_from_slice(&(c2.len() as u32).to_le_bytes());
    expected.extend_from_slice(&c2);
    expected.extend_from_slice(&6u64.to_le_bytes());
    assert_eq!(p, expected);
    let children = parse_node(&p).unwrap().unwrap();
    assert_eq!(children.len(), 2);
}

#[test]
fn empty_data_gives_an_empty_parent() {
    let mut builder = DagBuilder::new(MemoryBlockStore::new(), FixedChunker::new(8));
    let root = builder.add_bytes(b"").unwrap();
    let resolver = DagResolver::new(&builder.store);
    // the parent of no children reads as a leaf: its own 12 bytes
    assert_eq!(resolver.cat(&root).unwrap(), vec![0u8; 12]);
}

#[test]
fn leaf_that_looks_like_a_parent_is_read_as_one() {
    let data = vec![1u8, 0, 0, 0, 0xff, 0xff, 0xff, 0xff];
    let mut builder = DagBuilder::new(MemoryBlockStore::new(), FixedChunker::new(64));
    let root = builder.add_bytes(&data).unwrap();
    let resolver = DagResolver::new(&builder.store);
    assert_eq!(resolver.cat(&root).unwrap(), Vec::<u8>::new());
}

#[test]
fn cat_reports_a_missing_block() {
    let store = MemoryBlockStore::new();
    let absent = Block::new(b"absent".to_vec()).unwrap();
    let resolver = DagResolver::new(&store);
    match resolver.cat(absent.cid()) {
        Err(KshError::BlockNotFound(c)) => assert_eq!(&c, absent.cid()),
        _ => panic!("expected a missing block"),
    }
    assert!(matches!(resolver.probe(absent.cid(), 3).unwrap(), Probe::Failed));
    assert!(matches!(resolver.probe(absent.cid(), 0).unwrap(), Probe::TooDeep));
}

#[test]
fn cat_reports_a_child_that_is_no_cid() {
    let mut store = MemoryBlockStore::new();
    let bad = Block::new(vec![1, 0, 0, 0, 2, 0, 0, 0, 0xff, 0xff]).unwrap();
    store.put(&bad).unwrap();
    let resolver = DagResolver::new(&store);
    assert!(matches!(resolver.cat(bad.cid()), Err(KshError::InvalidCid)));
    assert!(matches!(parse_node(bad.data()), Err(KshError::InvalidCid)));
}

#[test]
fn nested_parent_is_read_depth_first() {
    let mut store = MemoryBlockStore::new();
    let a = Block::new(b"AA".to_vec()).unwrap();
    let b = Block::new(b"BB".to_vec()).unwrap();
    let c = Block::new(b"CC".to_vec()).unwrap();
    for x in [&a, &b, &c] {
        store.put(x).unwrap();
    }
    let entry = |blk: &Block| {
        let bytes = blk.cid().to_bytes();
        let mut v = (bytes.len() as u32).to_le_bytes().to_vec();
        v.extend_from_slice(&bytes);
        v
    };
    let mut inner = vec![2, 0, 0, 0];
    inner.extend(entry(&a));
    inner.extend(entry(&b));
    let inner = Block::new(inner).unwrap();
    store.put(&inner).unwrap();
    let mut outer = vec![2, 0, 0, 0];
    outer.extend(entry(&inner));
    outer.extend(entry(&c));
    let outer = Block::new(outer).unwrap();
    store.put(&outer).unwrap();
    let resolver = DagResolver::new(&store);
    assert_eq!(resolver.cat(outer.cid()).unwrap(), b"AABBCC".to_vec());
    assert_eq!(resolver.cat_within(outer.cid(), 2).unwrap(), None);
    assert_eq!(resolver.cat_within(outer.cid(), 3).unwrap(), Some(b"AABBCC".to_vec()));
}
