use ksh::block::{cid_v1_raw, hash_data, parse_cid, Block};
use ksh::content_id::{Version, RAW};

#[test]
fn test_block_create_and_verify() {
    let block = Block::new(b"hello world".to_vec()).unwrap();
    assert!(block.verify().unwrap());
    assert_eq!(block.size(), 11);
}

#[test]
fn test_cid_roundtrip() {
    let block = Block::new(b"test data".to_vec()).unwrap();
    let s = block.cid().to_string();
    let parsed = parse_cid(&s).unwrap();
    assert_eq!(*block.cid(), parsed);
}

#[test]
fn test_cid_v1_raw() {
    let mh = hash_data(b"hello");
    let cid = cid_v1_raw(mh);
    assert_eq!(cid.version(), Version::V1);
    assert_eq!(cid.codec(), 0x55);
    assert_eq!(cid.codec(), RAW);
}
