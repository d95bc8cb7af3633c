use ksh::block::{cid_v0_from_hash, hash_data, parse_cid, Block};
use ksh::content_id::{Cid, Multihash, Version, DAG_PB, SHA2_256};
use ksh::KshError;

#[test]
fn hash_is_sha2_256_of_the_data() {
    let mh = hash_data(b"hello world");
    assert_eq!(mh.code(), SHA2_256);
    assert_eq!(mh.size(), 32);
    // SHA-256("hello world")
    assert_eq!(
        mh.digest()[..4].to_vec(),
        vec![0xb9, 0x4d, 0x27, 0xb9]
    );
}

#[test]
fn block_cid_text_is_known_value() {
    let block = Block::new(b"hello world".to_vec()).unwrap();
    assert_eq!(
        block.cid().to_string(),
        "bafkreifzjut3te2nhyekklss27nh3k72ysco7y32koao5eei66wof36n5e"
    );
}

#[test]
fn cid_bytes_read_back() {
    let block = Block::new(b"abc".to_vec()).unwrap();
    let bytes = block.cid().to_bytes();
    assert_eq!(bytes[0], 0x01);
    assert_eq!(bytes[1], 0x55);
    assert_eq!(bytes[2], 0x12);
    assert_eq!(bytes[3], 0x20);
    assert_eq!(bytes.len(), 36);
    let back = Cid::read_bytes(&bytes).unwrap();
    assert_eq!(&back, block.cid());
}

#[test]
fn read_bytes_refuses_garbage() {
    assert!(matches!(Cid::read_bytes(&[0xff]), Err(KshError::InvalidCid)));
    assert!(matches!(Cid::read_bytes(&[]), Err(KshError::InvalidCid)));
}

#[test]
fn parse_cid_refuses_garbage() {
    assert!(matches!(parse_cid("not a cid"), Err(KshError::InvalidCid)));
    assert!(matches!(parse_cid(""), Err(KshError::InvalidCid)));
}

#[test]
fn cid_v0_over_sha2_256() {
    let mh = hash_data(b"hello");
    let cid = cid_v0_from_hash(&mh).unwrap();
    assert_eq!(cid.version(), Version::V0);
    assert_eq!(cid.codec(), DAG_PB);
    assert_eq!(cid.hash(), &mh);
    let text = cid.to_string();
    assert!(text.starts_with("Qm"));
    assert_eq!(parse_cid(&text).unwrap(), cid);
}

#[test]
fn cid_v0_refuses_other_multihash() {
    let short = Multihash::wrap(SHA2_256, &[1, 2, 3]).unwrap();
    assert!(matches!(cid_v0_from_hash(&short), Err(KshError::InvalidCidV0Multihash)));
    let other = Multihash::wrap(0x13, &[0u8; 32]).unwrap();
    assert!(matches!(cid_v0_from_hash(&other), Err(KshError::InvalidCidV0Multihash)));
}

#[test]
fn wrap_refuses_long_digest() {
    assert!(Multihash::wrap(1, &[0u8; 65]).is_none());
    assert!(Multihash::wrap(1, &[0u8; 64]).is_some());
}

#[test]
fn verify_detects_wrong_cid() {
    let good = Block::new(b"one".to_vec()).unwrap();
    let other = Block::new(b"two".to_vec()).unwrap();
    let bad = Block::from_parts(other.cid().clone(), good.data().clone());
    assert!(!bad.verify().unwrap());
    assert!(good.verify().unwrap());
    assert_eq!(bad.size(), 3);
}

#[test]
fn equal_and_duplicate() {
    let a = Block::new(b"x".to_vec()).unwrap();
    let b = Block::new(b"x".to_vec()).unwrap();
    let c = Block::new(b"y".to_vec()).unwrap();
    assert!(a.cid().equals(b.cid()));
    assert!(!a.cid().equals(c.cid()));
    assert_eq!(a.cid().duplicate(), *a.cid());
    assert!(a.cid().hash().equals(b.cid().hash()));
}

#[test]
fn api_parse_cid_trims() {
    let block = Block::new(b"trim".to_vec()).unwrap();
    let text = format!("  {}\n\t", block.cid().to_string());
    assert_eq!(ksh::api::parse_cid(&text).unwrap(), *block.cid());
    assert!(parse_cid(&text).is_err());
    let ideographic = format!("\u{3000}{}\u{2003}", block.cid().to_string());
    assert_eq!(ksh::api::parse_cid(&ideographic).unwrap(), *block.cid());
}

#[test]
fn cid_v1_encoding_is_version_codec_and_multihash() {
    let block = Block::new(b"abc".to_vec()).unwrap();
    let bytes = block.cid().to_bytes();
    assert_eq!(bytes.len(), 36);
    assert_eq!(bytes[..4].to_vec(), vec![0x01, 0x55, 0x12, 0x20]);
    assert_eq!(bytes[4..].to_vec(), block.cid().hash().digest().to_vec());
}
