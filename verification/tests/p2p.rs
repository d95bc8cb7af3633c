use ksh::block::Block;
use ksh::p2p::bitswap::{BitswapCodec, BitswapRequest, BitswapResponse};
use ksh::p2p::{accept_response, answer_request};
use ksh::store::memory::MemoryBlockStore;
use ksh::store::BlockStore;

#[test]
fn frames_round_trip() {
    let codec = BitswapCodec;
    let frame = codec.write_request(&BitswapRequest(b"abc".to_vec()));
    assert_eq!(frame, vec![3, 0, 0, 0, b'a', b'b', b'c']);
    let mut with_tail = frame.clone();
    with_tail.extend_from_slice(b"tail");
    assert_eq!(codec.read_request(&with_tail).unwrap().0, b"abc".to_vec());
    assert_eq!(BitswapCodec::frame_len(&[3, 0, 0, 0]), 3);
    assert_eq!(BitswapCodec::frame_len(&[0, 1, 0, 0]), 256);
    let empty = codec.write_response(&BitswapResponse(vec![]));
    assert_eq!(empty, vec![0, 0, 0, 0]);
    assert_eq!(codec.read_response(&empty).unwrap().0, Vec::<u8>::new());
    assert!(codec.read_response(&[5, 0, 0, 0, 1]).is_none());
    assert!(BitswapCodec::decode_frame(&[1, 0]).is_none());
}

#[test]
fn requests_are_answered_from_the_store() {
    let mut store = MemoryBlockStore::new();
    let block = Block::new(b"payload".to_vec()).unwrap();
    store.put(&block).unwrap();
    let req = BitswapRequest::for_cid(block.cid());
    assert_eq!(req.0, block.cid().to_bytes());
    let answer = answer_request(&store, &req).unwrap().unwrap();
    assert_eq!(answer.0, b"payload".to_vec());
    let other = Block::new(b"missing".to_vec()).unwrap();
    let answer = answer_request(&store, &BitswapRequest::for_cid(other.cid())).unwrap().unwrap();
    assert!(answer.0.is_empty());
    assert!(answer_request(&store, &BitswapRequest(vec![0xff])).unwrap().is_none());
}

#[test]
fn responses_are_stored() {
    let mut store = MemoryBlockStore::new();
    assert!(accept_response(&mut store, BitswapResponse(vec![])).unwrap().is_none());
    assert!(store.list().unwrap().is_empty());
    let cid = accept_response(&mut store, BitswapResponse(b"data".to_vec())).unwrap().unwrap();
    assert_eq!(&cid, Block::new(b"data".to_vec()).unwrap().cid());
    assert_eq!(store.get(&cid).unwrap().unwrap().data(), &b"data".to_vec());
}

#[test]
fn sled_store_request_without_cid_is_answered_with_nothing() {
    let db = sled::Config::new().temporary(true).open().unwrap();
    let store = ksh::store::SledBlockStore::with_db(db);
    assert!(answer_request(&store, &BitswapRequest(vec![0xff])).unwrap().is_none());
}
