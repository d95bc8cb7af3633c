use ksh::chunker::fixed::FixedChunker;
use ksh::chunker::Chunker;

#[test]
fn fixed_chunks_of_three() {
    let c = FixedChunker::new(3);
    let chunks = c.chunk(b"abcdefgh").unwrap();
    assert_eq!(chunks, vec![b"abc".to_vec(), b"def".to_vec(), b"gh".to_vec()]);
}

#[test]
fn fixed_chunks_exact_and_empty() {
    let c = FixedChunker::new(4);
    assert_eq!(c.chunk(b"abcd").unwrap(), vec![b"abcd".to_vec()]);
    assert!(c.chunk(b"").unwrap().is_empty());
}

#[test]
fn default_chunk_size() {
    assert_eq!(FixedChunker::default().chunk_size, 256 * 1024);
}
