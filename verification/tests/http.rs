use ksh::api::http::{extract_body, handle_request, write_json, write_status, HttpConfig};
use ksh::block::Block;
use ksh::store::memory::MemoryBlockStore;
use ksh::store::BlockStore;

fn text(v: Vec<u8>) -> String {
    String::from_utf8(v).unwrap()
}

#[test]
fn body_cut_to_content_length() {
    let req = "POST /api/v0/block HTTP/1.1\r\nHost: x\r\ncontent-length: 3\r\n\r\nabcdef";
    assert_eq!(extract_body(req).unwrap(), b"abc".to_vec());
}

#[test]
fn body_whole_when_header_is_capitalised() {
    let req = "POST / HTTP/1.1\r\nContent-Length: 3\r\n\r\nabcdef";
    assert_eq!(extract_body(req).unwrap(), b"abcdef".to_vec());
}

#[test]
fn body_empty_without_separator() {
    assert_eq!(extract_body("POST / HTTP/1.1\r\ncontent-length: 3\r\n").unwrap(), Vec::<u8>::new());
}

#[test]
fn body_length_edge_cases() {
    let long = "POST / HTTP/1.1\r\ncontent-length: 10\r\n\r\nabc";
    assert_eq!(extract_body(long).unwrap(), b"abc".to_vec());
    let twice = "POST / HTTP/1.1\r\ncontent-length:content-length: 2\r\n\r\nabc";
    assert_eq!(extract_body(twice).unwrap(), b"ab".to_vec());
    let huge = "POST / HTTP/1.1\r\ncontent-length: 99999999999999999999999\r\n\r\nabc";
    assert_eq!(extract_body(huge).unwrap(), b"abc".to_vec());
    let upper = "POST / HTTP/1.1\r\nCONTENT-LENGTH:content-length:+1\r\n\r\nabc";
    assert_eq!(extract_body(upper).unwrap(), b"abc".to_vec());
    let plus = "POST / HTTP/1.1\r\ncontent-length:+1\r\n\r\nabc";
    assert_eq!(extract_body(plus).unwrap(), b"a".to_vec());
    let minus = "POST / HTTP/1.1\r\ncontent-length: -1\r\n\r\nabc";
    assert_eq!(extract_body(minus).unwrap(), b"abc".to_vec());
    let bad_then_good = "POST / HTTP/1.1\r\ncontent-length: x\r\ncontent-length: 1\r\n\r\nabc";
    assert_eq!(extract_body(bad_then_good).unwrap(), b"a".to_vec());
    let unicode = "POST / HTTP/1.1\r\ncontent-length:\u{3000}2\u{2029}\r\n\r\n\u{e9}bc";
    assert_eq!(extract_body(unicode).unwrap(), vec![0xc3, 0xa9]);
    let zero = "POST / HTTP/1.1\r\ncontent-length: 0\r\n\r\nabc";
    assert_eq!(extract_body(zero).unwrap(), Vec::<u8>::new());
}

#[test]
fn status_and_json_responses() {
    assert_eq!(
        text(write_status(404)),
        "HTTP/1.1 404 Not Found\r\nContent-Length: 9\r\nContent-Type: text/plain\r\n\r\nnot found"
    );
    assert_eq!(
        text(write_status(405)),
        "HTTP/1.1 405 Method Not Allowed\r\nContent-Length: 18\r\nContent-Type: text/plain\r\n\r\nmethod not allowed"
    );
    assert_eq!(
        text(write_status(500)),
        "HTTP/1.1 500 Internal Server Error\r\nContent-Length: 5\r\nContent-Type: text/plain\r\n\r\nerror"
    );
    assert_eq!(
        text(write_json(200, b"{}")),
        "HTTP/1.1 200 OK\r\nContent-Length: 2\r\nContent-Type: application/json\r\n\r\n{}"
    );
    assert_eq!(
        text(write_json(500, b"[]")),
        "HTTP/1.1 500 Error\r\nContent-Length: 2\r\nContent-Type: application/json\r\n\r\n[]"
    );
}

#[test]
fn post_get_delete_round_trip() {
    let mut store = MemoryBlockStore::new();
    let post = "POST /api/v0/block HTTP/1.1\r\ncontent-length: 5\r\n\r\nhello";
    let cid = Block::new(b"hello".to_vec()).unwrap().cid().to_string();
    let json = format!("{{\"cid\":\"{}\"}}\n", cid);
    let answer = text(handle_request(&mut store, post).unwrap());
    assert_eq!(
        answer,
        format!("HTTP/1.1 200 OK\r\nContent-Length: {}\r\nContent-Type: application/json\r\n\r\n{}", json.len(), json)
    );
    let get = format!("GET /api/v0/block/{} HTTP/1.1\r\n\r\n", cid);
    assert_eq!(
        text(handle_request(&mut store, &get).unwrap()),
        "HTTP/1.1 200 OK\r\nContent-Type: application/octet-stream\r\nContent-Length: 5\r\n\r\nhello"
    );
    let gateway = format!("GET /ipfs/{} HTTP/1.1\r\n\r\n", cid);
    assert_eq!(
        text(handle_request(&mut store, &gateway).unwrap()),
        "HTTP/1.1 200 OK\r\nContent-Type: application/octet-stream\r\nContent-Length: 5\r\nX-Content-Type-Options: nosniff\r\n\r\nhello"
    );
    let list = text(handle_request(&mut store, "GET /api/v0/block HTTP/1.1\r\n\r\n").unwrap());
    let list_json = format!("[\"{}\"]\n", cid);
    assert!(list.ends_with(&list_json));
    let delete = format!("DELETE /api/v0/block/{} HTTP/1.1\r\n\r\n", cid);
    assert!(text(handle_request(&mut store, &delete).unwrap()).ends_with("{\"status\":\"removed\"}\n"));
    assert_eq!(text(handle_request(&mut store, &get).unwrap()), text(write_status(404)));
    assert_eq!(text(handle_request(&mut store, &gateway).unwrap()), text(write_status(404)));
    assert!(store.list().unwrap().is_empty());
}

#[test]
fn other_requests() {
    let mut store = MemoryBlockStore::new();
    assert_eq!(text(handle_request(&mut store, "PUT /ipfs/abc HTTP/1.1\r\n\r\n").unwrap()), text(write_status(405)));
    assert_eq!(text(handle_request(&mut store, "GET /ipfs/notacid HTTP/1.1\r\n\r\n").unwrap()), text(write_status(400)));
    assert_eq!(text(handle_request(&mut store, "GET /api/v0/block/ HTTP/1.1\r\n\r\n").unwrap()), text(write_status(400)));
    assert_eq!(text(handle_request(&mut store, "GET /nowhere HTTP/1.1\r\n\r\n").unwrap()), text(write_status(404)));
    assert!(handle_request(&mut store, "GARBAGE\r\n\r\n").unwrap().is_empty());
    assert!(handle_request(&mut store, "").unwrap().is_empty());
    assert!(text(handle_request(&mut store, "GET /api/v0/id HTTP/1.1\r\n\r\n").unwrap())
        .ends_with("{\"peer_id\":\"local\",\"addresses\":[]}\n"));
    assert!(text(handle_request(&mut store, "GET /api/v0/block HTTP/1.1\r\n\r\n").unwrap()).ends_with("\r\n\r\n[]\n"));
    let cid = Block::new(b"x".to_vec()).unwrap().cid().to_string();
    let patch = format!("PATCH /api/v0/block/{} HTTP/1.1\r\n\r\n", cid);
    assert!(handle_request(&mut store, &patch).unwrap().is_empty());
}

#[test]
fn default_config() {
    let config = HttpConfig::default();
    assert_eq!(config.port, 8080);
    assert!(config.store.list().unwrap().is_empty());
    assert!(config.pinner.list().is_empty());
}

#[test]
fn sled_store_requests_without_store_calls_succeed() {
    let db = sled::Config::new().temporary(true).open().unwrap();
    let mut store = ksh::store::SledBlockStore::with_db(db);
    assert!(handle_request(&mut store, "").unwrap().is_empty());
    assert_eq!(text(handle_request(&mut store, "PUT /ipfs/abc HTTP/1.1\r\n\r\n").unwrap()), text(write_status(405)));
    assert_eq!(text(handle_request(&mut store, "GET /ipfs/notacid HTTP/1.1\r\n\r\n").unwrap()), text(write_status(400)));
    assert_eq!(text(handle_request(&mut store, "GET /nowhere HTTP/1.1\r\n\r\n").unwrap()), text(write_status(404)));
    let cid = Block::new(b"x".to_vec()).unwrap().cid().to_string();
    let patch = format!("PATCH /api/v0/block/{} HTTP/1.1\r\n\r\n", cid);
    assert!(handle_request(&mut store, &patch).unwrap().is_empty());
    assert!(store.list().unwrap().is_empty());
}
