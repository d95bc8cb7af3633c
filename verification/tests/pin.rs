use ksh::block::Block;
use ksh::pin::{PinManager, PinMode};

#[test]
fn pin_unpin_list() {
    let mut pins = PinManager::new();
    let a = Block::new(b"a".to_vec()).unwrap();
    let b = Block::new(b"b".to_vec()).unwrap();
    assert!(!pins.is_pinned(a.cid()));
    pins.pin(a.cid().clone(), PinMode::Direct).unwrap();
    pins.pin(b.cid().clone(), PinMode::Recursive).unwrap();
    assert!(pins.is_pinned(a.cid()));
    pins.pin(a.cid().clone(), PinMode::Recursive).unwrap();
    let list = pins.list();
    assert_eq!(list.len(), 2);
    assert!(list.contains(&(a.cid().clone(), PinMode::Recursive)));
    assert!(list.contains(&(b.cid().clone(), PinMode::Recursive)));
    pins.unpin(a.cid()).unwrap();
    assert!(!pins.is_pinned(a.cid()));
    assert!(pins.is_pinned(b.cid()));
    assert_eq!(pins.all_pinned_cids(), vec![b.cid().clone()]);
    pins.unpin(a.cid()).unwrap();
    assert_eq!(pins.list().len(), 1);
}

#[test]
fn pins_read_back_from_their_stored_form() {
    let a = Block::new(b"a".to_vec()).unwrap();
    let b = Block::new(b"b".to_vec()).unwrap();
    let mut pins = PinManager::new();
    assert!(pins.to_bytes().is_empty());
    pins.pin(a.cid().clone(), PinMode::Direct).unwrap();
    pins.pin(b.cid().clone(), PinMode::Recursive).unwrap();
    let bytes = pins.to_bytes();
    assert_eq!(bytes[0], 0);
    assert_eq!(bytes[1], 36);
    assert_eq!(bytes[2..38].to_vec(), a.cid().to_bytes());
    assert_eq!(bytes[38], 1);
    assert_eq!(bytes.len(), 76);
    let back = PinManager::from_bytes(&bytes).unwrap();
    assert_eq!(back.list(), pins.list());
    assert!(PinManager::from_bytes(&[]).unwrap().list().is_empty());
}

#[test]
fn stored_pins_are_refused_when_malformed() {
    let a = Block::new(b"a".to_vec()).unwrap();
    let mut pins = PinManager::new();
    pins.pin(a.cid().clone(), PinMode::Direct).unwrap();
    let bytes = pins.to_bytes();
    let mut twice = bytes.clone();
    twice.extend_from_slice(&bytes);
    assert!(matches!(PinManager::from_bytes(&twice), Err(ksh::KshError::InvalidPins)));
    assert!(matches!(PinManager::from_bytes(&bytes[..10]), Err(ksh::KshError::InvalidPins)));
    let mut bad_mode = bytes.clone();
    bad_mode[0] = 7;
    assert!(matches!(PinManager::from_bytes(&bad_mode), Err(ksh::KshError::InvalidPins)));
    assert!(matches!(PinManager::from_bytes(&[0, 2, 0xff, 0xff]), Err(ksh::KshError::InvalidPins)));
}
