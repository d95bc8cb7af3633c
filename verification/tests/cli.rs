use ksh::api::cli::{parse_command, Command};
use ksh::block::Block;
use ksh::KshError;

fn args(a: &[&str]) -> Vec<String> {
    a.iter().map(|s| s.to_string()).collect()
}

#[test]
fn commands_are_recognised() {
    let cid = Block::new(b"x".to_vec()).unwrap().cid().clone();
    let text = cid.to_string();
    assert!(matches!(parse_command(&args(&["ksh-cli"])), Ok(Command::Help)));
    assert!(matches!(parse_command(&args(&["ksh-cli", "nope"])), Ok(Command::Help)));
    assert!(matches!(parse_command(&args(&["ksh-cli", "list"])), Ok(Command::List)));
    assert!(matches!(parse_command(&args(&["ksh-cli", "id"])), Ok(Command::Id)));
    match parse_command(&args(&["ksh-cli", "add", "f.txt"])) {
        Ok(Command::Add(p)) => assert_eq!(p, "f.txt"),
        _ => panic!(),
    }
    match parse_command(&args(&["ksh-cli", "get", &text])) {
        Ok(Command::Get(c)) => assert_eq!(c, cid),
        _ => panic!(),
    }
    assert!(matches!(parse_command(&args(&["ksh-cli", "pin", "ls"])), Ok(Command::PinList)));
    assert!(matches!(parse_command(&args(&["ksh-cli", "pin", &text])), Ok(Command::Pin(_))));
    assert!(matches!(parse_command(&args(&["ksh-cli", "unpin", &text])), Ok(Command::Unpin(_))));
    assert!(matches!(parse_command(&args(&["ksh-cli", "provide", &text])), Ok(Command::Provide(_))));
    match parse_command(&args(&["ksh-cli", "fetch", &text, "peer", "/ip4/1.2.3.4/tcp/1"])) {
        Ok(Command::Fetch { cid: c, peer, addr }) => {
            assert_eq!(c, cid);
            assert_eq!(peer, "peer");
            assert_eq!(addr, "/ip4/1.2.3.4/tcp/1");
        }
        _ => panic!(),
    }
    match parse_command(&args(&["ksh-cli", "connect", "peer", "addr"])) {
        Ok(Command::Connect { peer, addr }) => {
            assert_eq!(peer, "peer");
            assert_eq!(addr, "addr");
        }
        _ => panic!(),
    }
}

#[test]
fn missing_arguments_ask_for_usage() {
    match parse_command(&args(&["ksh-cli", "add"])) {
        Ok(Command::Misuse(m)) => assert_eq!(m, "usage: ksh-cli add <file>"),
        _ => panic!(),
    }
    match parse_command(&args(&["ksh-cli", "fetch", "a", "b"])) {
        Ok(Command::Misuse(m)) => assert_eq!(m, "usage: ksh-cli fetch <cid> <peer_id> <multiaddr>"),
        _ => panic!(),
    }
    match parse_command(&args(&["ksh-cli", "connect", "a"])) {
        Ok(Command::Misuse(m)) => assert_eq!(m, "usage: ksh-cli connect <peer_id> <multiaddr>"),
        _ => panic!(),
    }
}

#[test]
fn bad_cid_is_an_error() {
    assert!(matches!(parse_command(&args(&["ksh-cli", "get", "zzz"])), Err(KshError::InvalidCid)));
    assert!(matches!(parse_command(&args(&["ksh-cli", "fetch", "zzz", "p", "a"])), Err(KshError::InvalidCid)));
}
