//! The command line: what a list of arguments asks for.
use vstd::prelude::*;

use crate::block::parse_cid;
use crate::content_id::{Cid, cid_from_text};
use crate::error::KshError;

verus! {

/// What the command line asks for.
pub enum Command {
    /// Print the list of commands.
    Help,
    /// Print how a command is used: it lacks arguments.
    Misuse(String),
    /// Store the file at a path as a block.
    Add(String),
    /// Print the data of a block.
    Get(Cid),
    /// List the stored CIDs.
    List,
    /// List the pins.
    PinList,
    /// Pin a CID.
    Pin(Cid),
    /// Unpin a CID.
    Unpin(Cid),
    /// Announce a block on the network.
    Provide(Cid),
    /// Fetch a block from a peer at an address.
    Fetch { cid: Cid, peer: String, addr: String },
    /// Dial a peer at an address.
    Connect { peer: String, addr: String },
    /// Show the local peer ID.
    Id,
}

/// Whether `args` (the program name first) asks for `r`: the command is the
/// second argument, and a command without the arguments it needs asks for
/// its usage line.
pub open spec fn parses_to(args: Seq<Seq<char>>, r: Result<Command, KshError>) -> bool {
    if args.len() < 2 {
        r matches Ok(Command::Help)
    } else {
        let cmd = args[1];
        if cmd == "add"@ {
            if args.len() > 2 {
                r matches Ok(Command::Add(p)) && p@ == args[2]
            } else {
                r matches Ok(Command::Misuse(m)) && m@ == "usage: ksh-cli add <file>"@
            }
        } else if cmd == "get"@ {
            if args.len() < 3 {
                r matches Ok(Command::Misuse(m)) && m@ == "usage: ksh-cli get <cid>"@
            } else {
                cid_command(args[2], r, CidVerb::Get)
            }
        } else if cmd == "list"@ {
            r matches Ok(Command::List)
        } else if cmd == "pin"@ {
            if args.len() < 3 {
                r matches Ok(Command::Misuse(m)) && m@ == "usage: ksh-cli pin <cid>"@
            } else if args[2] == "ls"@ {
                r matches Ok(Command::PinList)
            } else {
                cid_command(args[2], r, CidVerb::Pin)
            }
        } else if cmd == "unpin"@ {
            if args.len() < 3 {
                r matches Ok(Command::Misuse(m)) && m@ == "usage: ksh-cli unpin <cid>"@
            } else {
                cid_command(args[2], r, CidVerb::Unpin)
            }
        } else if cmd == "provide"@ {
            if args.len() < 3 {
                r matches Ok(Command::Misuse(m)) && m@ == "usage: ksh-cli provide <cid>"@
            } else {
                cid_command(args[2], r, CidVerb::Provide)
            }
        } else if cmd == "fetch"@ {
            if args.len() < 5 {
                r matches Ok(Command::Misuse(m)) && m@ == "usage: ksh-cli fetch <cid> <peer_id> <multiaddr>"@
            } else {
                match cid_from_text(args[2]) {
                    Some(c) => r matches Ok(Command::Fetch { cid, peer, addr }) && cid@ == c && peer@
                        == args[3] && addr@ == args[4],
                    None => r matches Err(e) && e is InvalidCid,
                }
            }
        } else if cmd == "connect"@ {
            if args.len() < 4 {
                r matches Ok(Command::Misuse(m)) && m@ == "usage: ksh-cli connect <peer_id> <multiaddr>"@
            } else {
                r matches Ok(Command::Connect { peer, addr }) && peer@ == args[2] && addr@ == args[3]
            }
        } else if cmd == "id"@ {
            r matches Ok(Command::Id)
        } else {
            r matches Ok(Command::Help)
        }
    }
}

/// The commands that take one CID.
pub enum CidVerb {
    Get,
    Pin,
    Unpin,
    Provide,
}

/// Whether `r` is the command `verb` over the CID that `arg` holds, or the
/// parse error where it holds none.
pub open spec fn cid_command(arg: Seq<char>, r: Result<Command, KshError>, verb: CidVerb) -> bool {
    match cid_from_text(arg) {
        Some(c) => match r {
            Ok(Command::Get(x)) => verb is Get && x@ == c,
            Ok(Command::Pin(x)) => verb is Pin && x@ == c,
            Ok(Command::Unpin(x)) => verb is Unpin && x@ == c,
            Ok(Command::Provide(x)) => verb is Provide && x@ == c,
            _ => false,
        },
        None => r matches Err(e) && e is InvalidCid,
    }
}

/// The characters of each argument.
pub open spec fn arg_views(args: Seq<String>) -> Seq<Seq<char>> {
    args.map_values(|a: String| a@)
}

/// Whether two strings hold the same characters.
fn same_text(a: &str, b: &str) -> (r: bool)
    ensures
        r == (a@ == b@),
{
    let n = a.unicode_len();
    if n != b.unicode_len() {
        return false;
    }
    let mut i: usize = 0;
    while i < n
        invariant
            n == a@.len(),
            n == b@.len(),
            i <= n,
            forall|j: int| 0 <= j < i ==> a@[j] == b@[j],
        decreases n - i,
    {
        if a.get_char(i) != b.get_char(i) {
            return false;
        }
        i = i + 1;
    }
    assert(a@ =~= b@);
    true
}

/// What the command line `args` (the program name first) asks for.
pub fn parse_command(args: &Vec<String>) -> (r: Result<Command, KshError>)
    ensures
        parses_to(arg_views(args@), r),
{
    let ghost views = arg_views(args@);
    let n = args.len();
    if n < 2 {
        return Ok(Command::Help);
    }
    assert(views[1] == args@[1]@);
    let cmd = args[1].as_str();
    if same_text(cmd, "add") {
        if n > 2 {
            assert(views[2] == args@[2]@);
            Ok(Command::Add(args[2].clone()))
        } else {
            Ok(Command::Misuse("usage: ksh-cli add <file>".to_owned()))
        }
    } else if same_text(cmd, "get") {
        if n < 3 {
            Ok(Command::Misuse("usage: ksh-cli get <cid>".to_owned()))
        } else {
            assert(views[2] == args@[2]@);
            match parse_cid(args[2].as_str()) {
                Ok(c) => Ok(Command::Get(c)),
                Err(e) => Err(e),
            }
        }
    } else if same_text(cmd, "list") {
        Ok(Command::List)
    } else if same_text(cmd, "pin") {
        if n < 3 {
            Ok(Command::Misuse("usage: ksh-cli pin <cid>".to_owned()))
        } else {
            assert(views[2] == args@[2]@);
            if same_text(args[2].as_str(), "ls") {
                Ok(Command::PinList)
            } else {
                match parse_cid(args[2].as_str()) {
                    Ok(c) => Ok(Command::Pin(c)),
                    Err(e) => Err(e),
                }
            }
        }
    } else if same_text(cmd, "unpin") {
        if n < 3 {
            Ok(Command::Misuse("usage: ksh-cli unpin <cid>".to_owned()))
        } else {
            assert(views[2] == args@[2]@);
            match parse_cid(args[2].as_str()) {
                Ok(c) => Ok(Command::Unpin(c)),
                Err(e) => Err(e),
            }
        }
    } else if same_text(cmd, "provide") {
        if n < 3 {
            Ok(Command::Misuse("usage: ksh-cli provide <cid>".to_owned()))
        } else {
            assert(views[2] == args@[2]@);
            match parse_cid(args[2].as_str()) {
                Ok(c) => Ok(Command::Provide(c)),
                Err(e) => Err(e),
            }
        }
    } else if same_text(cmd, "fetch") {
        if n < 5 {
            Ok(Command::Misuse("usage: ksh-cli fetch <cid> <peer_id> <multiaddr>".to_owned()))
        } else {
            assert(views[2] == args@[2]@);
            assert(views[3] == args@[3]@);
            assert(views[4] == args@[4]@);
            match parse_cid(args[2].as_str()) {
                Ok(c) => Ok(Command::Fetch { cid: c, peer: args[3].clone(), addr: args[4].clone() }),
                Err(e) => Err(e),
            }
        }
    } else if same_text(cmd, "connect") {
        if n < 4 {
            Ok(Command::Misuse("usage: ksh-cli connect <peer_id> <multiaddr>".to_owned()))
        } else {
            assert(views[2] == args@[2]@);
            assert(views[3] == args@[3]@);
            Ok(Command::Connect { peer: args[2].clone(), addr: args[3].clone() })
        }
    } else if same_text(cmd, "id") {
        Ok(Command::Id)
    } else {
        Ok(Command::Help)
    }
}

} // verus!
