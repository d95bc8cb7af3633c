//! The command-line and HTTP front ends: what they compute.
use vstd::prelude::*;

use crate::content_id::{Cid, cid_from_text};
use crate::error::KshError;
use crate::text::{chars_of, trim, trim_bounds};

pub mod cli;
pub mod http;

verus! {

/// Parses the text form of a CID, ignoring leading and trailing white space.
pub fn parse_cid(s: &str) -> (r: Result<Cid, KshError>)
    ensures
        r matches Ok(c) ==> cid_from_text(trim(s@)) == Some(c@),
        r matches Err(e) ==> e is InvalidCid && cid_from_text(trim(s@)) is None,
{
    let chars = chars_of(s);
    let (a, b) = trim_bounds(&chars, 0, chars.len());
    assert(chars@.subrange(0, chars@.len() as int) =~= s@);
    let trimmed = s.substring_char(a, b);
    Cid::from_text(trimmed)
}

} // verus!
