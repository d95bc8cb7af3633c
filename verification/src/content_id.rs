//! Content identifiers: multihashes and CIDs, held as plain values.
//!
//! Hashing, the binary encoding of a CID, its decoding and its text form are
//! computed by the `multihash-codetable` and `cid` crates; the library keeps
//! its own copy of the values those crates read and return.
use vstd::prelude::*;

use multihash_codetable::MultihashDigest;

use crate::error::KshError;

verus! {

/// Multicodec code of SHA2-256.
pub const SHA2_256: u64 = 0x12;

/// Multicodec code of DAG-PB, the codec of every CIDv0.
pub const DAG_PB: u64 = 0x70;

/// Multicodec code of raw binary content.
pub const RAW: u64 = 0x55;

/// The version of a CID.
#[derive(Clone, Copy, Debug, PartialEq, Eq, Hash, Structural)]
pub enum Version {
    V0,
    V1,
}

/// What a multihash is: the code of its hash function and the digest.
pub struct MultihashView {
    pub code: u64,
    pub digest: Seq<u8>,
}

/// What a CID is: version, codec and multihash.
pub struct CidView {
    pub version: Version,
    pub codec: u64,
    pub hash: MultihashView,
}

impl CidView {
    /// The CIDs that can exist: a digest of at most 64 bytes (the size of
    /// the multihashes this crate works with), and a CIDv0 is always DAG-PB
    /// over a 32-byte SHA2-256 digest.
    pub open spec fn wf(self) -> bool {
        &&& self.hash.digest.len() <= 64
        &&& self.version == Version::V0 ==> {
            &&& self.codec == DAG_PB
            &&& self.hash.code == SHA2_256
            &&& self.hash.digest.len() == 32
        }
    }
}

/// The SHA2-256 digest of `data`, as computed by `multihash-codetable`.
pub uninterp spec fn sha2_256(data: Seq<u8>) -> Seq<u8>;

/// The unsigned varint (LEB128) encoding of `n`: seven bits a byte, least
/// significant first, the high bit set on every byte but the last.
pub open spec fn varint(n: nat) -> Seq<u8>
    decreases n,
{
    if n < 128 {
        seq![n as u8]
    } else {
        seq![(n % 128 + 128) as u8] + varint(n / 128)
    }
}

/// The binary encoding of a multihash: the code and the digest's size as
/// varints, then the digest.
pub open spec fn multihash_encoding(hash: MultihashView) -> Seq<u8> {
    varint(hash.code as nat) + varint(hash.digest.len()) + hash.digest
}

/// The binary encoding of a CID, as written by `cid::Cid::to_bytes`: a CIDv0
/// is its bare multihash; a CIDv1 is the version and the codec as varints,
/// then the multihash.
pub open spec fn cid_encoding(cid: CidView) -> Seq<u8> {
    match cid.version {
        Version::V0 => multihash_encoding(cid.hash),
        Version::V1 => varint(1) + varint(cid.codec as nat) + multihash_encoding(cid.hash),
    }
}

/// The CID that `cid::Cid::read_bytes` reads from the front of `bytes`, if any.
pub uninterp spec fn cid_decoding(bytes: Seq<u8>) -> Option<CidView>;

/// `cid::Cid::read_bytes` reads `cid` back from its encoding, which is at
/// most 86 bytes long. The encoding wrapper states this of every CID it encodes.
pub open spec fn encodes_back(cid: CidView) -> bool {
    cid_decoding(cid_encoding(cid)) == Some(cid) && cid_encoding(cid).len() <= 86
}

/// The text form of a CID, as written by `cid::Cid`'s `Display`.
pub uninterp spec fn cid_text(cid: CidView) -> Seq<char>;

/// The CID that `cid::Cid`'s `FromStr` parses from `text`, if any.
pub uninterp spec fn cid_from_text(text: Seq<char>) -> Option<CidView>;

/// A multihash: the code of a hash function and a digest of at most 64 bytes.
#[derive(Debug, PartialEq, Eq, Hash)]
pub struct Multihash {
    code: u64,
    digest: Vec<u8>,
}

impl View for Multihash {
    type V = MultihashView;

    closed spec fn view(&self) -> MultihashView {
        MultihashView { code: self.code, digest: self.digest@ }
    }
}

impl Multihash {
    #[verifier::type_invariant]
    pub open spec fn well_formed(self) -> bool {
        self@.digest.len() <= 64
    }

    /// The code of the hash function.
    pub fn code(&self) -> (c: u64)
        ensures
            c == self@.code,
    {
        self.code
    }

    /// The size of the digest in bytes.
    pub fn size(&self) -> (s: u8)
        ensures
            s as int == self@.digest.len(),
    {
        proof {
            use_type_invariant(self);
        }
        self.digest.len() as u8
    }

    /// The digest.
    pub fn digest(&self) -> (d: &[u8])
        ensures
            d@ == self@.digest,
    {
        self.digest.as_slice()
    }

    /// Wraps a digest of at most 64 bytes, as `multihash::Multihash::wrap` does.
    pub fn wrap(code: u64, digest: &[u8]) -> (r: Option<Multihash>)
        ensures
            r matches Some(m) ==> m@ == (MultihashView { code, digest: digest@ }),
            r is None <==> digest@.len() > 64,
    {
        if digest.len() > 64 {
            None
        } else {
            Some(Multihash { code, digest: vstd::slice::slice_to_vec(digest) })
        }
    }

    /// Whether two multihashes are equal: same code and same digest.
    pub fn equals(&self, other: &Multihash) -> (b: bool)
        ensures
            b == (self@ == other@),
    {
        if self.code != other.code || self.digest.len() != other.digest.len() {
            proof {
                if self@ == other@ {
                    assert(self.digest@.len() == other.digest@.len());
                }
            }
            return false;
        }
        let n = self.digest.len();
        let mut i: usize = 0;
        while i < n
            invariant
                n == self.digest@.len(),
                n == other.digest@.len(),
                i <= n,
                forall|j: int| 0 <= j < i ==> self.digest@[j] == other.digest@[j],
            decreases n - i,
        {
            if self.digest[i] != other.digest[i] {
                return false;
            }
            i = i + 1;
        }
        assert(self.digest@ =~= other.digest@);
        true
    }

    /// A copy of this multihash.
    pub fn duplicate(&self) -> (m: Multihash)
        ensures
            m@ == self@,
    {
        proof {
            use_type_invariant(self);
        }
        Multihash { code: self.code, digest: vstd::slice::slice_to_vec(self.digest.as_slice()) }
    }
}

/// Trusted: `multihash_codetable::Code::Sha2_256.digest` hashes `data` with
/// SHA2-256 and returns the multihash with code 0x12 and the 32-byte digest
/// (a well-formed multihash).
#[verifier::external_body]
fn sha2_256_multihash(data: &[u8]) -> (mh: Multihash)
    ensures
        mh@.code == SHA2_256,
        mh@.digest == sha2_256(data@),
        mh@.digest.len() == 32,
{
    let h = multihash_codetable::Code::Sha2_256.digest(data);
    Multihash { code: h.code(), digest: h.digest().to_vec() }
}

/// Hashes `data` with SHA2-256.
pub fn hash_sha2_256(data: &[u8]) -> (mh: Multihash)
    ensures
        mh@ == (MultihashView { code: SHA2_256, digest: sha2_256(data@) }),
        mh@.digest.len() == 32,
{
    sha2_256_multihash(data)
}

/// A CID: version, codec and multihash.
#[derive(Debug, PartialEq, Eq, Hash)]
pub struct Cid {
    version: Version,
    codec: u64,
    hash: Multihash,
}

impl View for Cid {
    type V = CidView;

    closed spec fn view(&self) -> CidView {
        CidView { version: self.version, codec: self.codec, hash: self.hash@ }
    }
}

/// Trusted: `cid::Cid::to_bytes` writes the version and codec (for a CIDv1)
/// and the multihash as unsigned varints followed by the digest. Claimed of it:
/// the result is the named encoding; it is at most 86 bytes long (two varints
/// of a `u64` take at most 10 bytes each, the size varint one byte, the digest
/// at most 64); and `cid::Cid::read_bytes` reads the same CID back from it.
#[verifier::external_body]
fn cid_to_bytes(cid: &Cid) -> (bytes: Vec<u8>)
    requires
        cid@.wf(),
    ensures
        bytes@ == cid_encoding(cid@),
        bytes@.len() <= 86,
        cid_decoding(bytes@) == Some(cid@),
{
    let mh = multihash::Multihash::<64>::wrap(cid.hash.code, &cid.hash.digest).unwrap();
    let version = match cid.version {
        Version::V0 => cid::Version::V0,
        Version::V1 => cid::Version::V1,
    };
    cid::Cid::new(version, cid.codec, mh).unwrap().to_bytes()
}

/// Trusted: `cid::Cid::read_bytes` reads a CID from the front of `bytes`.
/// Claimed of it: it succeeds exactly when the named decoding holds a CID, and
/// then returns that CID. The CID it returns is well formed (the type
/// invariant of `Cid`): its multihash holds at most 64 bytes, and a CIDv0 is
/// only ever made by `cid::Cid::new_v0` over a 32-byte SHA2-256 digest.
#[verifier::external_body]
fn cid_read_bytes(bytes: &[u8]) -> (r: Result<Cid, cid::Error>)
    ensures
        r matches Ok(c) ==> cid_decoding(bytes@) == Some(c@),
        r is Err ==> cid_decoding(bytes@) is None,
{
    let c = cid::Cid::read_bytes(bytes)?;
    let version = match c.version() {
        cid::Version::V0 => Version::V0,
        cid::Version::V1 => Version::V1,
    };
    let hash = Multihash { code: c.hash().code(), digest: c.hash().digest().to_vec() };
    Ok(Cid { version, codec: c.codec(), hash })
}

/// Trusted: `cid::Cid`'s `Display` writes a CIDv0 in base58btc and a CIDv1 in
/// multibase base32. Claimed of it: the result is the named text form, and
/// `cid::Cid`'s `FromStr` parses the same CID back from it.
#[verifier::external_body]
fn cid_to_text(cid: &Cid) -> (s: String)
    requires
        cid@.wf(),
    ensures
        s@ == cid_text(cid@),
        cid_from_text(s@) == Some(cid@),
{
    let mh = multihash::Multihash::<64>::wrap(cid.hash.code, &cid.hash.digest).unwrap();
    let version = match cid.version {
        Version::V0 => cid::Version::V0,
        Version::V1 => cid::Version::V1,
    };
    cid::Cid::new(version, cid.codec, mh).unwrap().to_string()
}

/// Trusted: `cid::Cid`'s `FromStr` parses the text form of a CID. Claimed of
/// it: it succeeds exactly when the named parse holds a CID, and then returns
/// that CID, which is well formed as `cid_read_bytes` describes.
#[verifier::external_body]
fn cid_parse_text(text: &str) -> (r: Result<Cid, cid::Error>)
    ensures
        r matches Ok(c) ==> cid_from_text(text@) == Some(c@),
        r is Err ==> cid_from_text(text@) is None,
{
    let c = text.parse::<cid::Cid>()?;
    let version = match c.version() {
        cid::Version::V0 => Version::V0,
        cid::Version::V1 => Version::V1,
    };
    let hash = Multihash { code: c.hash().code(), digest: c.hash().digest().to_vec() };
    Ok(Cid { version, codec: c.codec(), hash })
}

impl Cid {
    #[verifier::type_invariant]
    pub open spec fn well_formed(self) -> bool {
        self@.wf()
    }

    /// A CIDv1 with the given codec and multihash.
    pub fn new_v1(codec: u64, hash: Multihash) -> (c: Cid)
        ensures
            c@ == (CidView { version: Version::V1, codec, hash: hash@ }),
    {
        proof {
            use_type_invariant(&hash);
        }
        Cid { version: Version::V1, codec, hash }
    }

    /// A CIDv0 over a SHA2-256 multihash with a 32-byte digest; any other
    /// multihash is refused.
    pub fn new_v0(hash: Multihash) -> (r: Result<Cid, KshError>)
        ensures
            r matches Ok(c) ==> c@ == (CidView { version: Version::V0, codec: DAG_PB, hash: hash@ }),
            r is Ok <==> (hash@.code == SHA2_256 && hash@.digest.len() == 32),
            r matches Err(e) ==> e is InvalidCidV0Multihash,
    {
        proof {
            use_type_invariant(&hash);
        }
        if hash.code != SHA2_256 || hash.digest.len() != 32 {
            return Err(KshError::InvalidCidV0Multihash);
        }
        Ok(Cid { version: Version::V0, codec: DAG_PB, hash })
    }

    /// The version.
    pub fn version(&self) -> (v: Version)
        ensures
            v == self@.version,
    {
        self.version
    }

    /// The codec.
    pub fn codec(&self) -> (c: u64)
        ensures
            c == self@.codec,
    {
        self.codec
    }

    /// The multihash.
    pub fn hash(&self) -> (h: &Multihash)
        ensures
            h@ == self@.hash,
    {
        &self.hash
    }

    /// The binary encoding of this CID; reading it gives this CID back.
    pub fn to_bytes(&self) -> (bytes: Vec<u8>)
        ensures
            bytes@ == cid_encoding(self@),
            bytes@.len() <= 86,
            cid_decoding(bytes@) == Some(self@),
    {
        proof {
            use_type_invariant(self);
        }
        cid_to_bytes(self)
    }

    /// Reads a CID from the front of `bytes`.
    pub fn read_bytes(bytes: &[u8]) -> (r: Result<Cid, KshError>)
        ensures
            r matches Ok(c) ==> cid_decoding(bytes@) == Some(c@),
            r matches Err(e) ==> e is InvalidCid && cid_decoding(bytes@) is None,
    {
        match cid_read_bytes(bytes) {
            Ok(c) => Ok(c),
            Err(_) => Err(KshError::InvalidCid),
        }
    }

    /// The text form of this CID; parsing it gives this CID back.
    pub fn to_string(&self) -> (s: String)
        ensures
            s@ == cid_text(self@),
            cid_from_text(s@) == Some(self@),
    {
        proof {
            use_type_invariant(self);
        }
        cid_to_text(self)
    }

    /// Parses the text form of a CID.
    pub fn from_text(text: &str) -> (r: Result<Cid, KshError>)
        ensures
            r matches Ok(c) ==> cid_from_text(text@) == Some(c@),
            r matches Err(e) ==> e is InvalidCid && cid_from_text(text@) is None,
    {
        match cid_parse_text(text) {
            Ok(c) => Ok(c),
            Err(_) => Err(KshError::InvalidCid),
        }
    }

    /// Whether two CIDs are equal.
    pub fn equals(&self, other: &Cid) -> (b: bool)
        ensures
            b == (self@ == other@),
    {
        let same_version = match (self.version, other.version) {
            (Version::V0, Version::V0) => true,
            (Version::V1, Version::V1) => true,
            _ => false,
        };
        same_version && self.codec == other.codec && self.hash.equals(&other.hash)
    }

    /// A copy of this CID.
    pub fn duplicate(&self) -> (c: Cid)
        ensures
            c@ == self@,
    {
        proof {
            use_type_invariant(self);
        }
        Cid { version: self.version, codec: self.codec, hash: self.hash.duplicate() }
    }
}

impl Clone for Cid {
    fn clone(&self) -> (c: Self)
        ensures
            c@ == self@,
    {
        self.duplicate()
    }
}

impl Clone for Multihash {
    fn clone(&self) -> (m: Self)
        ensures
            m@ == self@,
    {
        self.duplicate()
    }
}

} // verus!
