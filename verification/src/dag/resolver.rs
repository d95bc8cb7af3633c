//! Reading data back out of a DAG of blocks.
//!
//! A block is read as a parent when its data starts with a child count `n`
//! (4 bytes, little-endian) with `n > 0` and at least `4 + 4 * n` bytes in
//! all; its children are then the CIDs of its entries, read in order until the
//! data runs out. Any other block is a leaf. The data of a DAG is the data of
//! its leaves, left to right, depth first.
use vstd::prelude::*;

use crate::content_id::{Cid, CidView, cid_decoding};
use crate::dag::append_bytes;
use crate::error::KshError;
use crate::store::{BlockStore, cid_views};

verus! {

/// The `u32` whose little-endian bytes are `data[at..at + 4]`.
pub open spec fn read_le32(data: Seq<u8>, at: int) -> u32 {
    (data[at] as u32) | ((data[at + 1] as u32) << 8u32) | ((data[at + 2] as u32) << 16u32) | ((
    data[at + 3] as u32) << 24u32)
}

/// The children listed in `data` from `offset` on, at most `remaining` of
/// them; reading stops where the data runs out. `None` where an entry does not
/// hold a CID.
pub open spec fn child_list(data: Seq<u8>, offset: int, remaining: nat) -> Option<Seq<CidView>>
    decreases remaining,
{
    if remaining == 0 || offset + 4 > data.len() {
        Some(Seq::empty())
    } else {
        let start = offset + 4;
        let end = start + read_le32(data, offset) as int;
        if end > data.len() {
            Some(Seq::empty())
        } else {
            match cid_decoding(data.subrange(start, end)) {
                None => None,
                Some(c) => match child_list(data, end, (remaining - 1) as nat) {
                    Some(rest) => Some(seq![c] + rest),
                    None => None,
                },
            }
        }
    }
}

/// How a block's data is read.
pub enum NodeKind {
    Leaf,
    Parent(Seq<CidView>),
    Undecodable,
}

/// How the data of a block is read: a leaf, a parent with its children, or a
/// parent with an entry that holds no CID.
pub open spec fn node_kind(data: Seq<u8>) -> NodeKind {
    if data.len() >= 4 {
        let n = read_le32(data, 0) as nat;
        if n > 0 && data.len() >= 4 + n * 4 {
            match child_list(data, 4, n) {
                Some(cs) => NodeKind::Parent(cs),
                None => NodeKind::Undecodable,
            }
        } else {
            NodeKind::Leaf
        }
    } else {
        NodeKind::Leaf
    }
}

/// What reading a DAG gives: its data, the first missing block, an entry that
/// holds no CID, or not finished within the depth allowed.
pub enum Resolution {
    Data(Seq<u8>),
    Missing(CidView),
    Undecodable,
    Unfinished,
}

/// `d` in front of the data of `r`; errors stay as they are.
pub open spec fn prepend(d: Seq<u8>, r: Resolution) -> Resolution {
    match r {
        Resolution::Data(e) => Resolution::Data(d + e),
        other => other,
    }
}

/// Reading the DAG under `cid` in `contents`, at most `fuel` levels deep.
pub open spec fn resolve(contents: Map<CidView, Seq<u8>>, cid: CidView, fuel: nat) -> Resolution
    decreases fuel, 0nat,
{
    if fuel == 0 {
        Resolution::Unfinished
    } else if !contents.contains_key(cid) {
        Resolution::Missing(cid)
    } else {
        match node_kind(contents[cid]) {
            NodeKind::Leaf => Resolution::Data(contents[cid]),
            NodeKind::Undecodable => Resolution::Undecodable,
            NodeKind::Parent(cs) => resolve_all(contents, cs, (fuel - 1) as nat),
        }
    }
}

/// Reading the DAGs under `cids` one after the other, stopping at the first error.
pub open spec fn resolve_all(contents: Map<CidView, Seq<u8>>, cids: Seq<CidView>, fuel: nat) -> Resolution
    decreases fuel, cids.len() + 1,
{
    if cids.len() == 0 {
        Resolution::Data(Seq::empty())
    } else {
        match resolve(contents, cids[0], fuel) {
            Resolution::Data(d) => prepend(d, resolve_all(contents, cids.drop_first(), fuel)),
            other => other,
        }
    }
}

/// Reading the DAG under `root` comes to an end: its data or an error.
pub open spec fn finishes(contents: Map<CidView, Seq<u8>>, root: CidView) -> bool {
    exists|f: nat| !(#[trigger] resolve(contents, root, f) is Unfinished)
}

/// What reading the DAG under `root` gives, where it comes to an end.
pub open spec fn cat_outcome(contents: Map<CidView, Seq<u8>>, root: CidView) -> Resolution {
    resolve(contents, root, choose|f: nat| !(#[trigger] resolve(contents, root, f) is Unfinished))
}

/// Whether `e` is the error that reading a DAG reports for a resolution: the
/// missing block, or an entry that holds no CID.
pub open spec fn fails_as(e: KshError, res: Resolution) -> bool {
    match res {
        Resolution::Missing(c) => e matches KshError::BlockNotFound(x) && x@ == c,
        Resolution::Undecodable => e is InvalidCid,
        _ => false,
    }
}

/// What an operation that reads a DAG returns for a resolution: the data, or
/// the matching error.
pub open spec fn answers(r: Result<Vec<u8>, KshError>, res: Resolution) -> bool {
    match res {
        Resolution::Data(d) => r matches Ok(v) && v@ == d,
        Resolution::Missing(c) => r matches Err(KshError::BlockNotFound(x)) && x@ == c,
        Resolution::Undecodable => r matches Err(KshError::InvalidCid),
        Resolution::Unfinished => false,
    }
}

/// A deeper reading gives what a shallower one gave, once that one finished.
pub proof fn lemma_resolve_stable(contents: Map<CidView, Seq<u8>>, cid: CidView, f1: nat, f2: nat)
    requires
        f1 <= f2,
        !(resolve(contents, cid, f1) is Unfinished),
    ensures
        resolve(contents, cid, f2) == resolve(contents, cid, f1),
    decreases f1, 0nat,
{
    if contents.contains_key(cid) {
        if let NodeKind::Parent(cs) = node_kind(contents[cid]) {
            lemma_resolve_all_stable(contents, cs, (f1 - 1) as nat, (f2 - 1) as nat);
        }
    }
}

/// A deeper reading of a list gives what a shallower one gave, once that one finished.
pub proof fn lemma_resolve_all_stable(contents: Map<CidView, Seq<u8>>, cids: Seq<CidView>, f1: nat, f2: nat)
    requires
        f1 <= f2,
        !(resolve_all(contents, cids, f1) is Unfinished),
    ensures
        resolve_all(contents, cids, f2) == resolve_all(contents, cids, f1),
    decreases f1, cids.len() + 1,
{
    if cids.len() > 0 {
        let first = resolve(contents, cids[0], f1);
        assert(!(first is Unfinished));
        lemma_resolve_stable(contents, cids[0], f1, f2);
        if first is Data {
            lemma_resolve_all_stable(contents, cids.drop_first(), f1, f2);
        }
    }
}

/// Any two readings that finish agree, so the outcome is the reading at any
/// depth at which it finishes.
pub proof fn lemma_cat_outcome(contents: Map<CidView, Seq<u8>>, root: CidView, f: nat)
    requires
        !(resolve(contents, root, f) is Unfinished),
    ensures
        finishes(contents, root),
        cat_outcome(contents, root) == resolve(contents, root, f),
{
    assert(finishes(contents, root));
    let g = choose|g: nat| !(#[trigger] resolve(contents, root, g) is Unfinished);
    if g <= f {
        lemma_resolve_stable(contents, root, g, f);
    } else {
        lemma_resolve_stable(contents, root, f, g);
    }
}

/// Reads the `u32` whose little-endian bytes are `data[at..at + 4]`.
fn read_u32_le(data: &[u8], at: usize) -> (x: u32)
    requires
        at + 4 <= data@.len(),
    ensures
        x == read_le32(data@, at as int),
{
    (data[at] as u32) | ((data[at + 1] as u32) << 8u32) | ((data[at + 2] as u32) << 16u32) | ((
    data[at + 3] as u32) << 24u32)
}

/// `pre` in front of a list of children; `None` stays `None`.
pub open spec fn prepend_cids(pre: Seq<CidView>, rest: Option<Seq<CidView>>) -> Option<Seq<CidView>> {
    match rest {
        Some(r) => Some(pre + r),
        None => None,
    }
}

/// Reads how the data of a block is to be read: `None` for a leaf, the
/// children of a parent, or an error where an entry holds no CID.
pub fn parse_node(data: &[u8]) -> (r: Result<Option<Vec<Cid>>, KshError>)
    ensures
        match node_kind(data@) {
            NodeKind::Leaf => r matches Ok(None),
            NodeKind::Parent(cs) => r matches Ok(Some(v)) && cid_views(v@) == cs,
            NodeKind::Undecodable => r matches Err(KshError::InvalidCid),
        },
{
    let len = data.len();
    if len < 4 {
        return Ok(None);
    }
    let n = read_u32_le(data, 0);
    if !(n > 0 && len as u64 >= 4 + (n as u64) * 4) {
        return Ok(None);
    }
    let ghost total = child_list(data@, 4, n as nat);
    assert(n as nat > 0 && data@.len() >= 4 + (n as nat) * 4);
    let mut cids: Vec<Cid> = Vec::new();
    let mut offset: usize = 4;
    let mut k: u32 = 0;
    let mut stop = false;
    while k < n && !stop
        invariant
            len == data@.len(),
            node_kind(data@) == (match total {
                Some(cs) => NodeKind::Parent(cs),
                None => NodeKind::Undecodable,
            }),
            total == child_list(data@, 4, n as nat),
            k <= n,
            offset <= len,
            stop ==> total == Some(cid_views(cids@)),
            !stop ==> total == prepend_cids(cid_views(cids@), child_list(data@, offset as int, (n - k) as nat)),
        decreases n - k,
    {
        let ghost rest = child_list(data@, offset as int, (n - k) as nat);
        if len - offset < 4 {
            stop = true;
            assert(cid_views(cids@) + Seq::<CidView>::empty() =~= cid_views(cids@));
        } else {
            let cid_len = read_u32_le(data, offset) as usize;
            let start = offset + 4;
            if cid_len > len - start {
                stop = true;
                assert(cid_views(cids@) + Seq::<CidView>::empty() =~= cid_views(cids@));
            } else {
                let end = start + cid_len;
                let entry = vstd::slice::slice_subrange(data, start, end);
                let cid = match Cid::read_bytes(entry) {
                    Ok(c) => c,
                    Err(e) => {
                        proof {
                            assert(entry@ == data@.subrange(start as int, end as int));
                            assert(rest is None);
                            assert(total is None);
                        }
                        return Err(e);
                    },
                };
                let ghost before = cid_views(cids@);
                cids.push(cid);
                proof {
                    assert(cid_views(cids@) =~= before.push(cid@));
                    let after = child_list(data@, end as int, (n - k - 1) as nat);
                    if let Some(a) = after {
                        assert(before + (seq![cid@] + a) =~= before.push(cid@) + a);
                    }
                }
                offset = end;
            }
        }
        k = k + 1;
        proof {
            if stop {
                assert(total == Some(cid_views(cids@)));
            }
        }
    }
    proof {
        if !stop {
            assert(cid_views(cids@) + Seq::<CidView>::empty() =~= cid_views(cids@));
        }
    }
    Ok(Some(cids))
}

/// The outcome of reading a DAG to a bounded depth, without its data.
pub enum Probe {
    /// The reading gives data.
    Finished,
    /// The reading stops at an error.
    Failed,
    /// The DAG goes deeper than allowed.
    TooDeep,
}

/// Whether a probe outcome is that of a resolution.
pub open spec fn probe_of(p: Probe, res: Resolution) -> bool {
    match p {
        Probe::Finished => res is Data,
        Probe::Failed => res is Missing || res is Undecodable,
        Probe::TooDeep => res is Unfinished,
    }
}

/// Reads the data of DAGs out of a block store.
pub struct DagResolver<'a, S> {
    pub store: &'a S,
}

impl<'a, S: BlockStore> DagResolver<'a, S> {
    /// A resolver over a store.
    pub fn new(store: &'a S) -> (r: DagResolver<'a, S>)
        ensures
            r.store == store,
    {
        DagResolver { store }
    }

    /// Appends the data of the DAG under `cid` to `out`.
    fn cat_node(&self, cid: &Cid, out: &mut Vec<u8>, Ghost(fuel): Ghost<nat>) -> (r: Result<(), KshError>)
        requires
            !(resolve(self.store.contents(), cid@, fuel) is Unfinished),
        ensures
            r is Ok ==> (resolve(self.store.contents(), cid@, fuel) matches Resolution::Data(d) && final(out)@
                == old(out)@ + d),
            self.store.infallible() ==> match resolve(self.store.contents(), cid@, fuel) {
                Resolution::Data(_) => r is Ok,
                Resolution::Missing(c) => r matches Err(KshError::BlockNotFound(x)) && x@ == c,
                Resolution::Undecodable => r matches Err(KshError::InvalidCid),
                Resolution::Unfinished => true,
            },
            r matches Err(e) ==> e is Store || fails_as(e, resolve(self.store.contents(), cid@, fuel)),
        decreases fuel,
    {
        let ghost contents = self.store.contents();
        let got = self.store.get(cid)?;
        let block = match got {
            None => {
                return Err(KshError::BlockNotFound(cid.duplicate()));
            },
            Some(b) => b,
        };
        let children = match parse_node(block.data().as_slice()) {
            Ok(c) => c,
            Err(e) => {
                return Err(e);
            },
        };
        match children {
            None => {
                append_bytes(out, block.data().as_slice());
                Ok(())
            },
            Some(children) => {
                let ghost cs = cid_views(children@);
                let ghost f = (fuel - 1) as nat;
                let ghost base = old(out)@;
                let n = children.len();
                let mut i: usize = 0;
                proof {
                    assert(cs.skip(0) =~= cs);
                    assert(out@.subrange(base.len() as int, out@.len() as int) =~= Seq::<u8>::empty());
                    assert(Seq::<u8>::empty() + Seq::<u8>::empty() =~= Seq::<u8>::empty());
                    match resolve_all(contents, cs, f) {
                        Resolution::Data(e) => {
                            assert(Seq::<u8>::empty() + e =~= e);
                        },
                        _ => {},
                    }
                }
                while i < n
                    invariant
                        contents == self.store.contents(),
                        n == children@.len(),
                        cs == cid_views(children@),
                        fuel > 0,
                        f == fuel - 1,
                        i <= n,
                        !(resolve_all(contents, cs, f) is Unfinished),
                        resolve(contents, cid@, fuel) == resolve_all(contents, cs, f),
                        out@.len() >= base.len(),
                        out@.subrange(0, base.len() as int) == base,
                        resolve_all(contents, cs, f) == prepend(
                            out@.subrange(base.len() as int, out@.len() as int),
                            resolve_all(contents, cs.skip(i as int), f),
                        ),
                    decreases n - i,
                {
                    let ghost done = out@.subrange(base.len() as int, out@.len() as int);
                    let ghost tail = cs.skip(i as int);
                    proof {
                        assert(tail[0] == cs[i as int]);
                        assert(tail.drop_first() =~= cs.skip(i + 1));
                    }
                    let ghost here = resolve(contents, cs[i as int], f);
                    let ghost later = resolve_all(contents, cs.skip(i + 1), f);
                    let ghost out_before = out@;
                    let step = self.cat_node(&children[i], out, Ghost(f));
                    match step {
                        Ok(()) => {},
                        Err(e) => {
                            proof {
                                if !(e is Store) {
                                    assert(resolve_all(contents, tail, f) == here);
                                    assert(resolve_all(contents, cs, f) == here);
                                }
                            }
                            return Err(e);
                        },
                    }
                    proof {
                        let d = here->Data_0;
                        assert(out@ == out_before + d);
                        assert(out@.subrange(0, base.len() as int) =~= base);
                        assert(out@.subrange(base.len() as int, out@.len() as int) =~= done + d);
                        match later {
                            Resolution::Data(e) => {
                                assert(done + (d + e) =~= (done + d) + e);
                            },
                            _ => {},
                        }
                    }
                    i = i + 1;
                }
                proof {
                    assert(cs.skip(n as int) =~= Seq::<CidView>::empty());
                    let done = out@.subrange(base.len() as int, out@.len() as int);
                    assert(done + Seq::<u8>::empty() =~= done);
                    assert(out@ =~= base + done);
                }
                Ok(())
            },
        }
    }

    /// The data of the DAG under `root`: the data of its leaves, left to
    /// right, depth first. The DAG must come to an end.
    pub fn cat(&self, root: &Cid) -> (r: Result<Vec<u8>, KshError>)
        requires
            finishes(self.store.contents(), root@),
        ensures
            r matches Ok(d) ==> cat_outcome(self.store.contents(), root@) == Resolution::Data(d@),
            r matches Err(e) ==> e is Store || fails_as(e, cat_outcome(self.store.contents(), root@)),
            self.store.infallible() ==> answers(r, cat_outcome(self.store.contents(), root@)),
    {
        let ghost fuel = choose|f: nat| !(#[trigger] resolve(self.store.contents(), root@, f) is Unfinished);
        let mut out: Vec<u8> = Vec::new();
        let res = self.cat_node(root, &mut out, Ghost(fuel));
        match res {
            Ok(()) => {
                assert(out@ =~= Seq::<u8>::empty() + out@);
                proof {
                    if let Resolution::Data(d) = resolve(self.store.contents(), root@, fuel) {
                        assert(Seq::<u8>::empty() + d =~= d);
                    }
                }
                Ok(out)
            },
            Err(e) => Err(e),
        }
    }

    /// Reads the DAG under `cid` down to `depth` levels, without keeping data.
    pub fn probe(&self, cid: &Cid, depth: usize) -> (r: Result<Probe, KshError>)
        ensures
            r matches Ok(p) ==> probe_of(p, resolve(self.store.contents(), cid@, depth as nat)),
            r matches Err(e) ==> e is Store,
            self.store.infallible() ==> r is Ok,
        decreases depth,
    {
        if depth == 0 {
            return Ok(Probe::TooDeep);
        }
        let got = self.store.get(cid)?;
        let block = match got {
            None => {
                return Ok(Probe::Failed);
            },
            Some(b) => b,
        };
        let children = match parse_node(block.data().as_slice()) {
            Ok(c) => c,
            Err(_) => {
                return Ok(Probe::Failed);
            },
        };
        match children {
            None => Ok(Probe::Finished),
            Some(children) => {
                let ghost contents = self.store.contents();
                let ghost cs = cid_views(children@);
                let ghost f = (depth - 1) as nat;
                let n = children.len();
                let mut i: usize = 0;
                assert(cs.skip(0) =~= cs);
                while i < n
                    invariant
                        contents == self.store.contents(),
                        n == children@.len(),
                        cs == cid_views(children@),
                        f == depth - 1,
                        i <= n,
                        resolve(contents, cid@, depth as nat) == resolve_all(contents, cs, f),
                        resolve_all(contents, cs, f) is Data <==> resolve_all(contents, cs.skip(i as int), f) is Data,
                        resolve_all(contents, cs, f) is Unfinished <==> resolve_all(contents, cs.skip(i as int), f) is Unfinished,
                    decreases n - i,
                {
                    let ghost tail = cs.skip(i as int);
                    proof {
                        assert(tail[0] == cs[i as int]);
                        assert(tail.drop_first() =~= cs.skip(i + 1));
                    }
                    let p = self.probe(&children[i], depth - 1)?;
                    match p {
                        Probe::Finished => {},
                        Probe::Failed => {
                            return Ok(Probe::Failed);
                        },
                        Probe::TooDeep => {
                            return Ok(Probe::TooDeep);
                        },
                    }
                    i = i + 1;
                }
                assert(cs.skip(n as int) =~= Seq::<CidView>::empty());
                Ok(Probe::Finished)
            },
        }
    }

    /// The data of the DAG under `root`, where reading it finishes within
    /// `max_depth` levels; `None` where the DAG goes deeper.
    pub fn cat_within(&self, root: &Cid, max_depth: usize) -> (r: Result<Option<Vec<u8>>, KshError>)
        ensures
            r matches Ok(None) ==> resolve(self.store.contents(), root@, max_depth as nat) is Unfinished,
            r matches Ok(Some(d)) ==> resolve(self.store.contents(), root@, max_depth as nat) == Resolution::Data(d@),
            r matches Err(e) ==> e is Store || fails_as(e, resolve(self.store.contents(), root@, max_depth as nat)),
            self.store.infallible() ==> match resolve(self.store.contents(), root@, max_depth as nat) {
                Resolution::Unfinished => r matches Ok(None),
                Resolution::Data(d) => r matches Ok(Some(v)) && v@ == d,
                Resolution::Missing(c) => r matches Err(KshError::BlockNotFound(x)) && x@ == c,
                Resolution::Undecodable => r matches Err(KshError::InvalidCid),
            },
    {
        let p = self.probe(root, max_depth)?;
        match p {
            Probe::TooDeep => Ok(None),
            _ => {
                proof {
                    lemma_cat_outcome(self.store.contents(), root@, max_depth as nat);
                }
                let d = self.cat(root)?;
                Ok(Some(d))
            },
        }
    }
}

} // verus!
