//! What reading back a DAG that was just added gives.
use vstd::prelude::*;

use crate::block::raw_cid_of;
use crate::chunker::fixed::fixed_chunks;
use crate::content_id::{CidView, cid_encoding, encodes_back};
use super::{le32, child_entries, leaf_cids, parent_node, store_leaves, dag_add, total_len};
use super::resolver::{read_le32, child_list, node_kind, NodeKind, resolve, resolve_all, Resolution, finishes, cat_outcome, lemma_cat_outcome};

verus! {

/// No two chunks with different data have the same CID.
pub open spec fn collision_free(cs: Seq<Seq<u8>>) -> bool {
    forall|i: int, j: int|
        0 <= i < cs.len() && 0 <= j < cs.len() && raw_cid_of(cs[i]) == raw_cid_of(cs[j]) ==> #[trigger] cs[i]
            == #[trigger] cs[j]
}

/// Every chunk reads as a leaf block.
pub open spec fn all_leaves(cs: Seq<Seq<u8>>) -> bool {
    forall|i: int| 0 <= i < cs.len() ==> node_kind(#[trigger] cs[i]) is Leaf
}

proof fn lemma_read_le32_at(s: Seq<u8>, at: int, x: u32)
    requires
        0 <= at,
        at + 4 <= s.len(),
        s.subrange(at, at + 4) == le32(x),
    ensures
        read_le32(s, at) == x,
{
    assert(s[at] == s.subrange(at, at + 4)[0]);
    assert(s[at + 1] == s.subrange(at, at + 4)[1]);
    assert(s[at + 2] == s.subrange(at, at + 4)[2]);
    assert(s[at + 3] == s.subrange(at, at + 4)[3]);
    assert(((x as u8) as u32) | ((((x >> 8u32) as u8) as u32) << 8u32) | ((((x >> 16u32) as u8) as u32)
        << 16u32) | ((((x >> 24u32) as u8) as u32) << 24u32) == x) by (bit_vector);
}

/// The fixed-size chunker's pieces, put back together, give the data; data
/// that is not empty gives at least one piece.
pub proof fn lemma_fixed_chunks(data: Seq<u8>, size: nat)
    requires
        size > 0,
    ensures
        fixed_chunks(data, size).flatten() == data,
        data.len() > 0 ==> fixed_chunks(data, size).len() >= 1,
    decreases data.len(),
{
    let cs = fixed_chunks(data, size);
    if data.len() == 0 {
    } else if data.len() <= size {
        assert(cs == seq![data]);
        cs.lemma_flatten_one_element();
    } else {
        let rest = fixed_chunks(data.skip(size as int), size);
        lemma_fixed_chunks(data.skip(size as int), size);
        assert(cs.drop_first() =~= rest);
        assert(data.take(size as int) + data.skip(size as int) =~= data);
    }
}

/// Every piece the fixed-size chunker gives holds at least one byte and at
/// most `size`; every piece but the last holds exactly `size`; and there are
/// as many pieces as it takes to hold the data and no more (the number of
/// pieces is the length divided by `size`, rounded up).
pub proof fn lemma_fixed_chunk_sizes(data: Seq<u8>, size: nat)
    requires
        size > 0,
    ensures
        forall|i: int| 0 <= i < fixed_chunks(data, size).len() ==> 0 < (#[trigger] fixed_chunks(data, size)[i]).len() <= size,
        forall|i: int| 0 <= i < fixed_chunks(data, size).len() - 1 ==> (#[trigger] fixed_chunks(data, size)[i]).len() == size,
        fixed_chunks(data, size).len() * size >= data.len(),
        fixed_chunks(data, size).len() > 0 ==> (fixed_chunks(data, size).len() - 1) * size < data.len(),
        fixed_chunks(data, size).len() == 0 <==> data.len() == 0,
    decreases data.len(),
{
    let cs = fixed_chunks(data, size);
    if data.len() == 0 {
    } else if data.len() <= size {
        assert(cs == seq![data]);
        assert(cs.len() * size == size && (cs.len() - 1) * size == 0) by (nonlinear_arith)
            requires
                cs.len() == 1,
        ;
    } else {
        let tail = data.skip(size as int);
        let rest = fixed_chunks(tail, size);
        lemma_fixed_chunk_sizes(tail, size);
        assert(cs.len() == rest.len() + 1);
        assert forall|i: int| 0 <= i < cs.len() implies 0 < (#[trigger] cs[i]).len() <= size && (i < cs.len() - 1
            ==> cs[i].len() == size) by {
            if i == 0 {
                assert(cs[0] == data.take(size as int));
            } else {
                assert(cs[i] == rest[i - 1]);
            }
        }
        let k = rest.len();
        assert(tail.len() == data.len() - size);
        assert((k + 1) * size == k * size + size) by (nonlinear_arith);
        assert((cs.len() - 1) * size == k * size);
        assert(cs.len() * size == (k + 1) * size);
        if k > 0 {
            assert(k * size == (k - 1) * size + size) by (nonlinear_arith)
                requires
                    k > 0,
            ;
        } else {
            assert(k * size == 0) by (nonlinear_arith)
                requires
                    k == 0,
            ;
        }
    }
}

/// The number that 8 bytes stand for, least significant first.
pub open spec fn le64_value(b: Seq<u8>) -> int {
    b[0] + 0x100 * b[1] + 0x1_0000 * b[2] + 0x100_0000 * b[3] + 0x1_0000_0000 * b[4] + 0x100_0000_0000 * b[5]
        + 0x1_0000_0000_0000 * b[6] + 0x100_0000_0000_0000 * b[7]
}

proof fn lemma_le64_value(x: u64)
    ensures
        le64_value(super::le64(x)) == x,
{
    let b = super::le64(x);
    assert(b[0] == x as u8 && b[1] == (x >> 8u64) as u8 && b[2] == (x >> 16u64) as u8 && b[3] == (x >> 24u64) as u8);
    assert(b[4] == (x >> 32u64) as u8 && b[5] == (x >> 40u64) as u8 && b[6] == (x >> 48u64) as u8 && b[7] == (x
        >> 56u64) as u8);
    assert(x == (x as u8) + 0x100 * ((x >> 8u64) as u8) + 0x1_0000 * ((x >> 16u64) as u8) + 0x100_0000 * ((x
        >> 24u64) as u8) + 0x1_0000_0000 * ((x >> 32u64) as u8) + 0x100_0000_0000 * ((x >> 40u64) as u8)
        + 0x1_0000_0000_0000 * ((x >> 48u64) as u8) + 0x100_0000_0000_0000 * ((x >> 56u64) as u8)) by (bit_vector);
}

/// The parent block over `cs` ends with the total size of the data, every
/// chunk counted, as 8 little-endian bytes.
pub proof fn lemma_parent_records_size(cs: Seq<Seq<u8>>)
    requires
        cs.flatten().len() <= u64::MAX,
    ensures
        parent_node(cs).len() >= 8,
        le64_value(parent_node(cs).subrange(parent_node(cs).len() - 8, parent_node(cs).len() as int))
            == cs.flatten().len(),
{
    lemma_total_len(cs);
    let x = total_len(cs) as u64;
    let p = parent_node(cs);
    let front = le32(cs.len() as u32) + child_entries(leaf_cids(cs));
    assert(p == front + super::le64(x));
    assert(p.subrange(p.len() - 8, p.len() as int) =~= super::le64(x));
    lemma_le64_value(x);
}

/// The total size of chunks is the size of the chunks put together.
pub proof fn lemma_total_len(cs: Seq<Seq<u8>>)
    ensures
        total_len(cs) == cs.flatten().len(),
    decreases cs.len(),
{
    cs.lemma_flatten_and_flatten_alt_are_equivalent();
    if cs.len() > 0 {
        lemma_total_len(cs.drop_last());
        cs.drop_last().lemma_flatten_and_flatten_alt_are_equivalent();
    }
}

/// The fixed-size chunker's pieces of `data` hold `data.len()` bytes in all,
/// which fits in a `u64`; so `add_bytes` accepts any data with it.
pub proof fn lemma_fixed_total_len(data: Seq<u8>, size: nat)
    requires
        size > 0,
        data.len() <= usize::MAX,
    ensures
        total_len(fixed_chunks(data, size)) == data.len(),
        total_len(fixed_chunks(data, size)) <= u64::MAX,
{
    lemma_fixed_chunks(data, size);
    lemma_total_len(fixed_chunks(data, size));
}

proof fn lemma_collision_free_prefix(cs: Seq<Seq<u8>>)
    requires
        cs.len() > 0,
        collision_free(cs),
    ensures
        collision_free(cs.drop_last()),
{
    assert forall|i: int, j: int|
        0 <= i < cs.drop_last().len() && 0 <= j < cs.drop_last().len() && raw_cid_of(cs.drop_last()[i])
            == raw_cid_of(cs.drop_last()[j]) implies #[trigger] cs.drop_last()[i] == #[trigger] cs.drop_last()[j] by {
        assert(cs.drop_last()[i] == cs[i]);
        assert(cs.drop_last()[j] == cs[j]);
    }
}

proof fn lemma_store_leaves(contents: Map<CidView, Seq<u8>>, cs: Seq<Seq<u8>>, i: int)
    requires
        0 <= i < cs.len(),
        collision_free(cs),
    ensures
        store_leaves(contents, cs).contains_key(raw_cid_of(cs[i])),
        store_leaves(contents, cs)[raw_cid_of(cs[i])] == cs[i],
    decreases cs.len(),
{
    let n = cs.len() - 1;
    if raw_cid_of(cs.last()) == raw_cid_of(cs[i]) {
        assert(cs[n] == cs[i]);
    } else {
        lemma_collision_free_prefix(cs);
        assert(cs.drop_last()[i] == cs[i]);
        lemma_store_leaves(contents, cs.drop_last(), i);
    }
}

proof fn lemma_resolve_leaves(after: Map<CidView, Seq<u8>>, cs: Seq<Seq<u8>>)
    requires
        all_leaves(cs),
        forall|i: int|
            0 <= i < cs.len() ==> after.contains_key(raw_cid_of(#[trigger] cs[i])) && after[raw_cid_of(cs[i])]
                == cs[i],
    ensures
        resolve_all(after, leaf_cids(cs), 1) == Resolution::Data(cs.flatten()),
    decreases cs.len(),
{
    if cs.len() > 0 {
        let cids = leaf_cids(cs);
        assert(cids[0] == raw_cid_of(cs[0]));
        assert(node_kind(cs[0]) is Leaf);
        assert(resolve(after, cids[0], 1) == Resolution::Data(cs[0]));
        assert(cids.drop_first() =~= leaf_cids(cs.drop_first()));
        assert forall|i: int| 0 <= i < cs.drop_first().len() implies node_kind(#[trigger] cs.drop_first()[i]) is Leaf by {
            assert(cs.drop_first()[i] == cs[i + 1]);
        }
        assert forall|i: int|
            0 <= i < cs.drop_first().len() implies after.contains_key(raw_cid_of(#[trigger] cs.drop_first()[i]))
                && after[raw_cid_of(cs.drop_first()[i])] == cs.drop_first()[i] by {
            assert(cs.drop_first()[i] == cs[i + 1]);
        }
        lemma_resolve_leaves(after, cs.drop_first());
    }
}

proof fn lemma_entries_len(cids: Seq<CidView>)
    ensures
        child_entries(cids).len() >= 4 * cids.len(),
    decreases cids.len(),
{
    if cids.len() > 0 {
        lemma_entries_len(cids.drop_last());
    }
}

proof fn lemma_entries_prefix(cids: Seq<CidView>, k: int)
    requires
        0 <= k <= cids.len(),
    ensures
        child_entries(cids.take(k)).len() <= child_entries(cids).len(),
        child_entries(cids).subrange(0, child_entries(cids.take(k)).len() as int) == child_entries(cids.take(k)),
    decreases cids.len(),
{
    if k == cids.len() {
        assert(cids.take(k) =~= cids);
        assert(child_entries(cids).subrange(0, child_entries(cids).len() as int) =~= child_entries(cids));
    } else {
        let d = cids.drop_last();
        assert(d.take(k) =~= cids.take(k));
        lemma_entries_prefix(d, k);
        let e = child_entries(cids.take(k));
        assert(child_entries(cids).subrange(0, e.len() as int) =~= child_entries(d).subrange(0, e.len() as int));
    }
}

proof fn lemma_child_list(p: Seq<u8>, cids: Seq<CidView>, k: int)
    requires
        0 <= k <= cids.len(),
        4 + child_entries(cids).len() <= p.len(),
        p.subrange(4, 4 + child_entries(cids).len() as int) == child_entries(cids),
        forall|i: int| 0 <= i < cids.len() ==> encodes_back(#[trigger] cids[i]),
    ensures
        child_list(p, (4 + child_entries(cids.take(k)).len()) as int, (cids.len() - k) as nat) == Some(cids.skip(k)),
    decreases cids.len() - k,
{
    let n = cids.len() as int;
    let e = child_entries(cids);
    let ek = child_entries(cids.take(k));
    let off: int = (4 + ek.len()) as int;
    if k == n {
        assert(cids.skip(k) =~= Seq::<CidView>::empty());
    } else {
        let c = cids[k];
        let enc = cid_encoding(c);
        assert(encodes_back(c));
        let ek1 = child_entries(cids.take(k + 1));
        assert(cids.take(k + 1).drop_last() =~= cids.take(k));
        assert(cids.take(k + 1).last() == c);
        assert(ek1 == ek + (le32(enc.len() as u32) + enc));
        lemma_entries_prefix(cids, k + 1);
        assert(e.subrange(0, ek1.len() as int) == ek1);
        assert(p.subrange(off, off + 4) =~= le32(enc.len() as u32)) by {
            assert forall|m: int| 0 <= m < 4 implies #[trigger] p.subrange(off, off + 4)[m] == le32(enc.len() as u32)[m] by {
                assert(p[off + m] == p.subrange(4, 4 + e.len() as int)[ek.len() + m]);
                assert(e[ek.len() + m] == ek1[ek.len() + m]);
            }
        }
        lemma_read_le32_at(p, off, enc.len() as u32);
        assert((enc.len() as u32) as int == enc.len());
        let start: int = off + 4;
        let end: int = start + enc.len();
        assert(end == 4 + ek1.len());
        assert(p.subrange(start, end) =~= enc) by {
            assert forall|m: int| 0 <= m < enc.len() implies #[trigger] p.subrange(start, end)[m] == enc[m] by {
                assert(p[start + m] == p.subrange(4, 4 + e.len() as int)[ek.len() + 4 + m]);
                assert(e[ek.len() + 4 + m] == ek1[ek.len() + 4 + m]);
            }
        }
        lemma_child_list(p, cids, k + 1);
        assert(cids.skip(k) =~= seq![c] + cids.skip(k + 1));
    }
}

/// Reading back the DAG that adding `cs` writes gives the chunks' data, in
/// order, where: there is at least one chunk and fewer than 2^32; every chunk
/// reads as a leaf block; distinct chunks have distinct CIDs and, for more
/// than one chunk, the parent block's CID is none of theirs; and the CID
/// codec reads each leaf's CID back from its encoding (as `add_bytes`
/// guarantees of every CID it encodes).
pub proof fn lemma_read_back(contents: Map<CidView, Seq<u8>>, cs: Seq<Seq<u8>>)
    requires
        1 <= cs.len() < 0x1_0000_0000,
        all_leaves(cs),
        collision_free(cs),
        cs.len() != 1 ==> forall|i: int|
            0 <= i < cs.len() ==> raw_cid_of(parent_node(cs)) != raw_cid_of(#[trigger] cs[i]) && encodes_back(
                raw_cid_of(cs[i]),
            ),
    ensures
        finishes(dag_add(contents, cs).1, dag_add(contents, cs).0),
        cat_outcome(dag_add(contents, cs).1, dag_add(contents, cs).0) == Resolution::Data(cs.flatten()),
{
    let (root, after) = dag_add(contents, cs);
    if cs.len() == 1 {
        assert(node_kind(cs[0]) is Leaf);
        assert(resolve(after, root, 1) == Resolution::Data(cs[0]));
        cs.lemma_flatten_one_element();
        lemma_cat_outcome(after, root, 1);
    } else {
        let p = parent_node(cs);
        let cids = leaf_cids(cs);
        let n = cs.len();
        let e = child_entries(cids);
        assert(after[root] == p);
        // The parent block reads as a parent of the leaves.
        assert(p.subrange(0, 4) =~= le32(n as u32));
        lemma_read_le32_at(p, 0, n as u32);
        lemma_entries_len(cids);
        assert(p.len() >= 4 + n * 4);
        assert(p.subrange(4, 4 + e.len() as int) =~= e);
        assert forall|i: int| 0 <= i < cids.len() implies encodes_back(#[trigger] cids[i]) by {
            assert(cids[i] == raw_cid_of(cs[i]));
        }
        assert(cids.take(0) =~= Seq::<CidView>::empty());
        lemma_child_list(p, cids, 0);
        assert(cids.skip(0) =~= cids);
        assert(node_kind(p) == NodeKind::Parent(cids));
        // Each leaf is stored under its CID.
        assert forall|i: int|
            0 <= i < cs.len() implies after.contains_key(raw_cid_of(#[trigger] cs[i])) && after[raw_cid_of(cs[i])]
                == cs[i] by {
            lemma_store_leaves(contents, cs, i);
        }
        lemma_resolve_leaves(after, cs);
        assert(resolve(after, root, 2) == Resolution::Data(cs.flatten()));
        lemma_cat_outcome(after, root, 2);
    }
}

/// Adding data with a fixed-size chunker and reading it back gives the data,
/// where: the data is not empty and makes fewer than 2^32 chunks; every chunk
/// reads as a leaf block; distinct chunks have distinct CIDs and, for more
/// than one chunk, the parent block's CID is none of theirs; and the CID codec
/// reads each leaf's CID back from its encoding (as `add_bytes` guarantees).
pub proof fn lemma_add_then_cat(contents: Map<CidView, Seq<u8>>, data: Seq<u8>, size: nat)
    requires
        size > 0,
        data.len() > 0,
        fixed_chunks(data, size).len() < 0x1_0000_0000,
        all_leaves(fixed_chunks(data, size)),
        collision_free(fixed_chunks(data, size)),
        fixed_chunks(data, size).len() != 1 ==> forall|i: int|
            0 <= i < fixed_chunks(data, size).len() ==> raw_cid_of(parent_node(fixed_chunks(data, size)))
                != raw_cid_of(#[trigger] fixed_chunks(data, size)[i]) && encodes_back(
                raw_cid_of(fixed_chunks(data, size)[i]),
            ),
    ensures
        finishes(dag_add(contents, fixed_chunks(data, size)).1, dag_add(contents, fixed_chunks(data, size)).0),
        cat_outcome(dag_add(contents, fixed_chunks(data, size)).1, dag_add(contents, fixed_chunks(data, size)).0)
            == Resolution::Data(data),
{
    lemma_fixed_chunks(data, size);
    lemma_read_back(contents, fixed_chunks(data, size));
}

} // verus!
