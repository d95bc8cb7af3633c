# ksh

A small content-addressed block store, verified with Verus.

- `src/` is the library. Blocks are named by CIDs (`content_id`, `block`);
  block stores keep them in memory or in a `sled` database (`store`); a
  fixed-size chunker (`chunker`) cuts data into pieces that a DAG builder
  stores as leaf blocks under a parent block, and a resolver reads the data
  back (`dag`); pins (`pin`); the bitswap framing and what a node answers to a
  request for a block (`p2p`); what the command line asks for and how the HTTP
  API and gateway answer a request (`api`). Hashing, the binary and text forms
  of CIDs and the database are the work of the `multihash-codetable`, `cid` and
  `sled` crates, called through trusted wrappers whose contracts are stated in
  `src/content_id.rs` and `src/store/sled_store.rs`.
- `dag/laws.rs` proves that reading back a DAG that was just added gives the
  data, where: the data is not empty and makes fewer than 2^32 chunks; every
  chunk reads as a leaf block (a chunk that happens to look like a parent
  node is read as one); no two distinct chunks share a CID, and the parent
  block's CID is none of the leaves'; and the CID codec reads each leaf's CID
  back from its encoding. Where one of these fails, the read can give other
  data or an error.
- A block store that can fail (the `sled` one) reports only storage errors on
  single blocks,
  and a failed operation leaves the store as it was or as a success would
  have; adding data that fails part way leaves the leaf blocks of the first
  chunks, in order, and the parent block only where every leaf was stored.
- Pins have a stored form (`PinManager::to_bytes` and `from_bytes`), proved
  to read back as the same pins; the command line keeps it in a `pins` file
  beside the block store, so pins made by one run are listed by the next.
- `app/` holds the programs: the libp2p node, the command line, the HTTP
  server and a block provider and requester.
- `tests/` runs the library on concrete values.
