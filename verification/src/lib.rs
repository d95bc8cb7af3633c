//! A small content-addressed block store: blocks named by CIDs, a fixed-size
//! chunker, a DAG builder and resolver over a block store, pins, the bitswap
//! wire framing and the request handling of an HTTP gateway.
pub mod content_id;
pub mod error;
mod outside;
pub mod block;
pub mod store;
pub mod chunker;
pub mod dag;
pub mod text;
pub mod api;
pub mod keyed;
pub mod pin;
pub mod p2p;

pub use content_id::{Cid, Multihash, Version};
pub use error::KshError;
