//! A pending-overlay, Merkle-ized key-value store.
//!
//! The crate has two halves.  The node model (`node`, `digest`) defines the
//! shapes of tree nodes — leaves carrying a key-value pair, internal nodes
//! carrying a sorted child list and optionally their own pair — and the
//! deterministic digest each node produces.  The store layer (`store` and its
//! supporting modules) keeps a committed key-value state together with an
//! in-memory, key-sorted map of not-yet-committed operations, and offers a
//! committed-only view and a pending-aware view whose reads and range scans
//! merge the two sides, the pending side shadowing the committed one.

#![verifier::loop_isolation(false)]

pub mod bytemap;
pub mod bytes;
pub mod crypto;
pub mod digest;
pub mod engine;
pub mod node;
pub mod op;
pub mod range;
pub mod store;

pub use crate::crypto::{CryptoError, CryptoResult};
pub use crate::node::{Child, Children, InternalNode, LeafNode, Nibble, Node};
pub use crate::op::Op;
pub use crate::store::{Order, PendingStoreWrapper, Storage, Store, StoreError, StoreWrapper};
