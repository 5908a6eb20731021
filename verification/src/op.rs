//! A buffered write operation.
//!
//! During a unit of work every write is recorded as an operation keyed by
//! the written key: a put carrying the new value, or a delete.  Later
//! writes to the same key overwrite the earlier entry, so at commit time
//! the pending map holds one operation per key, the last one recorded.

use vstd::prelude::*;

verus! {

/// A not-yet-committed write: set a value, or delete the key.
#[derive(Debug)]
pub enum Op {
    Put(Vec<u8>),
    Delete,
}

} // verus!
