//! The store: committed contents plus a pending overlay, and its two views.
//!
//! A `Store` owns the tree engine holding the committed key-value state and
//! a key-sorted map of buffered, not-yet-committed operations.  During a
//! unit of work writes accumulate in the pending map only; `commit` applies
//! them to the engine as one batch and clears the map, the only transition
//! at which the durable root digest changes.
//!
//! Two views serve readers and writers.  `StoreWrapper` is the committed,
//! read-only view: it answers strictly from the engine, never consults the
//! pending map, and rejects every mutation.  `PendingStoreWrapper` is the
//! read-write view: every read consults the pending map first and falls
//! back to the engine, every write records into the pending map only, and
//! its range scans merge the two sides with the pending entry shadowing
//! the committed one.

use vstd::prelude::*;

use crate::bytemap::{assoc_lookup, assoc_sorted, ByteMap};
use crate::bytes::{clone_bytes, compare, lex_lt, to_vec, KeyCmp};
use crate::digest::blake3_of;
use crate::engine::{keys_hashable, root_preimage, TreeEngine};
use crate::op::Op;
use crate::range::{
    assoc_sorted_desc, in_bounds, kv_view, lemma_assoc_reverse, lookup_bytes, merge_range,
    merged_lookup, opt_view, reverse_pairs,
};

verus! {

/// Direction of a range scan.
#[derive(Clone, Copy, Debug, PartialEq, Eq, Structural)]
pub enum Order {
    Ascending,
    Descending,
}

/// A store operation that cannot be honoured.
#[derive(Clone, Copy, Debug, PartialEq, Eq, Structural)]
pub enum StoreError {
    /// A mutating operation was invoked on the committed, read-only view.
    ReadOnly,
}

/// An optional value abstracted to its bytes.
pub open spec fn opt_bytes(o: Option<Vec<u8>>) -> Option<Seq<u8>> {
    match o {
        Some(v) => Some(v@),
        None => None,
    }
}

/// A range is proper unless both bounds are given with the start beyond the
/// end; an improper range yields nothing, with no implicit bound swapping.
pub open spec fn bounds_valid(start: Option<Seq<u8>>, end: Option<Seq<u8>>) -> bool {
    match (start, end) {
        (Some(s), Some(e)) => !lex_lt(e, s),
        _ => true,
    }
}

/// The store: the tree engine's committed contents plus the key-sorted map
/// of pending operations.
pub struct Store {
    engine: TreeEngine,
    pending: ByteMap<Op>,
}

impl Store {
    /// Both sides are key-sorted; established at construction, preserved by
    /// every operation.
    pub closed spec fn wf(&self) -> bool {
        self.engine.wf() && self.pending.wf()
    }

    /// The committed pairs, in ascending key order.
    pub closed spec fn committed(&self) -> Seq<(Seq<u8>, Vec<u8>)> {
        self.engine@
    }

    /// The pending operations, in ascending key order.
    pub closed spec fn pending_ops(&self) -> Seq<(Seq<u8>, Op)> {
        self.pending@
    }

    /// What the committed view reads for a key.
    pub open spec fn committed_lookup(&self, k: Seq<u8>) -> Option<Seq<u8>> {
        lookup_bytes(self.committed(), k)
    }

    /// What the pending view reads for a key: the pending operation shadows
    /// the committed value.
    pub open spec fn effective_lookup(&self, k: Seq<u8>) -> Option<Seq<u8>> {
        merged_lookup(self.committed(), self.pending_ops(), k)
    }

    /// An empty store.
    pub fn new() -> (r: Store)
        ensures
            r.wf(),
            r.committed() == Seq::<(Seq<u8>, Vec<u8>)>::empty(),
            r.pending_ops() == Seq::<(Seq<u8>, Op)>::empty(),
    {
        Store { engine: TreeEngine::new(), pending: ByteMap::new() }
    }

    /// The root digest of the committed state.  It is a function of the
    /// committed contents alone: pending operations never affect it.
    pub fn root_hash(&self) -> (r: [u8; 32])
        requires
            self.wf(),
            keys_hashable(self.committed()),
        ensures
            r@ == blake3_of(root_preimage(self.committed())),
    {
        self.engine.root_hash()
    }

    /// The root digest when every committed key fits the leaf encoding's
    /// 16-bit length prefix, and nothing otherwise: the one digest the
    /// node model defines for the committed contents.
    pub fn try_root_hash(&self) -> (r: Option<[u8; 32]>)
        requires
            self.wf(),
        ensures
            keys_hashable(self.committed()) ==> (r matches Some(d) && d@ == blake3_of(
                root_preimage(self.committed()),
            )),
            !keys_hashable(self.committed()) ==> r is None,
    {
        let m = self.engine.map();
        let n = m.len();
        let mut i: usize = 0;
        while i < n
            invariant
                0 <= i <= n == self.committed().len(),
                forall|j: int| 0 <= j < i ==> #[trigger] self.committed()[j].0.len() <= 0xFFFF,
            decreases n - i,
        {
            if m.key_at(i).len() > 0xFFFF {
                return None;
            }
            i = i + 1;
        }
        Some(self.root_hash())
    }

    /// Are there no buffered operations?
    pub fn pending_is_empty(&self) -> (r: bool)
        ensures
            r == (self.pending_ops().len() == 0),
    {
        self.pending.is_empty()
    }

    /// Apply the pending operations to the engine as one batch and clear
    /// them.  The batch is already key-sorted with one operation per key —
    /// later writes overwrote earlier pending entries for the same key — so
    /// afterwards the committed view reads exactly what the pending view
    /// read before, and nothing is left pending.
    pub fn commit(&mut self)
        requires
            old(self).wf(),
        ensures
            final(self).wf(),
            forall|x: Seq<u8>|
                #[trigger] final(self).committed_lookup(x) == old(self).effective_lookup(x),
            final(self).pending_ops() == Seq::<(Seq<u8>, Op)>::empty(),
    {
        let batch = self.pending.take_entries();
        self.engine.apply(&batch);
    }

    /// What the committed state holds for `key`, pending operations
    /// ignored.
    pub fn committed_get(&self, key: &[u8]) -> (r: Option<Vec<u8>>)
        requires
            self.wf(),
        ensures
            opt_bytes(r) == self.committed_lookup(key@),
    {
        match self.engine.get(key) {
            Some(v) => Some(clone_bytes(v)),
            None => None,
        }
    }

    /// What the pending view holds for `key`: a pending put returns its
    /// value, a pending delete hides the key, and otherwise the committed
    /// state answers.
    pub fn pending_get(&self, key: &[u8]) -> (r: Option<Vec<u8>>)
        requires
            self.wf(),
        ensures
            opt_bytes(r) == self.effective_lookup(key@),
    {
        match self.pending.get(key) {
            Some(op) => match op {
                Op::Put(v) => Some(clone_bytes(v)),
                Op::Delete => None,
            },
            None => match self.engine.get(key) {
                Some(v) => Some(clone_bytes(v)),
                None => None,
            },
        }
    }

    /// Record a pending put for `key`.  The committed state is untouched;
    /// only the pending view's reading of this one key changes.
    pub fn pending_set(&mut self, key: &[u8], value: &[u8])
        requires
            old(self).wf(),
        ensures
            final(self).wf(),
            final(self).committed() == old(self).committed(),
            final(self).effective_lookup(key@) == Some(value@),
            forall|x: Seq<u8>|
                x != key@ ==> #[trigger] final(self).effective_lookup(x) == old(
                    self,
                ).effective_lookup(x),
            assoc_lookup(final(self).pending_ops(), key@) matches Some(op) && op matches Op::Put(
                v,
            ) && v@ == value@,
    {
        self.pending.insert(to_vec(key), Op::Put(to_vec(value)));
    }

    /// Record a pending delete for `key`.  The committed state is
    /// untouched; the pending view afterwards reads nothing for this key.
    pub fn pending_remove(&mut self, key: &[u8])
        requires
            old(self).wf(),
        ensures
            final(self).wf(),
            final(self).committed() == old(self).committed(),
            final(self).effective_lookup(key@) is None,
            forall|x: Seq<u8>|
                x != key@ ==> #[trigger] final(self).effective_lookup(x) == old(
                    self,
                ).effective_lookup(x),
            assoc_lookup(final(self).pending_ops(), key@) == Some(Op::Delete),
    {
        self.pending.insert(to_vec(key), Op::Delete);
    }

    /// Scan `start <= key < end` over the committed state alone, in the
    /// given order.  An improper range — both bounds given, start beyond
    /// end — yields nothing before any lookup is made.
    pub fn committed_range(&self, start: Option<&[u8]>, end: Option<&[u8]>, order: Order) -> (out:
        Vec<(Vec<u8>, Vec<u8>)>)
        requires
            self.wf(),
        ensures
            (order is Ascending ==> assoc_sorted(kv_view(out@))),
            (order is Descending ==> assoc_sorted_desc(kv_view(out@))),
            forall|x: Seq<u8>|
                #[trigger] assoc_lookup(kv_view(out@), x) == (if bounds_valid(
                    opt_view(start),
                    opt_view(end),
                ) && in_bounds(x, opt_view(start), opt_view(end)) {
                    self.committed_lookup(x)
                } else {
                    None::<Seq<u8>>
                }),
            !bounds_valid(opt_view(start), opt_view(end)) ==> out@.len() == 0,
    {
        if bounds_invalid(start, end) {
            return Vec::new();
        }
        let no_pending: ByteMap<Op> = ByteMap::new();
        let ascending = merge_range(self.engine.map(), &no_pending, start, end);
        match order {
            Order::Ascending => ascending,
            Order::Descending => {
                proof {
                    lemma_assoc_reverse(kv_view(ascending@));
                }
                reverse_pairs(&ascending)
            },
        }
    }

    /// Scan `start <= key < end` over the union of committed and pending
    /// keys, in the given order: the pending entry shadows the committed
    /// one and pending deletes are suppressed.  An improper range yields
    /// nothing before any lookup is made.
    pub fn pending_range(&self, start: Option<&[u8]>, end: Option<&[u8]>, order: Order) -> (out:
        Vec<(Vec<u8>, Vec<u8>)>)
        requires
            self.wf(),
        ensures
            (order is Ascending ==> assoc_sorted(kv_view(out@))),
            (order is Descending ==> assoc_sorted_desc(kv_view(out@))),
            forall|x: Seq<u8>|
                #[trigger] assoc_lookup(kv_view(out@), x) == (if bounds_valid(
                    opt_view(start),
                    opt_view(end),
                ) && in_bounds(x, opt_view(start), opt_view(end)) {
                    self.effective_lookup(x)
                } else {
                    None::<Seq<u8>>
                }),
            !bounds_valid(opt_view(start), opt_view(end)) ==> out@.len() == 0,
    {
        if bounds_invalid(start, end) {
            return Vec::new();
        }
        let ascending = merge_range(self.engine.map(), &self.pending, start, end);
        match order {
            Order::Ascending => ascending,
            Order::Descending => {
                proof {
                    lemma_assoc_reverse(kv_view(ascending@));
                }
                reverse_pairs(&ascending)
            },
        }
    }

    /// The committed, read-only view over this store.
    pub fn wrap(&self) -> (r: StoreWrapper<'_>)
        ensures
            r.target() == *self,
    {
        StoreWrapper { store: self }
    }

    /// The pending-aware, read-write view, taking the one writer's
    /// exclusive control of the store for the unit of work.
    pub fn pending_wrap(self) -> (r: PendingStoreWrapper)
        ensures
            r.target() == self,
    {
        PendingStoreWrapper { store: self }
    }
}

/// Are both bounds given with the start beyond the end?
fn bounds_invalid(start: Option<&[u8]>, end: Option<&[u8]>) -> (r: bool)
    ensures
        r == !bounds_valid(opt_view(start), opt_view(end)),
{
    match (start, end) {
        (Some(s), Some(e)) => match compare(e, s) {
            KeyCmp::Less => true,
            _ => false,
        },
        _ => false,
    }
}

/// The storage capability exposed upward to execution and query layers:
/// point reads, writes, and range scans over one view of the store.  Two
/// views implement it — the committed, read-only view rejects every write,
/// the pending view records writes into the pending map — so `writable`
/// says which behaviour `set` and `remove` are owed.
pub trait Storage: Sized {
    /// What this view reads for a key.
    spec fn view_lookup(&self, k: Seq<u8>) -> Option<Seq<u8>>;

    /// Does this view accept writes?
    spec fn writable(&self) -> bool;

    /// The view is backed by a well-formed store.
    spec fn inv(&self) -> bool;

    /// Read a key through this view.
    fn get(&self, key: &[u8]) -> (r: Option<Vec<u8>>)
        requires
            self.inv(),
        ensures
            opt_bytes(r) == self.view_lookup(key@),
    ;

    /// Write a key through this view.  On a writable view the write is
    /// recorded and only this key's reading changes; on a read-only view
    /// the call is rejected and nothing changes.
    fn set(&mut self, key: &[u8], value: &[u8]) -> (r: Result<(), StoreError>)
        requires
            old(self).inv(),
        ensures
            final(self).inv(),
            old(self).writable() ==> r == Ok::<(), StoreError>(()) && final(self).view_lookup(
                key@,
            ) == Some(value@) && (forall|x: Seq<u8>|
                x != key@ ==> #[trigger] final(self).view_lookup(x) == old(self).view_lookup(x)),
            !old(self).writable() ==> r == Err::<(), StoreError>(StoreError::ReadOnly)
                && *final(self) == *old(self),
    ;

    /// Delete a key through this view, under the same regime as `set`.
    fn remove(&mut self, key: &[u8]) -> (r: Result<(), StoreError>)
        requires
            old(self).inv(),
        ensures
            final(self).inv(),
            old(self).writable() ==> r == Ok::<(), StoreError>(()) && final(self).view_lookup(
                key@,
            ) is None && (forall|x: Seq<u8>|
                x != key@ ==> #[trigger] final(self).view_lookup(x) == old(self).view_lookup(x)),
            !old(self).writable() ==> r == Err::<(), StoreError>(StoreError::ReadOnly)
                && *final(self) == *old(self),
    ;

    /// Scan `start <= key < end` through this view, in the given order; an
    /// improper range yields nothing.
    fn range(&self, start: Option<&[u8]>, end: Option<&[u8]>, order: Order) -> (out: Vec<
        (Vec<u8>, Vec<u8>),
    >)
        requires
            self.inv(),
        ensures
            (order is Ascending ==> assoc_sorted(kv_view(out@))),
            (order is Descending ==> assoc_sorted_desc(kv_view(out@))),
            forall|x: Seq<u8>|
                #[trigger] assoc_lookup(kv_view(out@), x) == (if bounds_valid(
                    opt_view(start),
                    opt_view(end),
                ) && in_bounds(x, opt_view(start), opt_view(end)) {
                    self.view_lookup(x)
                } else {
                    None::<Seq<u8>>
                }),
            !bounds_valid(opt_view(start), opt_view(end)) ==> out@.len() == 0,
    ;
}

/// The committed, read-only view: reads answer strictly from the engine,
/// pending operations are never consulted, and every mutation is rejected.
pub struct StoreWrapper<'a> {
    store: &'a Store,
}

impl<'a> StoreWrapper<'a> {
    /// The store this view reads.
    pub closed spec fn target(&self) -> Store {
        *self.store
    }
}

impl<'a> Storage for StoreWrapper<'a> {
    /// The committed view reads what the engine holds, pending operations
    /// ignored.
    open spec fn view_lookup(&self, k: Seq<u8>) -> Option<Seq<u8>> {
        self.target().committed_lookup(k)
    }

    /// The committed view is read-only.
    open spec fn writable(&self) -> bool {
        false
    }

    open spec fn inv(&self) -> bool {
        self.target().wf()
    }

    fn get(&self, key: &[u8]) -> (r: Option<Vec<u8>>) {
        self.store.committed_get(key)
    }

    /// Mutation is forbidden on the committed view: the call is rejected,
    /// and neither the engine nor the pending map is touched.
    fn set(&mut self, _key: &[u8], _value: &[u8]) -> (r: Result<(), StoreError>)
        ensures
            r == Err::<(), StoreError>(StoreError::ReadOnly),
            final(self).target() == old(self).target(),
    {
        Err(StoreError::ReadOnly)
    }

    /// Mutation is forbidden on the committed view: the call is rejected,
    /// and neither the engine nor the pending map is touched.
    fn remove(&mut self, _key: &[u8]) -> (r: Result<(), StoreError>)
        ensures
            r == Err::<(), StoreError>(StoreError::ReadOnly),
            final(self).target() == old(self).target(),
    {
        Err(StoreError::ReadOnly)
    }

    fn range(&self, start: Option<&[u8]>, end: Option<&[u8]>, order: Order) -> (out: Vec<
        (Vec<u8>, Vec<u8>),
    >) {
        self.store.committed_range(start, end, order)
    }
}

/// The pending-aware, read-write view: reads consult the pending map first,
/// writes record into the pending map only.
pub struct PendingStoreWrapper {
    store: Store,
}

impl PendingStoreWrapper {
    /// The store this view reads and writes.
    pub closed spec fn target(&self) -> Store {
        self.store
    }

    /// Hand the store back, pending operations intact.
    pub fn into_store(self) -> (r: Store)
        ensures
            r == self.target(),
    {
        self.store
    }
}

impl Storage for PendingStoreWrapper {
    /// The pending view reads the pending operation for a key when one is
    /// recorded, the committed value otherwise.
    open spec fn view_lookup(&self, k: Seq<u8>) -> Option<Seq<u8>> {
        self.target().effective_lookup(k)
    }

    /// The pending view accepts writes.
    open spec fn writable(&self) -> bool {
        true
    }

    open spec fn inv(&self) -> bool {
        self.target().wf()
    }

    fn get(&self, key: &[u8]) -> (r: Option<Vec<u8>>) {
        self.store.pending_get(key)
    }

    /// Record a pending put; the committed state is untouched.
    fn set(&mut self, key: &[u8], value: &[u8]) -> (r: Result<(), StoreError>)
        ensures
            final(self).target().committed() == old(self).target().committed(),
    {
        self.store.pending_set(key, value);
        Ok(())
    }

    /// Record a pending delete; the committed state is untouched.
    fn remove(&mut self, key: &[u8]) -> (r: Result<(), StoreError>)
        ensures
            final(self).target().committed() == old(self).target().committed(),
    {
        self.store.pending_remove(key);
        Ok(())
    }

    fn range(&self, start: Option<&[u8]>, end: Option<&[u8]>, order: Order) -> (out: Vec<
        (Vec<u8>, Vec<u8>),
    >) {
        self.store.pending_range(start, end, order)
    }
}

/// Shadowing: for every key, the pending view reads the recorded pending
/// operation — the value of a pending put, nothing for a pending delete —
/// and falls back to the committed view's reading when no operation is
/// recorded for the key.
pub proof fn lemma_shadowing(s: Store, k: Seq<u8>)
    ensures
        (assoc_lookup(s.pending_ops(), k) matches Some(op) ==> s.effective_lookup(k) == (match op {
            Op::Put(v) => Some(v@),
            Op::Delete => None::<Seq<u8>>,
        })),
        (assoc_lookup(s.pending_ops(), k) is None ==> s.effective_lookup(k)
            == s.committed_lookup(k)),
{
}

/// Commit atomicity, seen from the two views: before a commit the committed
/// view is unaffected by any pending write, and immediately after a commit
/// the committed view reads for every key exactly what the pending view
/// read before, with nothing left pending.
pub proof fn lemma_commit_atomicity(before: Store, after: Store)
    requires
        forall|x: Seq<u8>| #[trigger] after.committed_lookup(x) == before.effective_lookup(x),
        after.pending_ops() == Seq::<(Seq<u8>, Op)>::empty(),
    ensures
        forall|x: Seq<u8>| #[trigger] after.effective_lookup(x) == before.effective_lookup(x),
{
    assert forall|x: Seq<u8>|
        #[trigger] after.effective_lookup(x) == before.effective_lookup(x) by {
        assert(after.committed_lookup(x) == before.effective_lookup(x));
        assert(after.pending_ops().len() == 0);
        if crate::bytemap::assoc_has_key(after.pending_ops(), x) {
            let i = crate::bytemap::assoc_pos(after.pending_ops(), x);
            assert(0 <= i < after.pending_ops().len());
        }
    }
}

} // verus!
