//! The committed side of the store: a balanced-hash-tree engine stand-in.
//!
//! The store consumes its tree engine through a narrow contract — apply a
//! batch of operations, summarize the contents in a root digest, iterate
//! key ranges.  This engine keeps the committed pairs in a key-sorted map
//! and derives the root digest from the node model: the digest of the
//! contents is the hash of the concatenation of every pair's leaf-node
//! digest in ascending key order, so it is determined by the committed
//! contents alone and changes whenever they do.

use vstd::prelude::*;

use crate::bytemap::{assoc_lookup, assoc_sorted, assoc_view, ByteMap, lemma_assoc_at,
    lemma_assoc_insert};
use crate::bytes::{clone_bytes, push_bytes};
use crate::digest::{blake3_digest, blake3_of};
use crate::node::{leaf_preimage, LeafNode};
use crate::op::Op;
use crate::range::{key_in_suffix, lookup_bytes, merged_lookup};

verus! {

/// The preimage of the root digest: the leaf-node digest of every pair, in
/// ascending key order.
pub open spec fn root_preimage(s: Seq<(Seq<u8>, Vec<u8>)>) -> Seq<u8>
    decreases s.len(),
{
    if s.len() == 0 {
        Seq::<u8>::empty()
    } else {
        root_preimage(s.drop_last()) + blake3_of(leaf_preimage(s.last().0, s.last().1@))
    }
}

/// Every key fits the leaf encoding's 16-bit length prefix.
pub open spec fn keys_hashable(s: Seq<(Seq<u8>, Vec<u8>)>) -> bool {
    forall|i: int| 0 <= i < s.len() ==> #[trigger] s[i].0.len() <= 0xFFFF
}

/// The committed key-value contents, kept in ascending key order.
pub struct TreeEngine {
    kvs: ByteMap<Vec<u8>>,
}

impl View for TreeEngine {
    type V = Seq<(Seq<u8>, Vec<u8>)>;

    closed spec fn view(&self) -> Seq<(Seq<u8>, Vec<u8>)> {
        self.kvs@
    }
}

impl TreeEngine {
    pub open spec fn wf(&self) -> bool {
        assoc_sorted(self@)
    }

    /// An empty engine.
    pub fn new() -> (r: TreeEngine)
        ensures
            r@ =~= Seq::<(Seq<u8>, Vec<u8>)>::empty(),
            r.wf(),
    {
        TreeEngine { kvs: ByteMap::new() }
    }

    /// The committed map, for range scans.
    pub fn map(&self) -> (r: &ByteMap<Vec<u8>>)
        ensures
            r@ == self@,
            self.wf() ==> r.wf(),
    {
        &self.kvs
    }

    /// Point lookup in the committed contents.
    pub fn get(&self, key: &[u8]) -> (r: Option<&Vec<u8>>)
        requires
            self.wf(),
        ensures
            (r matches Some(v) ==> assoc_lookup(self@, key@) == Some(*v)),
            (r is None ==> assoc_lookup(self@, key@) is None),
    {
        self.kvs.get(key)
    }

    /// Apply a batch of operations, key-sorted and one per key, as the
    /// store hands it over at commit time: each put binds its key, each
    /// delete unbinds it, and every other key is untouched.
    pub fn apply(&mut self, batch: &Vec<(Vec<u8>, Op)>)
        requires
            old(self).wf(),
            assoc_sorted(assoc_view(batch@)),
        ensures
            final(self).wf(),
            forall|x: Seq<u8>|
                #[trigger] lookup_bytes(final(self)@, x) == merged_lookup(
                    old(self)@,
                    assoc_view(batch@),
                    x,
                ),
    {
        let ghost orig: Seq<(Seq<u8>, Vec<u8>)> = self@;
        let ghost bv: Seq<(Seq<u8>, Op)> = assoc_view(batch@);
        let n = batch.len();
        let mut idx: usize = 0;
        while idx < n
            invariant
                0 <= idx <= n == bv.len(),
                self.wf(),
                forall|x: Seq<u8>|
                    #[trigger] lookup_bytes(self@, x) == (if key_in_suffix(bv, idx as int, x) {
                        lookup_bytes(orig, x)
                    } else {
                        merged_lookup(orig, bv, x)
                    }),
            decreases n - idx,
        {
            let ghost pre: Seq<(Seq<u8>, Vec<u8>)> = self@;
            let ghost k: Seq<u8> = bv[idx as int].0;
            proof {
                crate::bytes::lemma_lex_irrefl(k);
                assert forall|t: int| idx + 1 <= t < bv.len() implies bv[t].0 != k by {
                    assert(crate::bytes::lex_lt(bv[idx as int].0, bv[t].0));
                }
                lemma_assoc_at(bv, idx as int);
                crate::range::lemma_suffix_step(bv, idx as int);
            }
            let key = &batch[idx].0;
            match &batch[idx].1 {
                Op::Put(value) => {
                    self.kvs.insert(clone_bytes(key), clone_bytes(value));
                },
                Op::Delete => {
                    self.kvs.remove(key.as_slice());
                },
            }
            proof {
                assert forall|x: Seq<u8>|
                    #[trigger] lookup_bytes(self@, x) == (if key_in_suffix(bv, idx + 1, x) {
                        lookup_bytes(orig, x)
                    } else {
                        merged_lookup(orig, bv, x)
                    }) by {
                    let pre_look = lookup_bytes(pre, x);
                    let pre_suff = key_in_suffix(bv, idx as int, x);
                    if x == k {
                        assert(assoc_lookup(bv, x) == Some(bv[idx as int].1));
                    } else {
                        assert(assoc_lookup(self@, x) == assoc_lookup(pre, x));
                    }
                }
            }
            idx = idx + 1;
        }
        proof {
            assert forall|x: Seq<u8>|
                #[trigger] lookup_bytes(self@, x) == merged_lookup(orig, bv, x) by {
                assert(!key_in_suffix(bv, n as int, x));
            }
        }
    }

    /// The root digest of the committed contents: the hash of every pair's
    /// leaf-node digest in ascending key order.  It is a function of the
    /// contents alone, so buffered-but-uncommitted operations never affect
    /// it.
    pub fn root_hash(&self) -> (r: [u8; 32])
        requires
            keys_hashable(self@),
        ensures
            r@ == blake3_of(root_preimage(self@)),
    {
        let n = self.kvs.len();
        let mut preimage: Vec<u8> = Vec::new();
        let mut i: usize = 0;
        while i < n
            invariant
                0 <= i <= n == self@.len(),
                preimage@ == root_preimage(self@.take(i as int)),
            decreases n - i,
        {
            let leaf = LeafNode::new(
                clone_bytes(self.kvs.key_at(i)),
                clone_bytes(self.kvs.value_at(i)),
            );
            let digest = leaf.hash();
            push_bytes(&mut preimage, &digest);
            proof {
                let t = self@.take(i + 1);
                assert(t.drop_last() =~= self@.take(i as int));
                assert(t.last() == self@[i as int]);
            }
            i = i + 1;
        }
        proof {
            assert(self@.take(n as int) =~= self@);
        }
        blake3_digest(preimage.as_slice())
    }
}

} // verus!
