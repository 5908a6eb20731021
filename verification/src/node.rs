//! The content-addressed node model.
//!
//! A tree node is either a leaf, holding one key-value pair, or an internal
//! node, holding a child list ordered by nibble index and, possibly, its own
//! key-value pair.  Each node produces a deterministic digest:
//!
//! * a leaf hashes `be16(len(key)) ‖ key ‖ value` — the length prefix keeps
//!   two different pairs whose concatenated bytes coincide apart;
//! * an internal node hashes, for each existing child in ascending index
//!   order, `index-byte ‖ child-digest`, followed by `key ‖ value` when the
//!   node carries its own pair.  Absent children contribute nothing.

use vstd::prelude::*;

use crate::bytes::push_bytes;
use crate::digest::{blake3_digest, blake3_of};

verus! {

/// A 4-bit child index: one hex digit of a key path.
#[derive(Clone, Copy, Debug)]
pub struct Nibble {
    value: u8,
}

impl Nibble {
    /// Every nibble holds a value below 16.
    #[verifier::type_invariant]
    pub open spec fn inv(self) -> bool {
        self.spec_byte() < 16
    }

    pub closed spec fn spec_byte(self) -> u8 {
        self.value
    }

    pub fn new(value: u8) -> (r: Nibble)
        requires
            value < 16,
        ensures
            r.spec_byte() == value,
    {
        Nibble { value }
    }

    pub fn byte(&self) -> (r: u8)
        ensures
            r == self.spec_byte(),
            r < 16,
    {
        proof {
            use_type_invariant(self);
        }
        self.value
    }
}

/// An entry of an internal node's child list: the child's nibble index, the
/// version at which the child subtree last changed, and the child's digest.
#[derive(Clone, Copy, Debug)]
pub struct Child {
    pub index: Nibble,
    pub version: u64,
    pub hash: [u8; 32],
}

/// The child list is strictly ascending by index: no duplicate indexes.
pub open spec fn children_sorted(s: Seq<Child>) -> bool {
    forall|i: int, j: int|
        0 <= i < j < s.len() ==> s[i].index.spec_byte() < s[j].index.spec_byte()
}

/// Some child in `s` has index byte `b`.
pub open spec fn has_index(s: Seq<Child>, b: u8) -> bool {
    exists|i: int| 0 <= i < s.len() && s[i].index.spec_byte() == b
}

/// The position of the child with index byte `b`.
pub open spec fn index_pos(s: Seq<Child>, b: u8) -> int {
    choose|i: int| 0 <= i < s.len() && s[i].index.spec_byte() == b
}

/// The child with index byte `b`.
pub open spec fn child_for(s: Seq<Child>, b: u8) -> Child {
    s[index_pos(s, b)]
}

/// In a sorted child list the child at position `i` is the one found when
/// looking up its own index byte.
pub proof fn lemma_child_at(s: Seq<Child>, i: int)
    requires
        children_sorted(s),
        0 <= i < s.len(),
    ensures
        has_index(s, s[i].index.spec_byte()),
        index_pos(s, s[i].index.spec_byte()) == i,
        child_for(s, s[i].index.spec_byte()) == s[i],
{
    let b = s[i].index.spec_byte();
    assert(has_index(s, b));
    let j = index_pos(s, b);
    assert(0 <= j < s.len() && s[j].index.spec_byte() == b);
    if j < i {
        assert(s[j].index.spec_byte() < s[i].index.spec_byte());
    } else if j > i {
        assert(s[i].index.spec_byte() < s[j].index.spec_byte());
    }
}

/// An ordered child list, strictly ascending by nibble index.
#[derive(Debug)]
pub struct Children {
    items: Vec<Child>,
}

impl View for Children {
    type V = Seq<Child>;

    closed spec fn view(&self) -> Seq<Child> {
        self.items@
    }
}

impl Children {
    /// The list is strictly ascending by index.  Constructors establish this
    /// and `insert`/`remove` preserve it, so it holds at every point.
    pub open spec fn wf(self) -> bool {
        children_sorted(self@)
    }

    /// An empty child list.
    pub fn new() -> (r: Children)
        ensures
            r@ =~= Seq::<Child>::empty(),
            r.wf(),
    {
        Children { items: Vec::new() }
    }

    /// Build a child list from an already-sorted vector.
    pub fn from_vec(items: Vec<Child>) -> (r: Children)
        requires
            children_sorted(items@),
        ensures
            r@ == items@,
            r.wf(),
    {
        Children { items }
    }

    pub fn count(&self) -> (r: usize)
        ensures
            r == self@.len(),
    {
        self.items.len()
    }

    pub fn is_empty(&self) -> (r: bool)
        ensures
            r == (self@.len() == 0),
    {
        self.items.is_empty()
    }

    /// The child at position `i` of the list.
    pub fn child_at(&self, i: usize) -> (r: &Child)
        requires
            i < self@.len(),
        ensures
            *r == self@[i as int],
    {
        &self.items[i]
    }

    /// Look up the child with the given index, if one exists.
    pub fn get(&self, index: Nibble) -> (r: Option<&Child>)
        requires
            self.wf(),
        ensures
            (r matches Some(c) ==> has_index(self@, index.spec_byte()) && *c == child_for(
                self@,
                index.spec_byte(),
            )),
            (r is None ==> !has_index(self@, index.spec_byte())),
    {
        let b = index.byte();
        let n = self.items.len();
        let mut i: usize = 0;
        while i < n
            invariant
                0 <= i <= n == self.items@.len(),
                children_sorted(self.items@),
                forall|k: int| 0 <= k < i ==> self.items@[k].index.spec_byte() != b,
            decreases n - i,
        {
            if self.items[i].index.byte() == b {
                proof {
                    lemma_child_at(self.items@, i as int);
                }
                return Some(&self.items[i]);
            }
            i = i + 1;
        }
        None
    }

    /// The only child of a list known to hold exactly one.  Path compression
    /// collapses a single-child internal node through this accessor; calling
    /// it on any other list is a caller error, excluded by precondition.
    pub fn get_only(&self) -> (r: &Child)
        requires
            self@.len() == 1,
        ensures
            *r == self@[0],
    {
        &self.items[0]
    }

    /// Insert a child: an entry with the same index is overwritten, any
    /// other child is kept, and the list stays strictly ascending.
    pub fn insert(&mut self, new_child: Child)
        requires
            old(self).wf(),
        ensures
            has_index(final(self)@, new_child.index.spec_byte()),
            child_for(final(self)@, new_child.index.spec_byte()) == new_child,
            forall|x: u8|
                x != new_child.index.spec_byte() ==> has_index(final(self)@, x) == has_index(
                    old(self)@,
                    x,
                ),
            forall|x: u8|
                x != new_child.index.spec_byte() && has_index(old(self)@, x) ==> child_for(
                    final(self)@,
                    x,
                ) == child_for(old(self)@, x),
            final(self).wf(),
    {
        let ghost orig: Seq<Child> = self.items@;
        let b = new_child.index.byte();
        let n = self.items.len();
        let mut pos: usize = 0;
        while pos < n
            invariant
                0 <= pos <= n == self.items@.len(),
                self.items@ == orig,
                children_sorted(orig),
                forall|k: int| 0 <= k < pos ==> orig[k].index.spec_byte() < b,
            decreases n - pos,
        {
            let cb = self.items[pos].index.byte();
            if cb == b {
                self.items.set(pos, new_child);
                proof {
                    lemma_insert_replace(orig, pos as int, new_child);
                }
                return;
            }
            if cb > b {
                self.items.insert(pos, new_child);
                proof {
                    lemma_insert_at(orig, pos as int, new_child);
                }
                return;
            }
            pos = pos + 1;
        }
        self.items.push(new_child);
        proof {
            assert(self.items@ =~= orig.insert(orig.len() as int, new_child));
            lemma_insert_at(orig, orig.len() as int, new_child);
        }
    }

    /// Remove the child with the given index, which must exist; every other
    /// child is kept and the list stays strictly ascending.
    pub fn remove(&mut self, index: Nibble)
        requires
            old(self).wf(),
            has_index(old(self)@, index.spec_byte()),
        ensures
            !has_index(final(self)@, index.spec_byte()),
            forall|x: u8|
                x != index.spec_byte() ==> has_index(final(self)@, x) == has_index(old(self)@, x),
            forall|x: u8|
                x != index.spec_byte() && has_index(old(self)@, x) ==> child_for(final(self)@, x)
                    == child_for(old(self)@, x),
            final(self).wf(),
            final(self)@.len() == old(self)@.len() - 1,
    {
        let ghost orig: Seq<Child> = self.items@;
        let b = index.byte();
        let n = self.items.len();
        let mut pos: usize = 0;
        while pos < n
            invariant
                0 <= pos <= n == self.items@.len(),
                self.items@ == orig,
                children_sorted(orig),
                has_index(orig, b),
                forall|k: int| 0 <= k < pos ==> orig[k].index.spec_byte() != b,
            decreases n - pos,
        {
            let cb = self.items[pos].index.byte();
            if cb == b {
                self.items.remove(pos);
                proof {
                    lemma_remove_at(orig, pos as int);
                }
                return;
            }
            pos = pos + 1;
        }
        proof {
            let i = index_pos(orig, b);
            assert(0 <= i < orig.len() && orig[i].index.spec_byte() == b);
            assert(false);
        }
    }
}

/// Replacing the entry at the position of an equal index keeps the list
/// sorted and changes only that index's child.
proof fn lemma_insert_replace(s: Seq<Child>, pos: int, c: Child)
    requires
        children_sorted(s),
        0 <= pos < s.len(),
        s[pos].index.spec_byte() == c.index.spec_byte(),
    ensures
        children_sorted(s.update(pos, c)),
        has_index(s.update(pos, c), c.index.spec_byte()),
        child_for(s.update(pos, c), c.index.spec_byte()) == c,
        forall|x: u8|
            x != c.index.spec_byte() ==> has_index(s.update(pos, c), x) == has_index(s, x),
        forall|x: u8|
            x != c.index.spec_byte() && has_index(s, x) ==> child_for(s.update(pos, c), x)
                == child_for(s, x),
{
    let t = s.update(pos, c);
    let b = c.index.spec_byte();
    assert(children_sorted(t));
    lemma_child_at(t, pos);
    assert forall|x: u8| x != b implies has_index(t, x) == has_index(s, x) by {
        if has_index(s, x) {
            let i = index_pos(s, x);
            assert(0 <= i < s.len() && s[i].index.spec_byte() == x);
            assert(i != pos);
            assert(t[i].index.spec_byte() == x);
            assert(has_index(t, x));
        }
        if has_index(t, x) {
            let i = index_pos(t, x);
            assert(0 <= i < t.len() && t[i].index.spec_byte() == x);
            assert(i != pos);
            assert(s[i].index.spec_byte() == x);
            assert(has_index(s, x));
        }
    }
    assert forall|x: u8| x != b && has_index(s, x) implies child_for(t, x) == child_for(s, x) by {
        let i = index_pos(s, x);
        assert(0 <= i < s.len() && s[i].index.spec_byte() == x);
        assert(i != pos);
        lemma_child_at(s, i);
        lemma_child_at(t, i);
    }
}

/// Inserting a child between its neighbours keeps the list sorted and adds
/// exactly that index.
proof fn lemma_insert_at(s: Seq<Child>, pos: int, c: Child)
    requires
        children_sorted(s),
        0 <= pos <= s.len(),
        forall|k: int| 0 <= k < pos ==> s[k].index.spec_byte() < c.index.spec_byte(),
        forall|k: int| pos <= k < s.len() ==> s[k].index.spec_byte() > c.index.spec_byte(),
    ensures
        children_sorted(s.insert(pos, c)),
        has_index(s.insert(pos, c), c.index.spec_byte()),
        child_for(s.insert(pos, c), c.index.spec_byte()) == c,
        forall|x: u8|
            x != c.index.spec_byte() ==> has_index(s.insert(pos, c), x) == has_index(s, x),
        forall|x: u8|
            x != c.index.spec_byte() && has_index(s, x) ==> child_for(s.insert(pos, c), x)
                == child_for(s, x),
{
    let t = s.insert(pos, c);
    let b = c.index.spec_byte();
    assert(t.len() == s.len() + 1);
    assert(forall|k: int| 0 <= k < pos ==> t[k] == s[k]);
    assert(t[pos] == c);
    assert(forall|k: int| pos < k < t.len() ==> t[k] == s[k - 1]);
    assert forall|i: int, j: int|
        0 <= i < j < t.len() implies t[i].index.spec_byte() < t[j].index.spec_byte() by {
        if i < pos && j > pos {
            assert(t[i] == s[i] && t[j] == s[j - 1]);
        }
    }
    lemma_child_at(t, pos);
    assert forall|x: u8| x != b implies has_index(t, x) == has_index(s, x) by {
        if has_index(s, x) {
            let i = index_pos(s, x);
            assert(0 <= i < s.len() && s[i].index.spec_byte() == x);
            if i < pos {
                assert(t[i].index.spec_byte() == x);
            } else {
                assert(t[i + 1].index.spec_byte() == x);
            }
            assert(has_index(t, x));
        }
        if has_index(t, x) {
            let i = index_pos(t, x);
            assert(0 <= i < t.len() && t[i].index.spec_byte() == x);
            assert(i != pos);
            if i < pos {
                assert(s[i].index.spec_byte() == x);
            } else {
                assert(s[i - 1].index.spec_byte() == x);
            }
            assert(has_index(s, x));
        }
    }
    assert forall|x: u8| x != b && has_index(s, x) implies child_for(t, x) == child_for(s, x) by {
        let i = index_pos(s, x);
        assert(0 <= i < s.len() && s[i].index.spec_byte() == x);
        lemma_child_at(s, i);
        if i < pos {
            lemma_child_at(t, i);
        } else {
            lemma_child_at(t, i + 1);
        }
    }
}

/// Removing the entry at a position keeps the list sorted and removes
/// exactly that index.
proof fn lemma_remove_at(s: Seq<Child>, pos: int)
    requires
        children_sorted(s),
        0 <= pos < s.len(),
    ensures
        children_sorted(s.remove(pos)),
        !has_index(s.remove(pos), s[pos].index.spec_byte()),
        forall|x: u8|
            x != s[pos].index.spec_byte() ==> has_index(s.remove(pos), x) == has_index(s, x),
        forall|x: u8|
            x != s[pos].index.spec_byte() && has_index(s, x) ==> child_for(s.remove(pos), x)
                == child_for(s, x),
{
    let t = s.remove(pos);
    let b = s[pos].index.spec_byte();
    assert(t.len() == s.len() - 1);
    assert(forall|k: int| 0 <= k < pos ==> t[k] == s[k]);
    assert(forall|k: int| pos <= k < t.len() ==> t[k] == s[k + 1]);
    assert(children_sorted(t));
    assert forall|x: u8| x != b implies has_index(t, x) == has_index(s, x) by {
        if has_index(s, x) {
            let i = index_pos(s, x);
            assert(0 <= i < s.len() && s[i].index.spec_byte() == x);
            assert(i != pos);
            if i < pos {
                assert(t[i].index.spec_byte() == x);
            } else {
                assert(t[i - 1].index.spec_byte() == x);
            }
            assert(has_index(t, x));
        }
        if has_index(t, x) {
            let i = index_pos(t, x);
            assert(0 <= i < t.len() && t[i].index.spec_byte() == x);
            if i < pos {
                assert(s[i].index.spec_byte() == x);
            } else {
                assert(s[i + 1].index.spec_byte() == x);
            }
            assert(has_index(s, x));
        }
    }
    if has_index(t, b) {
        let i = index_pos(t, b);
        assert(0 <= i < t.len() && t[i].index.spec_byte() == b);
        if i < pos {
            assert(s[i].index.spec_byte() < s[pos].index.spec_byte());
        } else {
            assert(s[pos].index.spec_byte() < s[i + 1].index.spec_byte());
        }
        assert(false);
    }
    assert forall|x: u8| x != b && has_index(s, x) implies child_for(t, x) == child_for(s, x) by {
        let i = index_pos(s, x);
        assert(0 <= i < s.len() && s[i].index.spec_byte() == x);
        lemma_child_at(s, i);
        if i < pos {
            lemma_child_at(t, i);
        } else {
            lemma_child_at(t, i - 1);
        }
    }
}

/// The bytes a leaf node feeds to the hash function:
/// `be16(len(key)) ‖ key ‖ value`.
pub open spec fn leaf_preimage(key: Seq<u8>, value: Seq<u8>) -> Seq<u8> {
    seq![(key.len() / 256) as u8, (key.len() % 256) as u8] + key + value
}

/// The bytes the child list contributes to an internal node's preimage:
/// for each child in list order, its index byte followed by its digest.
pub open spec fn children_preimage(s: Seq<Child>) -> Seq<u8>
    decreases s.len(),
{
    if s.len() == 0 {
        Seq::<u8>::empty()
    } else {
        children_preimage(s.drop_last()) + seq![s.last().index.spec_byte()] + s.last().hash@
    }
}

/// The bytes an internal node feeds to the hash function: every existing
/// child's index byte and digest in ascending index order, then the node's
/// own key and value when it carries a pair.  Absent children contribute
/// nothing: the preimage is sparse, not fixed-width.
pub open spec fn internal_preimage(children: Seq<Child>, kv: Option<LeafNode>) -> Seq<u8> {
    children_preimage(children) + (match kv {
        Some(l) => l.key@ + l.value@,
        None => Seq::<u8>::empty(),
    })
}

/// A terminal key-value pair.
#[derive(Debug)]
pub struct LeafNode {
    pub key: Vec<u8>,
    pub value: Vec<u8>,
}

impl LeafNode {
    pub fn new(key: Vec<u8>, value: Vec<u8>) -> (r: LeafNode)
        ensures
            r.key == key,
            r.value == value,
    {
        LeafNode { key, value }
    }

    /// Hash of a leaf: `H(be16(len(key)) ‖ key ‖ value)`.  The length prefix
    /// keeps `key = "foo", value = "bar"` and `key = "foob", value = "ar"`
    /// from producing the same preimage.
    pub fn hash(&self) -> (r: [u8; 32])
        requires
            self.key@.len() <= 0xFFFF,
        ensures
            r@ == blake3_of(leaf_preimage(self.key@, self.value@)),
    {
        let mut preimage: Vec<u8> = Vec::new();
        let len = self.key.len();
        preimage.push((len / 256) as u8);
        preimage.push((len % 256) as u8);
        push_bytes(&mut preimage, self.key.as_slice());
        push_bytes(&mut preimage, self.value.as_slice());
        proof {
            assert(preimage@ =~= leaf_preimage(self.key@, self.value@));
        }
        blake3_digest(preimage.as_slice())
    }
}

/// An internal node: an ordered child list and, unlike a classic radix trie,
/// possibly a key-value pair of its own, so that a prefix that is itself a
/// stored key needs no extra hop.
#[derive(Debug)]
pub struct InternalNode {
    pub children: Children,
    pub kv: Option<LeafNode>,
}

impl InternalNode {
    pub fn new(kv: LeafNode, children: Vec<Child>) -> (r: InternalNode)
        requires
            children_sorted(children@),
        ensures
            r.kv == Some(kv),
            r.children@ == children@,
    {
        InternalNode { kv: Some(kv), children: Children::from_vec(children) }
    }

    pub fn new_empty(children: Vec<Child>) -> (r: InternalNode)
        requires
            children_sorted(children@),
        ensures
            r.kv is None,
            r.children@ == children@,
    {
        InternalNode { kv: None, children: Children::from_vec(children) }
    }

    /// Hash of an internal node: `H(index₀ ‖ digest₀ ‖ … ‖ key ‖ value)`
    /// over the children that exist, in list order, and the node's own pair
    /// when present.
    pub fn hash(&self) -> (r: [u8; 32])
        ensures
            r@ == blake3_of(internal_preimage(self.children@, self.kv)),
    {
        let mut preimage: Vec<u8> = Vec::new();
        let n = self.children.count();
        let mut i: usize = 0;
        while i < n
            invariant
                0 <= i <= n == self.children@.len(),
                preimage@ == children_preimage(self.children@.take(i as int)),
            decreases n - i,
        {
            let child = self.children.child_at(i);
            preimage.push(child.index.byte());
            push_bytes(&mut preimage, &child.hash);
            proof {
                let t = self.children@.take(i + 1);
                assert(t.drop_last() =~= self.children@.take(i as int));
                assert(t.last() == self.children@[i as int]);
            }
            i = i + 1;
        }
        proof {
            assert(self.children@.take(n as int) =~= self.children@);
        }
        match &self.kv {
            Some(l) => {
                push_bytes(&mut preimage, l.key.as_slice());
                push_bytes(&mut preimage, l.value.as_slice());
                proof {
                    assert(preimage@ =~= internal_preimage(self.children@, self.kv));
                }
            },
            None => {
                proof {
                    assert(preimage@ =~= internal_preimage(self.children@, self.kv));
                }
            },
        }
        blake3_digest(preimage.as_slice())
    }
}

/// A tree node: internal or leaf.
#[derive(Debug)]
pub enum Node {
    Internal(InternalNode),
    Leaf(LeafNode),
}

/// The preimage a node hashes, by variant.
pub open spec fn node_preimage(n: Node) -> Seq<u8> {
    match n {
        Node::Internal(internal) => internal_preimage(internal.children@, internal.kv),
        Node::Leaf(leaf) => leaf_preimage(leaf.key@, leaf.value@),
    }
}

impl Node {
    /// A leaf's key length must fit the 16-bit length prefix.
    pub open spec fn hashable(self) -> bool {
        match self {
            Node::Internal(_) => true,
            Node::Leaf(leaf) => leaf.key@.len() <= 0xFFFF,
        }
    }

    /// Hash of a node, dispatching by variant.
    pub fn hash(&self) -> (r: [u8; 32])
        requires
            self.hashable(),
        ensures
            r@ == blake3_of(node_preimage(*self)),
    {
        match self {
            Node::Internal(internal_node) => internal_node.hash(),
            Node::Leaf(leaf_node) => leaf_node.hash(),
        }
    }
}

/// The leaf preimage encoding is injective: two leaves with different
/// key-value pairs feed different byte strings to the hash function, even
/// when their bare `key ‖ value` concatenations coincide.  Together with
/// `LeafNode::hash`'s contract this makes a leaf's digest a pure function
/// of its pair.
pub proof fn lemma_leaf_preimage_injective(k1: Seq<u8>, v1: Seq<u8>, k2: Seq<u8>, v2: Seq<u8>)
    requires
        k1.len() <= 0xFFFF,
        k2.len() <= 0xFFFF,
        leaf_preimage(k1, v1) == leaf_preimage(k2, v2),
    ensures
        k1 == k2,
        v1 == v2,
{
    let p1 = leaf_preimage(k1, v1);
    let p2 = leaf_preimage(k2, v2);
    assert(p1[0] == (k1.len() / 256) as u8 && p1[1] == (k1.len() % 256) as u8);
    assert(p2[0] == (k2.len() / 256) as u8 && p2[1] == (k2.len() % 256) as u8);
    assert(k1.len() / 256 == k2.len() / 256 && k1.len() % 256 == k2.len() % 256);
    assert(k1.len() == k2.len());
    assert forall|i: int| 0 <= i < k1.len() implies k1[i] == k2[i] by {
        assert(p1[2 + i] == k1[i]);
        assert(p2[2 + i] == k2[i]);
    }
    assert(k1 =~= k2);
    assert(p1.len() == p2.len());
    assert(v1.len() == v2.len());
    assert forall|i: int| 0 <= i < v1.len() implies v1[i] == v2[i] by {
        assert(p1[2 + k1.len() + i] == v1[i]);
        assert(p2[2 + k2.len() + i] == v2[i]);
    }
    assert(v1 =~= v2);
}

} // verus!
