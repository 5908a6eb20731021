use cw_store::node::{Child, Children, InternalNode, LeafNode, Nibble, Node};

fn child(index: u8, version: u64, hash: [u8; 32]) -> Child {
    Child { index: Nibble::new(index), version, hash }
}

#[test]
fn leaf_hash_matches_direct_digest() {
    // hash(be16(len(key)) ‖ key ‖ value), computed independently
    let leaf = LeafNode::new(b"foo".to_vec(), b"bar".to_vec());
    let mut preimage: Vec<u8> = Vec::new();
    preimage.extend_from_slice(&3u16.to_be_bytes());
    preimage.extend_from_slice(b"foo");
    preimage.extend_from_slice(b"bar");
    let expected = *blake3::hash(&preimage).as_bytes();
    assert_eq!(leaf.hash(), expected);
}

#[test]
fn leaf_hash_distinguishes_shifted_pairs() {
    // "foo"/"bar" and "foob"/"ar" concatenate to the same bytes; the
    // length prefix must keep their digests apart
    let a = LeafNode::new(b"foo".to_vec(), b"bar".to_vec());
    let b = LeafNode::new(b"foob".to_vec(), b"ar".to_vec());
    assert_ne!(a.hash(), b.hash());
}

#[test]
fn leaf_hash_is_deterministic() {
    let a = LeafNode::new(b"foo".to_vec(), b"bar".to_vec());
    let b = LeafNode::new(b"foo".to_vec(), b"bar".to_vec());
    assert_eq!(a.hash(), b.hash());
}

#[test]
fn internal_hash_matches_direct_digest() {
    // hash(index0 ‖ digest0 ‖ index1 ‖ digest1 ‖ key ‖ value), computed
    // independently
    let d0 = [7u8; 32];
    let d1 = [9u8; 32];
    let node = InternalNode::new(
        LeafNode::new(b"ke".to_vec(), b"va".to_vec()),
        vec![child(2, 1, d0), child(11, 4, d1)],
    );
    let mut preimage: Vec<u8> = Vec::new();
    preimage.push(2);
    preimage.extend_from_slice(&d0);
    preimage.push(11);
    preimage.extend_from_slice(&d1);
    preimage.extend_from_slice(b"ke");
    preimage.extend_from_slice(b"va");
    let expected = *blake3::hash(&preimage).as_bytes();
    assert_eq!(node.hash(), expected);
}

#[test]
fn internal_hash_skips_missing_kv() {
    let d0 = [7u8; 32];
    let with_kv = InternalNode::new(
        LeafNode::new(b"ke".to_vec(), b"va".to_vec()),
        vec![child(2, 1, d0)],
    );
    let without_kv = InternalNode::new_empty(vec![child(2, 1, d0)]);
    assert_ne!(with_kv.hash(), without_kv.hash());

    let mut preimage: Vec<u8> = Vec::new();
    preimage.push(2);
    preimage.extend_from_slice(&d0);
    assert_eq!(without_kv.hash(), *blake3::hash(&preimage).as_bytes());
}

#[test]
fn node_hash_dispatches_by_variant() {
    let leaf = LeafNode::new(b"foo".to_vec(), b"bar".to_vec());
    let expected = leaf.hash();
    assert_eq!(Node::Leaf(leaf).hash(), expected);

    let internal = InternalNode::new_empty(vec![child(5, 3, [1u8; 32])]);
    let expected = internal.hash();
    assert_eq!(Node::Internal(internal).hash(), expected);
}

#[test]
fn children_insert_keeps_ascending_order() {
    let mut children = Children::new();
    assert!(children.is_empty());

    children.insert(child(9, 1, [1u8; 32]));
    children.insert(child(2, 1, [2u8; 32]));
    children.insert(child(12, 1, [3u8; 32]));
    children.insert(child(5, 1, [4u8; 32]));

    assert_eq!(children.count(), 4);
    assert!(!children.is_empty());
    let indexes: Vec<u8> = (0..children.count()).map(|i| children.child_at(i).index.byte()).collect();
    assert_eq!(indexes, vec![2, 5, 9, 12]);
}

#[test]
fn children_insert_overwrites_matching_index() {
    let mut children = Children::new();
    children.insert(child(3, 1, [1u8; 32]));
    children.insert(child(7, 1, [2u8; 32]));
    children.insert(child(3, 8, [9u8; 32]));

    assert_eq!(children.count(), 2);
    let found = children.get(Nibble::new(3)).expect("child must exist");
    assert_eq!(found.version, 8);
    assert_eq!(found.hash, [9u8; 32]);
}

#[test]
fn children_get_and_remove() {
    let mut children = Children::new();
    children.insert(child(1, 1, [1u8; 32]));
    children.insert(child(4, 2, [2u8; 32]));
    children.insert(child(8, 3, [3u8; 32]));

    assert!(children.get(Nibble::new(4)).is_some());
    assert!(children.get(Nibble::new(5)).is_none());

    children.remove(Nibble::new(4));
    assert_eq!(children.count(), 2);
    assert!(children.get(Nibble::new(4)).is_none());

    let indexes: Vec<u8> = (0..children.count()).map(|i| children.child_at(i).index.byte()).collect();
    assert_eq!(indexes, vec![1, 8]);
}

#[test]
fn children_get_only() {
    let mut children = Children::new();
    children.insert(child(6, 2, [5u8; 32]));
    let only = children.get_only();
    assert_eq!(only.index.byte(), 6);
    assert_eq!(only.version, 2);
}
