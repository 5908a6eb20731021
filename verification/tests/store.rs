use cw_store::store::{Order, Storage, Store, StoreError};

/// A store whose committed state holds four pairs, with three operations
/// left pending on top of them.
fn setup_test() -> Store {
    let store = Store::new();

    // commit some key-values for testing
    let mut wrapper = store.pending_wrap();
    wrapper.set(b"key1", b"value1").unwrap();
    wrapper.set(b"key2", b"value2").unwrap();
    wrapper.set(b"key3", b"value3").unwrap();
    wrapper.set(b"key4", b"value4").unwrap();
    let mut store = wrapper.into_store();
    store.commit();

    // add some pending ops as well
    let mut wrapper = store.pending_wrap();
    wrapper.set(b"key2", b"value23456").unwrap();
    wrapper.set(b"key3333", b"value3333").unwrap();
    wrapper.remove(b"key3").unwrap();

    wrapper.into_store()
}

#[test]
fn getting() {
    let store = setup_test();

    // read values from the read-only wrapper
    let wrapper = store.wrap();
    assert_eq!(wrapper.get(b"key1"), Some(b"value1".to_vec()));
    assert_eq!(wrapper.get(b"key2"), Some(b"value2".to_vec()));
    assert_eq!(wrapper.get(b"key3"), Some(b"value3".to_vec()));
    assert_eq!(wrapper.get(b"key3333"), None);

    // read values from the pending wrapper
    let wrapper = store.pending_wrap();
    assert_eq!(wrapper.get(b"key1"), Some(b"value1".to_vec()));
    assert_eq!(wrapper.get(b"key2"), Some(b"value23456".to_vec()));
    assert_eq!(wrapper.get(b"key3"), None);
    assert_eq!(wrapper.get(b"key3333"), Some(b"value3333".to_vec()));
}

#[test]
fn committing() {
    let mut store = setup_test();

    store.commit();

    let wrapper = store.wrap();
    assert_eq!(wrapper.get(b"key1"), Some(b"value1".to_vec()));
    assert_eq!(wrapper.get(b"key2"), Some(b"value23456".to_vec()));
    assert_eq!(wrapper.get(b"key3"), None);
    assert_eq!(wrapper.get(b"key3333"), Some(b"value3333".to_vec()));

    // after committing, the pending ops should have been cleared
    assert!(store.pending_is_empty());
}

#[test]
fn illegal_set() {
    let store = setup_test();

    let mut wrapper = store.wrap();
    assert_eq!(wrapper.set(b"should", b"panic"), Err(StoreError::ReadOnly));

    // the rejected write must not have touched the store
    assert_eq!(store.wrap().get(b"should"), None);
}

#[test]
fn illegal_remove() {
    let store = setup_test();

    let mut wrapper = store.wrap();
    assert_eq!(wrapper.remove(b"key2"), Err(StoreError::ReadOnly));

    // the rejected delete must not have touched the store
    assert_eq!(store.wrap().get(b"key2"), Some(b"value2".to_vec()));
}

#[test]
fn iterating() {
    let store = setup_test();

    let mut kv = vec![
        (b"key1".to_vec(), b"value1".to_vec()),
        (b"key2".to_vec(), b"value2".to_vec()),
        (b"key3".to_vec(), b"value3".to_vec()),
        (b"key4".to_vec(), b"value4".to_vec()),
    ];

    // iterating with no bound and in ascending order
    let items = store.wrap().range(None, None, Order::Ascending);
    assert_eq!(items, kv);

    // iterating with bounds and in ascending order
    // NOTE: lower bound is inclusive, upper bound in exclusive
    let items = store.wrap().range(Some(b"key1234"), Some(b"key4"), Order::Ascending);
    assert_eq!(items, &kv[1..3]);

    kv.reverse();

    // iterating with no bound and in descending order
    let items = store.wrap().range(None, None, Order::Descending);
    assert_eq!(items, kv);

    // iterating with bounds and in descending order
    let items = store.wrap().range(Some(b"key1234"), Some(b"key4"), Order::Descending);
    assert_eq!(items, &kv[1..3]);
}

#[test]
fn iterating_pending() {
    let store = setup_test();
    let wrapper = store.pending_wrap();

    let mut kv = vec![
        (b"key1".to_vec(), b"value1".to_vec()),
        (b"key2".to_vec(), b"value23456".to_vec()),
        (b"key3333".to_vec(), b"value3333".to_vec()),
        (b"key4".to_vec(), b"value4".to_vec()),
    ];

    // iterating with no bound and in ascending order
    let items = wrapper.range(None, None, Order::Ascending);
    assert_eq!(items, kv);

    // iterating with bounds and in ascending order
    // NOTE: lower bound is inclusive, upper bound in exclusive
    let items = wrapper.range(Some(b"key1234"), Some(b"key4"), Order::Ascending);
    assert_eq!(items, &kv[1..3]);

    kv.reverse();

    // iterating with no bound and in descending order
    let items = wrapper.range(None, None, Order::Descending);
    assert_eq!(items, kv);

    // iterating with bounds and in descending order
    let items = wrapper.range(Some(b"key1234"), Some(b"key4"), Order::Descending);
    assert_eq!(items, &kv[1..3]);
}

#[test]
fn invalid_bounds_yield_nothing() {
    let store = setup_test();

    // start beyond end: empty under both views and both orders
    let items = store.wrap().range(Some(b"key4"), Some(b"key1"), Order::Ascending);
    assert_eq!(items, Vec::<(Vec<u8>, Vec<u8>)>::new());
    let items = store.wrap().range(Some(b"key4"), Some(b"key1"), Order::Descending);
    assert_eq!(items, Vec::<(Vec<u8>, Vec<u8>)>::new());

    let wrapper = store.pending_wrap();
    let items = wrapper.range(Some(b"key4"), Some(b"key1"), Order::Ascending);
    assert_eq!(items, Vec::<(Vec<u8>, Vec<u8>)>::new());
    let items = wrapper.range(Some(b"key4"), Some(b"key1"), Order::Descending);
    assert_eq!(items, Vec::<(Vec<u8>, Vec<u8>)>::new());
}

#[test]
fn empty_equal_bounds_yield_nothing() {
    let store = setup_test();
    let items = store.wrap().range(Some(b"key2"), Some(b"key2"), Order::Ascending);
    assert_eq!(items, Vec::<(Vec<u8>, Vec<u8>)>::new());
}

#[test]
fn root_hash_ignores_pending_ops() {
    let mut store = Store::new();
    let empty_root = store.root_hash();

    let mut wrapper = store.pending_wrap();
    wrapper.set(b"key1", b"value1").unwrap();
    let mut store = wrapper.into_store();

    // pending ops never affect the committed root
    assert_eq!(store.root_hash(), empty_root);

    // committing them does
    store.commit();
    assert_ne!(store.root_hash(), empty_root);
}

#[test]
fn root_hash_depends_on_contents_alone() {
    // the same pairs committed in different orders and batches summarize
    // to the same root
    let mut a = Store::new();
    let mut wrapper = a.pending_wrap();
    wrapper.set(b"key1", b"value1").unwrap();
    wrapper.set(b"key2", b"value2").unwrap();
    a = wrapper.into_store();
    a.commit();

    let mut b = Store::new();
    let mut wrapper = b.pending_wrap();
    wrapper.set(b"key2", b"value2").unwrap();
    b = wrapper.into_store();
    b.commit();
    let mut wrapper = b.pending_wrap();
    wrapper.set(b"key1", b"value1").unwrap();
    b = wrapper.into_store();
    b.commit();

    assert_eq!(a.root_hash(), b.root_hash());
}

#[test]
fn root_hash_matches_direct_digest() {
    // the root is the hash of the concatenated leaf digests in ascending
    // key order, computed independently here
    let mut store = Store::new();
    let mut wrapper = store.pending_wrap();
    wrapper.set(b"key2", b"value2").unwrap();
    wrapper.set(b"key1", b"value1").unwrap();
    store = wrapper.into_store();
    store.commit();

    let mut leaves: Vec<u8> = Vec::new();
    for (key, value) in [(b"key1", b"value1"), (b"key2", b"value2")] {
        let mut preimage: Vec<u8> = Vec::new();
        preimage.extend_from_slice(&(key.len() as u16).to_be_bytes());
        preimage.extend_from_slice(key);
        preimage.extend_from_slice(value);
        leaves.extend_from_slice(blake3::hash(&preimage).as_bytes());
    }
    let expected = *blake3::hash(&leaves).as_bytes();
    assert_eq!(store.root_hash(), expected);
}

#[test]
fn later_pending_writes_shadow_earlier_ones() {
    let store = Store::new();
    let mut wrapper = store.pending_wrap();
    wrapper.set(b"key1", b"first").unwrap();
    wrapper.set(b"key1", b"second").unwrap();
    assert_eq!(wrapper.get(b"key1"), Some(b"second".to_vec()));

    wrapper.remove(b"key1").unwrap();
    assert_eq!(wrapper.get(b"key1"), None);

    wrapper.set(b"key1", b"third").unwrap();
    assert_eq!(wrapper.get(b"key1"), Some(b"third".to_vec()));
}
