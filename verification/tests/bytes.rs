use cw_store::bytes::{compare, KeyCmp};

#[test]
fn compare_orders_byte_strings() {
    assert!(matches!(compare(b"abc", b"abd"), KeyCmp::Less));
    assert!(matches!(compare(b"abd", b"abc"), KeyCmp::Greater));
    assert!(matches!(compare(b"abc", b"abc"), KeyCmp::Equal));
}

#[test]
fn prefix_comes_first() {
    assert!(matches!(compare(b"key1", b"key1234"), KeyCmp::Less));
    assert!(matches!(compare(b"key1234", b"key1"), KeyCmp::Greater));
    assert!(matches!(compare(b"", b"a"), KeyCmp::Less));
    assert!(matches!(compare(b"", b""), KeyCmp::Equal));
}
