use shastity::kv::mem::MemWeakStore;
use shastity::kv::{bytes_equal, swap_allowed, ErrorKind, Key, Store, StoreError};

fn key(s: &str) -> Key {
    Key::new(s).unwrap()
}

#[test]
fn put_is_visible_at_once() {
    let mut store = MemWeakStore::new();
    store.put(&key("abc"), b"v").unwrap();
    assert_eq!(store.get(&key("abc")).unwrap(), Some(b"v".to_vec()));
    assert_eq!(store.contains_key(&key("abc")).unwrap(), true);
    assert_eq!(store.contains_key(&key("abd")).unwrap(), false);
    assert_eq!(store.get(&key("abd")).unwrap(), None);
}

#[test]
fn put_overwrites() {
    let mut store = MemWeakStore::new();
    store.put(&key("1"), b"one").unwrap();
    store.put(&key("1"), b"uno").unwrap();
    assert_eq!(store.get(&key("1")).unwrap(), Some(b"uno".to_vec()));
}

#[test]
fn compare_and_swap_sequence() {
    let mut store = MemWeakStore::new();
    assert!(store.put_if(b"c0ffee", None, b"v1").is_ok());
    assert_eq!(store.get(&key("c0ffee")).unwrap(), Some(b"v1".to_vec()));

    let second = store.put_if(b"c0ffee", None, b"v2");
    assert_eq!(second.unwrap_err().kind, ErrorKind::Permanent);
    assert_eq!(store.get(&key("c0ffee")).unwrap(), Some(b"v1".to_vec()));

    assert!(store.put_if(b"c0ffee", Some(b"v1"), b"v2").is_ok());
    assert_eq!(store.get(&key("c0ffee")).unwrap(), Some(b"v2".to_vec()));

    let stale = store.put_if(b"c0ffee", Some(b"v1"), b"v3");
    assert_eq!(stale.unwrap_err().kind, ErrorKind::Permanent);
    assert_eq!(store.get(&key("c0ffee")).unwrap(), Some(b"v2".to_vec()));
}

#[test]
fn compare_and_swap_expecting_a_value_of_an_absent_key_fails() {
    let mut store = MemWeakStore::new();
    let r = store.put_if(b"ab", Some(b"x"), b"y");
    assert_eq!(r.unwrap_err().kind, ErrorKind::Permanent);
    assert_eq!(store.contains_key(&key("ab")).unwrap(), false);
}

#[test]
fn compare_and_swap_rejects_malformed_keys() {
    let mut store = MemWeakStore::new();
    let empty = store.put_if(b"", None, b"v").unwrap_err();
    assert_eq!(empty.kind, ErrorKind::Permanent);
    assert!(empty.cause.is_none());
    assert_eq!(store.put_if(b"XYZ", None, b"v").unwrap_err().kind, ErrorKind::Permanent);
    assert_eq!(store.put_if(&[0x61, 0xff], None, b"v").unwrap_err().kind, ErrorKind::Permanent);
}

#[test]
fn swap_allowed_compares_presence_and_bytes() {
    assert!(swap_allowed(&None, None));
    assert!(!swap_allowed(&None, Some(b"a")));
    assert!(!swap_allowed(&Some(b"a".to_vec()), None));
    assert!(swap_allowed(&Some(b"a".to_vec()), Some(b"a")));
    assert!(!swap_allowed(&Some(b"a".to_vec()), Some(b"b")));
    assert!(swap_allowed(&Some(Vec::new()), Some(b"")));
}

#[test]
fn bytes_equal_compares_content() {
    assert!(bytes_equal(b"", b""));
    assert!(bytes_equal(b"abc", b"abc"));
    assert!(!bytes_equal(b"abc", b"abd"));
    assert!(!bytes_equal(b"abc", b"ab"));
}

#[test]
fn store_error_messages() {
    assert_eq!(StoreError::transient(None).message(), "transient store error");
    assert_eq!(StoreError::permanent(None).message(), "permanent store error");
    assert_eq!(
        StoreError::transient(Some("timed out".to_string())).message(),
        "transient store error caused by: timed out"
    );
    assert!(StoreError::transient(None).is_transient());
    assert!(!StoreError::permanent(None).is_transient());
    assert_eq!(StoreError::permanent(Some("x".to_string())).cause, Some("x".to_string()));
}

#[test]
fn inherent_operations_agree_with_the_interfaces() {
    let mut store = MemWeakStore::new();
    store.set(&key("b"), b"2");
    store.set(&key("a"), b"1");
    assert!(store.holds(&key("a")));
    assert_eq!(store.value_of(&key("b")), Some(b"2".to_vec()));
    store.unset(&key("a"));
    assert!(!store.holds(&key("a")));
    assert_eq!(store.value_of(&key("a")), None);
    let page = store.page(None, 5);
    assert_eq!(page.keys.len(), 1);
    assert_eq!(page.keys[0].as_str(), "b");
    assert!(page.cursor.is_none());
}
