use shastity::kv::mem::MemWeakStore;
use shastity::kv::{Cursor, Key, WeakStore};

fn k(s: &str) -> Key {
    Key::new(s).unwrap()
}

fn test_weak_get(store: &mut dyn WeakStore) {
    match store.weak_get(&k("abc")) {
        Ok(Some(_)) => panic!("store should have been empty"),
        Ok(None) => (),
        Err(e) => panic!("weak_get should have succeeded: {}", e.message()),
    };
}

fn test_weak_put(store: &mut dyn WeakStore) {
    match store.weak_put(&k("abc"), "v".as_bytes()) {
        Ok(()) => (),
        Err(e) => panic!("weak_put should have succeeded: {}", e.message()),
    }

    match store.weak_get(&k("abc")) {
        Ok(Some(_)) => (),
        Ok(None) => panic!("key should have existed"),
        Err(e) => panic!("weak_get should have succeeded: {}", e.message()),
    };
}

fn test_weak_exists(store: &mut dyn WeakStore) {
    match store.weak_exists(&k("abc")) {
        Ok(true) => panic!("key should not have existed"),
        Ok(false) => (),
        Err(e) => panic!("weak_exists should have succeeded: {}", e.message()),
    }

    match store.weak_put(&k("abc"), "v".as_bytes()) {
        Ok(()) => (),
        Err(e) => panic!("weak_put should have succeeded: {}", e.message()),
    }

    match store.weak_exists(&k("abc")) {
        Ok(true) => (),
        Ok(false) => panic!("key should have existed"),
        Err(e) => panic!("weak_exists should have succeeded: {}", e.message()),
    }
}

fn test_weak_delete(store: &mut dyn WeakStore) {
    match store.weak_put(&k("abc"), "v".as_bytes()) {
        Ok(()) => (),
        Err(e) => panic!("weak_put should have succeeded: {}", e.message()),
    }

    match store.weak_exists(&k("abc")) {
        Ok(true) => (),
        Ok(false) => panic!("key should have existed"),
        Err(e) => panic!("weak_exists should have succeeded: {}", e.message()),
    }

    match store.weak_delete(&k("abc")) {
        Ok(()) => (),
        Err(e) => panic!("weak_delete should have succeeded: {}", e.message()),
    }

    match store.weak_exists(&k("abc")) {
        Ok(true) => panic!("key should not have existed"),
        Ok(false) => (),
        Err(e) => panic!("weak_exists should not have failed: {}", e.message()),
    }
}

#[test]
fn test() {
    test_weak_get(&mut MemWeakStore::new());
    test_weak_put(&mut MemWeakStore::new());
    test_weak_exists(&mut MemWeakStore::new());
    test_weak_delete(&mut MemWeakStore::new());
}

#[test]
fn weak_round_trip_returns_the_value_put() {
    let mut store = MemWeakStore::new();
    store.weak_put(&k("0a1b"), &[1, 2, 3]).unwrap();
    assert_eq!(store.weak_get(&k("0a1b")).unwrap(), Some(vec![1, 2, 3]));
    assert_eq!(store.weak_exists(&k("0a1b")).unwrap(), true);
    assert_eq!(store.weak_get(&k("0a1c")).unwrap(), None);
}

#[test]
fn weak_put_on_the_same_key_replaces_the_value() {
    let mut store = MemWeakStore::new();
    store.weak_put(&k("ff"), b"old").unwrap();
    store.weak_put(&k("ff"), b"new").unwrap();
    assert_eq!(store.weak_get(&k("ff")).unwrap(), Some(b"new".to_vec()));
}

#[test]
fn weak_delete_removes_only_the_key_given() {
    let mut store = MemWeakStore::new();
    store.weak_put(&k("aa"), b"1").unwrap();
    store.weak_put(&k("bb"), b"2").unwrap();
    store.weak_delete(&k("aa")).unwrap();
    assert_eq!(store.weak_exists(&k("aa")).unwrap(), false);
    assert_eq!(store.weak_get(&k("bb")).unwrap(), Some(b"2".to_vec()));
    store.weak_delete(&k("cc")).unwrap();
    assert_eq!(store.weak_get(&k("bb")).unwrap(), Some(b"2".to_vec()));
}

fn names(keys: &[Key]) -> Vec<String> {
    keys.iter().map(|key| key.as_str().to_string()).collect()
}

#[test]
fn iteration_reports_every_key_in_pages() {
    let mut store = MemWeakStore::new();
    for name in ["c0", "a", "b1", "00", "ff", "a0", "0"] {
        store.weak_put(&k(name), name.as_bytes()).unwrap();
    }
    let mut seen: Vec<String> = Vec::new();
    let mut cursor: Option<Cursor> = None;
    let mut steps = 0;
    loop {
        let page = store.weak_iter(cursor, 3).unwrap();
        assert!(page.keys.len() <= 3);
        seen.extend(names(&page.keys));
        steps += 1;
        match page.cursor {
            Some(c) => cursor = Some(c),
            None => break,
        }
    }
    assert_eq!(steps, 3);
    assert_eq!(seen, vec!["0", "00", "a", "a0", "b1", "c0", "ff"]);
}

#[test]
fn iteration_pages_are_exact() {
    let mut store = MemWeakStore::new();
    for name in ["1", "2", "3", "4"] {
        store.weak_put(&k(name), b"").unwrap();
    }
    let first = store.weak_iter(None, 2).unwrap();
    assert_eq!(names(&first.keys), vec!["1", "2"]);
    let cursor = first.cursor.unwrap();
    assert_eq!(cursor.as_bytes(), b"2");
    let second = store.weak_iter(Some(cursor), 2).unwrap();
    assert_eq!(names(&second.keys), vec!["3", "4"]);
    assert!(second.cursor.is_none());
}

#[test]
fn iteration_of_an_empty_store_is_complete_at_once() {
    let mut store = MemWeakStore::new();
    let page = store.weak_iter(None, 10).unwrap();
    assert!(page.keys.is_empty());
    assert!(page.cursor.is_none());
    let page = store.weak_iter(None, 0).unwrap();
    assert!(page.keys.is_empty());
    assert!(page.cursor.is_none());
}

#[test]
fn iteration_with_no_room_keeps_its_place() {
    let mut store = MemWeakStore::new();
    store.weak_put(&k("a"), b"").unwrap();
    store.weak_put(&k("b"), b"").unwrap();
    let page = store.weak_iter(None, 0).unwrap();
    assert!(page.keys.is_empty());
    let cursor = page.cursor.unwrap();
    assert_eq!(cursor.as_bytes(), b"");
    let page = store.weak_iter(Some(cursor), 1).unwrap();
    assert_eq!(names(&page.keys), vec!["a"]);
    let cursor = page.cursor.unwrap();
    let page = store.weak_iter(Some(Cursor::from_bytes(cursor.into_bytes())), 0).unwrap();
    assert!(page.keys.is_empty());
    assert_eq!(page.cursor.unwrap().as_bytes(), b"a");
}

#[test]
fn iteration_survives_writes_between_steps() {
    let mut store = MemWeakStore::new();
    for name in ["10", "20", "30", "40"] {
        store.weak_put(&k(name), b"").unwrap();
    }
    let first = store.weak_iter(None, 2).unwrap();
    assert_eq!(names(&first.keys), vec!["10", "20"]);
    store.weak_delete(&k("20")).unwrap();
    store.weak_put(&k("05"), b"").unwrap();
    store.weak_put(&k("35"), b"").unwrap();
    let second = store.weak_iter(first.cursor, 10).unwrap();
    assert_eq!(names(&second.keys), vec!["30", "35", "40"]);
    assert!(second.cursor.is_none());
}

#[test]
fn cursor_round_trips_through_bytes() {
    let cursor = Cursor::from_bytes(vec![0x61, 0x62]);
    assert_eq!(cursor.as_bytes(), b"ab");
    assert_eq!(cursor.into_bytes(), vec![0x61, 0x62]);
}
