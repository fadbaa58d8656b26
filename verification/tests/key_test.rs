use shastity::hex::{push_hex_digit, to_hex};
use shastity::kv::order::bytes_less;
use shastity::kv::{InvalidKeyError, Key};

#[test]
fn key_accepts_lowercase_hex() {
    assert_eq!(Key::new("abcdef").unwrap().as_str(), "abcdef");
    assert_eq!(Key::new("0123456789").unwrap().as_str(), "0123456789");
    assert_eq!(Key::new(String::from("0")).unwrap().as_str(), "0");
}

#[test]
fn key_rejects_empty_string() {
    assert_eq!(Key::new("").unwrap_err(), InvalidKeyError::Empty);
    assert_eq!(Key::from_string(String::new()).unwrap_err(), InvalidKeyError::Empty);
    assert_eq!(Key::from_bytes(b"").unwrap_err(), InvalidKeyError::Empty);
}

#[test]
fn key_rejects_disallowed_characters() {
    assert_eq!(Key::new("g").unwrap_err(), InvalidKeyError::InvalidCharacter);
    assert_eq!(Key::new("BBCDEF").unwrap_err(), InvalidKeyError::InvalidCharacter);
    assert_eq!(Key::new("abc ").unwrap_err(), InvalidKeyError::InvalidCharacter);
    assert_eq!(Key::new("ab\u{e9}").unwrap_err(), InvalidKeyError::InvalidCharacter);
    assert_eq!(Key::new("/").unwrap_err(), InvalidKeyError::InvalidCharacter);
    assert_eq!(Key::new(":").unwrap_err(), InvalidKeyError::InvalidCharacter);
    assert_eq!(Key::new("`").unwrap_err(), InvalidKeyError::InvalidCharacter);
}

#[test]
fn key_from_bytes_spells_the_key() {
    assert_eq!(Key::from_bytes(b"0123456789abcdef").unwrap().as_str(), "0123456789abcdef");
    assert_eq!(Key::from_bytes(b"abcdeg").unwrap_err(), InvalidKeyError::InvalidCharacter);
    assert_eq!(Key::from_bytes(&[0x30, 0x80]).unwrap_err(), InvalidKeyError::InvalidCharacter);
}

#[test]
fn key_views_agree() {
    let key = Key::new("beef01").unwrap();
    assert_eq!(key.as_bytes(), b"beef01");
    let as_ref: &str = key.as_ref();
    assert_eq!(as_ref, "beef01");
    assert_eq!(key.clone().as_str(), "beef01");
}

#[test]
fn byte_order_is_lexicographic() {
    assert!(bytes_less(b"", b"0"));
    assert!(!bytes_less(b"", b""));
    assert!(!bytes_less(b"0", b""));
    assert!(bytes_less(b"0", b"00"));
    assert!(bytes_less(b"09", b"1"));
    assert!(bytes_less(b"9", b"a"));
    assert!(!bytes_less(b"a", b"9"));
    assert!(!bytes_less(b"abc", b"abc"));
    assert!(bytes_less(b"abc", b"abd"));
}

#[test]
fn hex_text_is_lower_case_high_digit_first() {
    assert_eq!(to_hex(&[]), "");
    assert_eq!(to_hex(&[0x00, 0x0f, 0xa5, 0xff]), "000fa5ff");
    assert_eq!(to_hex(&[0x12, 0x34, 0x56, 0x78, 0x9a, 0xbc, 0xde, 0xf0]), "123456789abcdef0");
    let mut s = String::from("x");
    push_hex_digit(&mut s, 0);
    push_hex_digit(&mut s, 9);
    push_hex_digit(&mut s, 10);
    push_hex_digit(&mut s, 15);
    assert_eq!(s, "x09af");
}

#[test]
fn keys_compare_and_hash_by_value() {
    let a = Key::new("c0de").unwrap();
    let b = Key::from_bytes(b"c0de").unwrap();
    let c = Key::new("c0df").unwrap();
    assert_eq!(a, b);
    assert_ne!(a, c);
    let mut set = std::collections::HashSet::new();
    assert!(set.insert(a));
    assert!(!set.insert(b));
    assert!(set.insert(c));
    assert_eq!(set.len(), 2);
}
