use shastity::hex::to_hex;
use shastity::kv::mem::MemWeakStore;
use shastity::kv::{ErrorKind, Key, StoreError, WeakStore};
use shastity::odb::sha256::{
    big_sigma0, big_sigma1, choose_bits, compress_block, digest, initial_registers, majority,
    rotr, round, small_sigma0, small_sigma1, word_of,
};
use shastity::odb::{get_outcome, identify, put_outcome, Content, KvOdb, Odb, OdbError};

fn sha(message: &[u8]) -> String {
    to_hex(&digest(message))
}

#[test]
fn digest_of_known_messages() {
    assert_eq!(sha(b""), "e3b0c44298fc1c149afbf4c8996fb92427ae41e4649b934ca495991b7852b855");
    assert_eq!(sha(b"abc"), "ba7816bf8f01cfea414140de5dae2223b00361a396177a9cb410ff61f20015ad");
    assert_eq!(
        sha(b"abcdbcdecdefdefgefghfghighijhijkijkljklmklmnlmnomnopnopq"),
        "248d6a61d20638b8e5c026930c3e6039a33ce45964ff2167f6ecedd419db06c1"
    );
    assert_eq!(
        sha(b"The quick brown fox jumps over the lazy dog"),
        "d7a8fbb307d7809469ca9abcb0082e4f8d5651e46d3cdb762d02d0bf37c9e592"
    );
    let all: Vec<u8> = (0..=255u8).collect();
    assert_eq!(sha(&all), "40aff2e9d2d8922e47afd4648e6967497158785fbd1da870e7110266bf944880");
}

#[test]
fn digest_around_the_block_boundaries() {
    assert_eq!(sha(&[b'a'; 55]), "9f4390f8d30c2dd92ec9f095b65e2b9ae9b0a925a5258e241c9f1e910f734318");
    assert_eq!(sha(&[b'a'; 56]), "b35439a4ac6f0948b6d6f9e3c6af0f5f590ce20f1bde7090ef7970686ec6738a");
    assert_eq!(sha(&[b'a'; 63]), "7d3e74a05d7db15bce4ad9ec0658ea98e3f06eeecf16b4c6fff2da457ddc2f34");
    assert_eq!(sha(&[b'a'; 64]), "ffe054fe7ae0cb6dc65c3af9b61d5209f439851db43d0ba5997337df154668eb");
    assert_eq!(sha(&[b'a'; 65]), "635361c48bb9eab14198e76ea8ab7f1a41685d6ad62aa9146d301d4f17eb0ae0");
    assert_eq!(sha(&[b'a'; 119]), "31eba51c313a5c08226adf18d4a359cfdfd8d2e816b13f4af952f7ea6584dcfb");
    assert_eq!(sha(&[b'a'; 120]), "2f3d335432c70b580af0e8e1b3674a7c020d683aa5f73aaaedfdc55af904c21c");
}

#[test]
fn digest_of_a_million_bytes() {
    let message = vec![b'a'; 1_000_000];
    assert_eq!(sha(&message), "cdc76e5c9914fb9281a1c7e284d73e67f1809a48a497200e046d39ccc7112cd0");
}

#[test]
fn digest_building_blocks() {
    assert_eq!(rotr(0x0000_0001, 1), 0x8000_0000);
    assert_eq!(rotr(0x1234_5678, 8), 0x7812_3456);
    assert_eq!(choose_bits(0xff00_ff00, 0x1234_5678, 0x9abc_def0), 0x12bc_56f0);
    assert_eq!(majority(0xff00_0000, 0x0ff0_0000, 0x00ff_0000), 0x0ff0_0000);
    assert_eq!(big_sigma0(1), 0x4008_0400);
    assert_eq!(big_sigma1(1), 0x0420_0080);
    assert_eq!(small_sigma0(0x8000_0000), 0x1100_2000);
    assert_eq!(small_sigma1(0x8000_0000), 0x0020_5000);
    assert_eq!(word_of(0x01, 0x02, 0x03, 0x04), 0x0102_0304);
    let first = initial_registers();
    assert_eq!(first.a, 0x6a09e667);
    assert_eq!(first.h, 0x5be0cd19);
    let next = round(first, 0x428a2f98, 0x6162_6380);
    assert_eq!(next.b, first.a);
    assert_eq!(next.h, first.g);
    assert_eq!(next.a, 0x5d6a_ebcd);
    assert_eq!(next.e, 0xfa2a_4622);
    let mut block = [0u8; 64];
    block[0] = 0x80;
    let out = compress_block(first, &block);
    assert_eq!(out.a, 0xe3b0_c442);
    assert_eq!(out.h, 0x7852_b855);
}

fn odb() -> KvOdb<MemWeakStore> {
    KvOdb::new(MemWeakStore::new())
}

#[test]
fn identify_is_the_hex_digest() {
    let oid = identify(b"abc").unwrap();
    assert_eq!(oid.as_str(), "ba7816bf8f01cfea414140de5dae2223b00361a396177a9cb410ff61f20015ad");
    assert_eq!(oid.as_key().as_str(), oid.as_str());
    let empty = KvOdb::<MemWeakStore>::identify_object(&Content::new(Vec::new())).unwrap();
    assert_eq!(
        empty.as_str(),
        "e3b0c44298fc1c149afbf4c8996fb92427ae41e4649b934ca495991b7852b855"
    );
}

#[test]
fn identify_is_deterministic() {
    let first = KvOdb::<MemWeakStore>::identify_object(&Content::new(b"hello".to_vec())).unwrap();
    let second = KvOdb::<MemWeakStore>::identify_object(&Content::new(b"hello".to_vec())).unwrap();
    assert_eq!(first, second);
    assert_eq!(first.clone(), second);
    assert_eq!(
        first.as_str(),
        "2cf24dba5fb0a30e26e83b2ac5b9e29e1b161e5c1fa7425e73043362938b9824"
    );
    let other = KvOdb::<MemWeakStore>::identify_object(&Content::new(b"hellp".to_vec())).unwrap();
    assert_ne!(first, other);
}

#[test]
fn put_then_get_returns_the_content() {
    let mut odb = odb();
    let content = Content::new(b"some object".to_vec());
    let oid = odb.put_object(&content).unwrap();
    let same = KvOdb::<MemWeakStore>::identify_object(&content).unwrap();
    assert_eq!(oid, same);
    let back = odb.get_object(&same).unwrap();
    assert_eq!(back.as_bytes(), b"some object");
    assert_eq!(back.into_bytes(), b"some object".to_vec());
}

#[test]
fn put_twice_is_harmless() {
    let mut odb = odb();
    let content = Content::new(vec![1, 2, 3, 4]);
    let first = odb.put_object(&content).unwrap();
    assert_eq!(odb.get_object(&first).unwrap().as_bytes(), &[1, 2, 3, 4]);
    let second = odb.put_object(&content).unwrap();
    assert_eq!(first, second);
    assert_eq!(odb.get_object(&second).unwrap().as_bytes(), &[1, 2, 3, 4]);
    let page = odb.store.weak_iter(None, 10).unwrap();
    assert_eq!(page.keys.len(), 1);
    assert_eq!(page.keys[0].as_str(), first.as_str());
}

#[test]
fn get_of_an_unknown_object_fails_permanently() {
    let mut odb = odb();
    let oid = identify(b"never stored").unwrap();
    let e = odb.get_object(&oid).unwrap_err();
    assert_eq!(e.kind(), ErrorKind::Permanent);
    assert!(e.cause.is_none());
    assert!(e.source().is_none());
    assert_eq!(e.message(), "OdbError");
}

#[test]
fn get_refuses_content_that_does_not_match_its_identifier() {
    let mut odb = odb();
    let oid = odb.put_object(&Content::new(b"genuine".to_vec())).unwrap();
    odb.store.weak_put(oid.as_key(), b"tampered").unwrap();
    let e = odb.get_object(&oid).unwrap_err();
    assert_eq!(e.kind(), ErrorKind::Permanent);
    assert!(e.cause.is_none());
}

#[test]
fn deleting_from_the_store_removes_the_object() {
    let mut odb = odb();
    let oid = odb.put_object(&Content::new(b"x".to_vec())).unwrap();
    odb.store.weak_delete(oid.as_key()).unwrap();
    assert!(odb.get_object(&oid).is_err());
}

#[test]
fn outcomes_follow_the_store_answer() {
    let oid = identify(b"abc").unwrap();
    assert_eq!(put_outcome(oid.clone(), Ok(())).unwrap(), oid);
    let e = put_outcome(oid.clone(), Err(StoreError::transient(None))).unwrap_err();
    assert_eq!(e.kind(), ErrorKind::Transient);
    assert_eq!(e.source().unwrap().kind, ErrorKind::Transient);
    assert_eq!(e.message(), "OdbError caused by: transient store error");

    assert_eq!(get_outcome(&oid, Ok(Some(b"abc".to_vec()))).unwrap().as_bytes(), b"abc");
    let mismatch = get_outcome(&oid, Ok(Some(b"abd".to_vec()))).unwrap_err();
    assert!(mismatch.cause.is_none());
    let missing = get_outcome(&oid, Ok(None)).unwrap_err();
    assert!(missing.cause.is_none());
    assert_eq!(missing.kind(), ErrorKind::Permanent);
    let failed = get_outcome(&oid, Err(StoreError::permanent(Some("disk".to_string())))).unwrap_err();
    assert_eq!(failed.kind(), ErrorKind::Permanent);
    assert_eq!(failed.message(), "OdbError caused by: permanent store error caused by: disk");
}

#[test]
fn odb_error_without_a_cause_is_permanent() {
    let e = OdbError { cause: None };
    assert_eq!(e.kind(), ErrorKind::Permanent);
    let e = OdbError { cause: Some(StoreError::transient(None)) };
    assert_eq!(e.kind(), ErrorKind::Transient);
}

#[test]
fn object_identifiers_are_keys() {
    let oid = identify(&[0u8; 100]).unwrap();
    assert_eq!(oid.as_str().len(), 64);
    assert!(Key::new(oid.as_str()).is_ok());
    assert_eq!(Key::hex_of(&[0xde, 0xad]).unwrap().as_str(), "dead");
    assert!(Key::hex_of(&[]).is_err());
    assert_eq!(String::from(Key::new("abcdef").unwrap()), "abcdef");
    assert_eq!(String::from(&Key::new("0123456789").unwrap()), "0123456789");
    assert_eq!(MemWeakStore::default().page(None, 1).keys.len(), 0);
}
