use rit::commands::cat_file::{parse_object, read_object};
use rit::commands::hash_object::{hash_content, header_bytes, store_object};
use rit::deflate::{compress, inflate};
use rit::error::RitError;
use rit::hexcodec::{from_hex, to_hex};
use rit::objects::Blob;
use rit::store::ObjectStore;
use rit::text::{text_from_bytes, text_if_utf8};

#[test]
fn same_content_has_same_address() {
    let c1 = b"the same bytes".to_vec();
    let c2 = b"the same bytes".to_vec();
    assert_eq!(hash_content("blob", &c1), hash_content("blob", &c2));
    assert_ne!(hash_content("blob", &c1), hash_content("tree", &c1));
    assert_ne!(hash_content("blob", &c1), hash_content("blob", b"other bytes"));
}

#[test]
fn address_is_digest_of_framed_bytes() {
    // the empty blob and the empty tree of git
    assert_eq!(hash_content("blob", b""), "e69de29bb2d1d6434b8b29ae775ad8c2e48c5391");
    assert_eq!(hash_content("tree", b""), "4b825dc642cb6eb9a060e54bf8d69288fbee4904");
    assert_eq!(header_bytes("blob", 13), b"blob 13\0".to_vec());
    assert_eq!(header_bytes("commit", 0), b"commit 0\0".to_vec());
    assert_eq!(header_bytes("tree", 1234567), b"tree 1234567\0".to_vec());
}

#[test]
fn storing_twice_is_idempotent() {
    let mut store = ObjectStore::new();
    let first = store_object(&mut store, "blob", b"content").unwrap();
    assert_eq!(store.objects.len(), 1);
    let second = store_object(&mut store, "blob", b"content").unwrap();
    assert_eq!(first, second);
    assert_eq!(store.objects.len(), 1);
}

#[test]
fn stored_blob_reads_back() {
    let mut store = ObjectStore::new();
    let address = store_object(&mut store, "blob", b"Hello, World!").unwrap();
    assert_eq!(address.len(), 40);
    assert!(address.bytes().all(|b| b.is_ascii_digit() || (b'a'..=b'f').contains(&b)));
    let object = read_object(&store, &address).unwrap();
    assert_eq!(object.object_type, "blob");
    assert_eq!(object.size, 13);
    assert_eq!(object.content, b"Hello, World!".to_vec());
}

#[test]
fn stored_object_is_a_zlib_stream_of_the_framed_bytes() {
    let mut store = ObjectStore::new();
    let address = store_object(&mut store, "blob", b"abc").unwrap();
    let raw = store.raw(&address).unwrap();
    assert_ne!(raw.as_slice(), b"blob 3\0abc".as_slice());
    assert_eq!(inflate(raw).unwrap(), b"blob 3\0abc".to_vec());
    assert_eq!(raw[0], 0x78);
}

#[test]
fn compress_and_inflate() {
    let z = compress(b"head ", b"and body").unwrap();
    assert_ne!(z, b"head and body".to_vec());
    assert_eq!(inflate(&z).unwrap(), b"head and body".to_vec());
    assert_eq!(inflate(b"not a zlib stream"), Err(RitError::Corrupt));
    assert_eq!(inflate(&[]), Err(RitError::Corrupt));
}

#[test]
fn read_of_missing_object_fails() {
    let store = ObjectStore::new();
    let address = "a".repeat(40);
    assert_eq!(read_object(&store, &address).unwrap_err(), RitError::NotFound);
}

#[test]
fn read_of_short_address_is_corrupt() {
    let mut store = ObjectStore::new();
    store.insert_raw("abc".to_string(), compress(b"blob 1\0", b"x").unwrap());
    assert_eq!(read_object(&store, "abc").unwrap_err(), RitError::Corrupt);
    assert_eq!(read_object(&store, "").unwrap_err(), RitError::Corrupt);
    assert_eq!(read_object(&store, "abcd").unwrap_err(), RitError::NotFound);
}

#[test]
fn read_of_damaged_object_is_corrupt() {
    let mut store = ObjectStore::new();
    store.insert_raw("aaaa".to_string(), b"garbage".to_vec());
    assert_eq!(read_object(&store, "aaaa").unwrap_err(), RitError::Corrupt);
    store.insert_raw("bbbb".to_string(), compress(b"blob 5", b"hello").unwrap());
    assert_eq!(read_object(&store, "bbbb").unwrap_err(), RitError::Corrupt);
    store.insert_raw("cccc".to_string(), compress(b"blob 4\0", b"hello").unwrap());
    assert_eq!(read_object(&store, "cccc").unwrap_err(), RitError::Corrupt);
    store.insert_raw("dddd".to_string(), compress(b"blob 5\0", b"hello").unwrap());
    assert_eq!(read_object(&store, "dddd").unwrap().content, b"hello".to_vec());
}

#[test]
fn object_headers() {
    assert_eq!(parse_object(b"blob 3\0abc").unwrap().object_type, "blob");
    assert_eq!(parse_object(b"tag 0\0").unwrap().object_type, "tag");
    assert_eq!(parse_object(b"blob +3\0abc").unwrap().size, 3);
    assert_eq!(parse_object(b"blob 003\0abc").unwrap().size, 3);
    assert_eq!(parse_object(b"blob 3 extra\0abc").unwrap().size, 3);
    assert_eq!(parse_object(b"blob\0abc").unwrap_err(), RitError::Corrupt);
    assert_eq!(parse_object(b"blob \0").unwrap_err(), RitError::Corrupt);
    assert_eq!(parse_object(b"blob x\0abc").unwrap_err(), RitError::Corrupt);
    assert_eq!(parse_object(b"blob -3\0abc").unwrap_err(), RitError::Corrupt);
    assert_eq!(parse_object(b"blob 99999999999999999999999\0abc").unwrap_err(), RitError::Corrupt);
    assert_eq!(parse_object(b"").unwrap_err(), RitError::Corrupt);
    assert_eq!(parse_object(b" 0\0").unwrap().object_type, "");
}

#[test]
fn store_keeps_the_first_file_of_an_address() {
    let mut store = ObjectStore::new();
    store.insert_raw("abcd".to_string(), vec![1]);
    store.insert_raw("abcd".to_string(), vec![2]);
    assert_eq!(store.objects.len(), 1);
    assert_eq!(store.raw("abcd"), Some(&vec![1]));
    assert!(store.contains("abcd"));
    assert!(!store.contains("abce"));
    assert_eq!(store.raw("abce"), None);
    assert_eq!(store.position("abcd"), 0);
    assert_eq!(store.position("zzzz"), 1);
}

#[test]
fn hexadecimal_text() {
    assert_eq!(to_hex(&[0x00, 0x0f, 0xa5, 0xff]), "000fa5ff");
    assert_eq!(to_hex(&[]), "");
    assert_eq!(from_hex("000fa5ff").unwrap(), vec![0x00, 0x0f, 0xa5, 0xff]);
    assert_eq!(from_hex("000FA5Ff").unwrap(), vec![0x00, 0x0f, 0xa5, 0xff]);
    assert_eq!(from_hex("").unwrap(), Vec::<u8>::new());
    assert_eq!(from_hex("abc"), Err(RitError::InvalidAddress));
    assert_eq!(from_hex("zz"), Err(RitError::InvalidAddress));
}

#[test]
fn text_of_bytes() {
    assert_eq!(text_from_bytes(b"plain"), "plain");
    assert_eq!(text_from_bytes(&[0x61, 0xff, 0x62]), "a\u{FFFD}b");
    assert_eq!(text_if_utf8("gr\u{fc}n".as_bytes()), Some("gr\u{fc}n".to_string()));
    assert_eq!(text_if_utf8(&[0xc3]), None);
}

#[test]
fn blob_is_its_content() {
    let blob = Blob::parse(b"raw \x00 bytes");
    assert_eq!(blob.content, b"raw \x00 bytes".to_vec());
    assert_eq!(blob.serialize(), b"raw \x00 bytes".to_vec());
    assert_eq!(blob.size(), 11);
    let mut store = ObjectStore::new();
    let address = blob.store(&mut store).unwrap();
    assert_eq!(address, blob.hash());
    assert_eq!(read_object(&store, &address).unwrap().content, blob.content);
}

#[test]
fn place_of_an_object_on_disk() {
    let address = "0123456789abcdef0123456789abcdef01234567";
    assert_eq!(
        rit::store::object_file(address),
        Some(("01".to_string(), "23456789abcdef0123456789abcdef01234567".to_string()))
    );
    assert_eq!(rit::store::object_file("abcd"), Some(("ab".to_string(), "cd".to_string())));
    assert_eq!(rit::store::object_file("abc"), None);
}
