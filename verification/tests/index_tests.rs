use mthstore::asset::Asset;
use mthstore::index::{encode_index, decode_index};

fn asset(path: &str, hash_head: u8) -> Asset {
    let mut hash = vec![hash_head];
    hash.extend(std::iter::repeat(0u8).take(19));
    Asset::new(path.to_string(), hash)
}

#[test]
fn index_layout_and_length() {
    let ms = vec![asset("a", 1), asset("b", 2)];
    let bytes = encode_index(&ms);
    assert_eq!(bytes.len(), 6 + 20 * 2);
    assert_eq!(&bytes[0..6], b"MTHS\x00\x01");
    assert_eq!(bytes[6], 1);
    assert_eq!(bytes[26], 2);
}

#[test]
fn empty_index_is_just_the_header() {
    let ms: Vec<Asset> = Vec::new();
    let bytes = encode_index(&ms);
    assert_eq!(bytes, b"MTHS\x00\x01".to_vec());
}

#[test]
fn decode_inverts_encode() {
    let ms = vec![asset("a", 9), asset("b", 3), asset("c", 200)];
    let bytes = encode_index(&ms);
    let decoded = decode_index(&bytes).unwrap();
    assert_eq!(decoded.len(), 3);
    assert_eq!(decoded[0], ms[0].hash);
    assert_eq!(decoded[1], ms[1].hash);
    assert_eq!(decoded[2], ms[2].hash);
}

#[test]
fn decode_rejects_short_input() {
    assert!(decode_index(&b"MTHS".to_vec()).is_none());
    assert!(decode_index(&Vec::new()).is_none());
}

#[test]
fn decode_rejects_wrong_magic() {
    let mut bytes = b"MTHX\x00\x01".to_vec();
    bytes.extend(std::iter::repeat(0u8).take(20));
    assert!(decode_index(&bytes).is_none());
}

#[test]
fn decode_rejects_wrong_version() {
    let bytes = b"MTHS\x01\x01".to_vec();
    assert!(decode_index(&bytes).is_none());
}

#[test]
fn decode_rejects_ragged_payload() {
    let mut bytes = b"MTHS\x00\x01".to_vec();
    bytes.extend(std::iter::repeat(7u8).take(19));
    assert!(decode_index(&bytes).is_none());
}
