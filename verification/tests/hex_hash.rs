use mthstore::hex::to_hex;
use mthstore::hashing::hash_bytes;

#[test]
fn hex_of_bytes() {
    assert_eq!(to_hex(&[]), "");
    assert_eq!(to_hex(&[0x00]), "00");
    assert_eq!(to_hex(&[0xab]), "ab");
    assert_eq!(to_hex(&[0x0f, 0xf0]), "0ff0");
    assert_eq!(to_hex(&[0xde, 0xad, 0xbe, 0xef]), "deadbeef");
    assert_eq!(to_hex(&[1, 2, 3]), "010203");
}

#[test]
fn hash_of_known_bytes() {
    let h = hash_bytes(b"abc");
    assert_eq!(h.len(), 20);
    assert_eq!(to_hex(h.as_slice()), "a9993e364706816aba3e25717850c26c9cd0d89d");
}

#[test]
fn hash_of_empty_input() {
    let h = hash_bytes(b"");
    assert_eq!(to_hex(h.as_slice()), "da39a3ee5e6b4b0d3255bfef95601890afd80709");
}

#[test]
fn hash_is_not_the_input() {
    // A 20-byte input must not come back unchanged from the digest.
    let input: Vec<u8> = (0u8..20).collect();
    let h = hash_bytes(input.as_slice());
    assert_eq!(h.len(), 20);
    assert_ne!(h, input);
}

#[test]
fn hash_streams_across_chunks() {
    // 10240 bytes: more than one 8 KiB chunk.
    let mut input: Vec<u8> = Vec::new();
    for _ in 0..40 {
        for b in 0u8..=255 {
            input.push(b);
        }
    }
    assert_eq!(input.len(), 10240);
    let h = hash_bytes(input.as_slice());
    assert_eq!(to_hex(h.as_slice()), "36812e99f2d591c5114a7b09519ea9d7daba2380");
}

#[test]
fn identical_bytes_identical_identifier() {
    let a = hash_bytes(b"some media bytes");
    let b = hash_bytes(b"some media bytes");
    let c = hash_bytes(b"other media bytes");
    assert_eq!(a, b);
    assert_ne!(a, c);
}
