//! Content identity: determinism, sensitivity to content, and the
//! streaming checksum.

use ark_tags::id::Id;
use ark_tags::identity::IdHasher;

#[test]
fn same_content_same_id() {
    let a: Vec<u8> = b"some file content".to_vec();
    let b: Vec<u8> = b"some file content".to_vec();
    assert_eq!(Id::of_bytes(&a), Id::of_bytes(&b));
}

#[test]
fn changed_byte_changes_hash() {
    let a: Vec<u8> = b"some file content".to_vec();
    let mut b = a.clone();
    b[0] ^= 1;
    let ia = Id::of_bytes(&a);
    let ib = Id::of_bytes(&b);
    assert_eq!(ia.size, ib.size);
    assert_ne!(ia.hash, ib.hash);
}

#[test]
fn crc32_check_value() {
    // the standard CRC-32 (IEEE) check value for "123456789"
    let id = Id::of_bytes(b"123456789");
    assert_eq!(id.size, 9);
    assert_eq!(id.hash, 0xCBF43926);
}

#[test]
fn empty_content() {
    let id = Id::of_bytes(b"");
    assert_eq!(id.size, 0);
    assert_eq!(id.hash, 0);
}

#[test]
fn streaming_matches_whole() {
    let data: Vec<u8> = (0..100_000u32).map(|x| (x % 251) as u8).collect();
    let whole = Id::of_bytes(&data);
    let mut h = IdHasher::new();
    for chunk in [&data[..1], &data[1..777], &data[777..]] {
        h.update(chunk);
    }
    assert_eq!(h.finish(), whole);
}

#[test]
fn content_larger_than_one_chunk() {
    // more than the 512 KiB chunk the checksum streams in
    let data: Vec<u8> = (0..600_000u32).map(|x| (x * 7 % 253) as u8).collect();
    let whole = Id::of_bytes(&data);
    assert_eq!(whole.size, 600_000);
    let mut h = IdHasher::new();
    h.update(&data);
    assert_eq!(h.finish(), whole);
}
