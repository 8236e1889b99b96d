use byteframe::checksum::{FNV_OFFSET_BASIS, FNV_PRIME};
use byteframe::fnv1a32;

#[test]
fn matches_known_vectors() {
    assert_eq!(fnv1a32(b""), 0x811C9DC5);
    assert_eq!(fnv1a32(b"a"), 0xE40C292C);
    assert_eq!(fnv1a32(b"hello"), 0x4F9F2CAB);
}

#[test]
fn empty_input_gives_offset_basis_every_time() {
    assert_eq!(fnv1a32(&[]), FNV_OFFSET_BASIS);
    let data = b"determinism".to_vec();
    let first = fnv1a32(&data);
    let second = fnv1a32(&data);
    assert_eq!(first, second);
    assert_eq!(data, b"determinism".to_vec());
}

#[test]
fn single_byte_follows_the_formula() {
    let expected = (FNV_OFFSET_BASIS ^ 0x61).wrapping_mul(FNV_PRIME);
    assert_eq!(fnv1a32(&[0x61]), expected);
    assert_eq!(fnv1a32(&[0x00]), 0x050C5D1F);
}

#[test]
fn every_single_byte_change_changes_the_checksum() {
    let data = b"frame payload".to_vec();
    let unchanged = fnv1a32(&data);
    for i in 0..data.len() {
        for bit in 0..8 {
            let mut changed = data.clone();
            changed[i] ^= 1u8 << bit;
            assert_ne!(fnv1a32(&changed), unchanged);
        }
    }
}
