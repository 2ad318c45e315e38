use image_of_images_creator::cache::{decode, encode, CacheEntry};
use image_of_images_creator::color::LinColor;
use image_of_images_creator::errors::MosaicError;

fn entry(name: &str, r: u32, g: u32, b: u32) -> CacheEntry {
    CacheEntry { identity: name.as_bytes().to_vec(), color: LinColor { r, g, b } }
}

#[test]
fn cache_round_trip_preserves_the_mapping() {
    let entries = vec![
        entry("a.png", 1, 2, 3),
        entry("b.png", 65025, 0, 0),
        entry("sub_tile.jpg", 40000, 12345, 9),
    ];
    let bytes = encode(&entries);
    let back = decode(&bytes).unwrap();
    assert_eq!(back.len(), entries.len());
    for (e, d) in entries.iter().zip(back.iter()) {
        assert_eq!(e.identity, d.identity);
        assert_eq!(e.color, d.color);
    }
}

#[test]
fn empty_mapping_round_trips() {
    let entries: Vec<CacheEntry> = Vec::new();
    let bytes = encode(&entries);
    assert_eq!(bytes, vec![0, 0, 0, 0]);
    let back = decode(&bytes).unwrap();
    assert!(back.is_empty());
}

#[test]
fn truncated_cache_is_corrupt() {
    let entries = vec![entry("a.png", 1, 2, 3)];
    let mut bytes = encode(&entries);
    bytes.pop();
    assert_eq!(decode(&bytes).unwrap_err(), MosaicError::CorruptCache);
}

#[test]
fn trailing_bytes_are_corrupt() {
    let entries = vec![entry("a.png", 1, 2, 3)];
    let mut bytes = encode(&entries);
    bytes.push(0);
    assert_eq!(decode(&bytes).unwrap_err(), MosaicError::CorruptCache);
}

#[test]
fn empty_file_is_corrupt() {
    let bytes: Vec<u8> = Vec::new();
    assert_eq!(decode(&bytes).unwrap_err(), MosaicError::CorruptCache);
}

#[test]
fn out_of_range_channel_is_corrupt() {
    // one entry, empty name, red channel 65026: one beyond the linear range
    let mut bytes = vec![1, 0, 0, 0];
    bytes.extend_from_slice(&[0, 0, 0, 0]);
    bytes.extend_from_slice(&66026u32.to_le_bytes());
    bytes.extend_from_slice(&[0, 0, 0, 0]);
    bytes.extend_from_slice(&[0, 0, 0, 0]);
    assert_eq!(decode(&bytes).unwrap_err(), MosaicError::CorruptCache);
}

#[test]
fn duplicate_identities_are_corrupt() {
    let one = encode(&vec![entry("a.png", 1, 2, 3)]);
    let mut bytes = vec![2, 0, 0, 0];
    bytes.extend_from_slice(&one[4..]);
    bytes.extend_from_slice(&one[4..]);
    assert_eq!(decode(&bytes).unwrap_err(), MosaicError::CorruptCache);
}

#[test]
fn wrong_count_is_corrupt() {
    let entries = vec![entry("a.png", 1, 2, 3)];
    let mut bytes = encode(&entries);
    bytes[0] = 2;
    assert_eq!(decode(&bytes).unwrap_err(), MosaicError::CorruptCache);
}
