use file_time_machine::compression::{apply_delta, compress_data, decompress_data, delta_bytes};
use file_time_machine::diffs::hash;
use file_time_machine::hashing::derive_patch_id;
use file_time_machine::text::literal_string;

#[test]
fn compression_round_trip() {
    let input: Vec<u8> = b"hello world, hello world, hello world".to_vec();
    let compressed = compress_data(input.clone(), 9).unwrap();
    let restored = decompress_data(compressed).unwrap();
    assert_eq!(restored, input);
}

#[test]
fn compression_round_trip_empty() {
    let input: Vec<u8> = Vec::new();
    let compressed = compress_data(input.clone(), 4).unwrap();
    let restored = decompress_data(compressed).unwrap();
    assert_eq!(restored, input);
}

#[test]
fn decompression_rejects_garbage() {
    let garbage: Vec<u8> = vec![0x13, 0x37, 0x13, 0x37, 0x13, 0x37];
    assert!(decompress_data(garbage).is_err());
}

#[test]
fn delta_round_trip() {
    let old: Vec<u8> = b"hello".to_vec();
    let new: Vec<u8> = b"hello world".to_vec();
    let delta = delta_bytes(&old, &new).unwrap();
    let patched = apply_delta(&old, &delta).unwrap();
    assert_eq!(patched, new);
}

#[test]
fn delta_from_empty_is_self_contained() {
    let empty: Vec<u8> = Vec::new();
    let content: Vec<u8> = b"a whole file".to_vec();
    let delta = delta_bytes(&empty, &content).unwrap();
    let patched = apply_delta(&empty, &delta).unwrap();
    assert_eq!(patched, content);
}

#[test]
fn strong_hash_of_known_input() {
    let content: Vec<u8> = b"hello".to_vec();
    let digest = hash(&content);
    assert_eq!(
        digest,
        "2cf24dba5fb0a30e26e83b2ac5b9e29e1b161e5c1fa7425e73043362938b9824"
    );
}

#[test]
fn patch_ids_are_64_hex_and_keyed_by_both_inputs() {
    let stamp = literal_string("2024-11-07 13:05:00.123456789 +0000");
    let path_a = literal_string("/root/a.txt");
    let path_b = literal_string("/root/b.txt");
    let id_a = derive_patch_id(&stamp, &path_a);
    let id_b = derive_patch_id(&stamp, &path_b);
    assert_eq!(id_a.len(), 64);
    assert!(id_a.chars().all(|c| c.is_ascii_hexdigit() && !c.is_ascii_lowercase()));
    assert_ne!(id_a, id_b);
    assert_eq!(id_a, derive_patch_id(&stamp, &path_a));
}
