use ckb_native_simulator::binary::{
    find_bin_path_by_hash, get_bin_path_by_hash, get_hash, hash_name, locate, select, Byte32,
    NativeBinaries, Place, INDEX_OUT_OF_BOUND,
};

const BLANK_HASH: [u8; 32] = [
    68, 244, 198, 151, 68, 213, 248, 197, 93, 100, 32, 98, 148, 157, 202, 228, 155, 196, 231, 239,
    67, 211, 136, 197, 161, 47, 66, 181, 99, 61, 22, 62,
];

fn bounds(offset: usize, length: usize) -> usize {
    offset << 32 | length
}

#[test]
fn places_are_numbered() {
    assert_eq!(locate(0), Ok(Place::Cell));
    assert_eq!(locate(1), Ok(Place::Witness));
    assert_eq!(locate(2), Err(INDEX_OUT_OF_BOUND));
    assert_eq!(locate(usize::MAX), Err(1));
}

#[test]
fn bounds_select_a_part() {
    let data = [0u8, 1, 2, 3, 4, 5, 6, 7];
    assert_eq!(select(&data, 0), &data[..]);
    assert_eq!(select(&data, bounds(3, 0)), &[3, 4, 5, 6, 7]);
    assert_eq!(select(&data, bounds(3, 2)), &[3, 4]);
    assert_eq!(select(&data, bounds(0, 8)), &data[..]);
    assert_eq!(select(&data, bounds(6, 100)), &[6, 7]);
    assert_eq!(select(&data, bounds(8, 0)), &[] as &[u8]);
    assert_eq!(select(&data, bounds(9, 1)), &[] as &[u8]);
    assert_eq!(select(&data, usize::MAX), &[] as &[u8]);
    assert_eq!(select(&data, bounds(0, 0xffff_ffff)), &data[..]);
}

#[test]
fn hash_of_nothing_is_known() {
    assert_eq!(get_hash(0, &Ok(vec![]), 0), Ok(Byte32(BLANK_HASH)));
    assert_eq!(get_hash(1, &Ok(vec![1, 2, 3]), bounds(3, 0)), Ok(Byte32(BLANK_HASH)));
}

#[test]
fn hash_is_of_the_selected_part() {
    let data: Vec<u8> = (0..100).collect();
    let whole = Byte32(ckb_hash::blake2b_256(&data));
    let part = Byte32(ckb_hash::blake2b_256(&data[10..30]));
    assert_eq!(get_hash(0, &Ok(data.clone()), 0), Ok(whole));
    assert_eq!(get_hash(1, &Ok(data.clone()), 0), Ok(whole));
    assert_eq!(get_hash(0, &Ok(data.clone()), bounds(10, 20)), Ok(part));
    assert_ne!(whole, part);
}

#[test]
fn a_failed_fetch_gives_its_code() {
    assert_eq!(get_hash(0, &Err(7), 0), Err(7));
    assert_eq!(get_hash(0, &Err(-2), 5), Err(-2));
}

#[test]
fn an_unknown_place_gives_a_code() {
    assert_eq!(get_hash(2, &Ok(vec![1]), 0), Err(INDEX_OUT_OF_BOUND));
    assert_eq!(get_hash(9, &Err(7), 0), Err(INDEX_OUT_OF_BOUND));
}

#[test]
fn names_are_lower_case_hex() {
    assert_eq!(
        hash_name(&Byte32(BLANK_HASH)),
        "44f4c69744d5f8c55d642062949dcae49bc4e7ef43d388c5a12f42b5633d163e"
    );
    let mut bytes = [0u8; 32];
    bytes[0] = 0xab;
    bytes[31] = 0x0f;
    let name = hash_name(&Byte32(bytes));
    assert_eq!(name.len(), 64);
    assert!(name.starts_with("ab00"));
    assert!(name.ends_with("000f"));
}

#[test]
fn different_hashes_have_different_names() {
    let mut bytes = [0u8; 32];
    let first = hash_name(&Byte32(bytes));
    bytes[17] = 1;
    assert_ne!(first, hash_name(&Byte32(bytes)));
}

#[test]
fn a_binary_is_found_by_its_hash() {
    let hash = Byte32(BLANK_HASH);
    let other = Byte32([7; 32]);
    let mut binaries = NativeBinaries::new();
    assert_eq!(find_bin_path_by_hash(&binaries, &hash), None);
    binaries.insert(hash_name(&hash), "libblank.so".to_string());
    binaries.insert(hash_name(&other), "libother.so".to_string());
    assert_eq!(get_bin_path_by_hash(&binaries, &hash), "libblank.so");
    assert_eq!(get_bin_path_by_hash(&binaries, &other), "libother.so");
    assert_eq!(find_bin_path_by_hash(&binaries, &hash), Some("libblank.so".to_string()));
    assert_eq!(find_bin_path_by_hash(&binaries, &Byte32([8; 32])), None);
}

#[test]
fn a_later_entry_replaces_an_earlier_one() {
    let mut binaries = NativeBinaries::new();
    binaries.insert("a".to_string(), "1".to_string());
    binaries.insert("b".to_string(), "2".to_string());
    binaries.insert("a".to_string(), "3".to_string());
    assert_eq!(binaries.get(&"a".to_string()), Some("3".to_string()));
    assert_eq!(binaries.get(&"b".to_string()), Some("2".to_string()));
    assert_eq!(binaries.get(&"c".to_string()), None);
}
