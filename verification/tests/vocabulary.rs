use power_token::vocab::pack;
use power_token::{ModelError, VocabStore};

#[test]
fn a_new_store_holds_the_bytes() {
    let store = VocabStore::init();
    assert_eq!(store.size(), 256);
    assert_eq!(store.merge_count(), 0);
    assert_eq!(store.bytes_of(0), Some(&vec![0u8]));
    assert_eq!(store.bytes_of(65), Some(&vec![65u8]));
    assert_eq!(store.bytes_of(255), Some(&vec![255u8]));
    assert_eq!(store.bytes_of(256), None);
    assert_eq!(store.rule_for(1, 2), None);
}

#[test]
fn a_merge_joins_the_bytes_of_its_pair() {
    let mut store = VocabStore::init();
    assert_eq!(store.add_merge((104, 105), 256), Ok(()));
    assert_eq!(store.add_merge((256, 33), 257), Ok(()));
    assert_eq!(store.add_merge((257, 256), 258), Ok(()));
    assert_eq!(store.size(), 259);
    assert_eq!(store.merge_count(), 3);
    assert_eq!(store.merge_at(1), (256, 33));
    assert_eq!(store.bytes_of(256), Some(&vec![104u8, 105]));
    assert_eq!(store.bytes_of(257), Some(&vec![104u8, 105, 33]));
    assert_eq!(store.bytes_of(258), Some(&vec![104u8, 105, 33, 104, 105]));
    assert_eq!(store.rule_for(104, 105), Some(256));
    assert_eq!(store.rule_for(256, 33), Some(257));
    assert_eq!(store.rule_for(105, 104), None);
}

#[test]
fn a_pair_is_merged_once() {
    let mut store = VocabStore::init();
    assert_eq!(store.add_merge((1, 2), 256), Ok(()));
    assert_eq!(store.add_merge((1, 2), 257), Err(ModelError::DuplicatePair));
    assert_eq!(store.size(), 257);
    assert_eq!(store.rule_for(1, 2), Some(256));
}

#[test]
fn a_pair_names_ids_that_exist() {
    let mut store = VocabStore::init();
    assert_eq!(store.add_merge((256, 1), 256), Err(ModelError::UnknownId));
    assert_eq!(store.add_merge((1, 256), 256), Err(ModelError::UnknownId));
    assert_eq!(store.add_merge((1, 70000), 256), Err(ModelError::UnknownId));
    assert_eq!(store.size(), 256);
    assert_eq!(store.add_merge((255, 255), 256), Ok(()));
    assert_eq!(store.add_merge((256, 256), 257), Ok(()));
}

#[test]
fn pair_keys_keep_pairs_apart() {
    assert_eq!(pack(0, 0), 0);
    assert_eq!(pack(0, 1), 1);
    assert_eq!(pack(1, 0), 0x1_0000_0000);
    assert_eq!(pack(97, 98), 97 * 0x1_0000_0000 + 98);
    assert_eq!(pack(u32::MAX, u32::MAX), u64::MAX);
}
