use power_token::decode::{decode_bytes, decode_text};
use power_token::encode::{encode_word, find_next_merge, word_of};
use power_token::VocabStore;

fn store_with(pairs: &[(u32, u32)]) -> VocabStore {
    let mut store = VocabStore::init();
    for (i, pair) in pairs.iter().enumerate() {
        assert_eq!(store.add_merge(*pair, 256 + i as u32), Ok(()));
    }
    store
}

#[test]
fn bytes_become_their_ids() {
    assert_eq!(word_of(b"Hi!", 0, 3), vec![72, 105, 33]);
    assert_eq!(word_of(b"Hi!", 1, 2), vec![105]);
    assert_eq!(word_of(b"Hi!", 2, 2), Vec::<u32>::new());
    assert_eq!(word_of(&[0, 255], 0, 2), vec![0, 255]);
}

#[test]
fn the_earliest_rule_goes_first() {
    let store = store_with(&[(98, 99), (97, 98)]);
    assert_eq!(find_next_merge(&store, &vec![97, 98, 99]), Some((1, 256)));
    assert_eq!(encode_word(&store, vec![97, 98, 99]), vec![97, 256]);
    let store = store_with(&[(97, 98), (98, 99)]);
    assert_eq!(find_next_merge(&store, &vec![97, 98, 99]), Some((0, 256)));
    assert_eq!(encode_word(&store, vec![97, 98, 99]), vec![256, 99]);
}

#[test]
fn the_leftmost_place_of_the_earliest_rule_goes_first() {
    let store = store_with(&[(97, 97)]);
    assert_eq!(find_next_merge(&store, &vec![98, 97, 97, 97, 97]), Some((1, 256)));
    assert_eq!(encode_word(&store, vec![97, 97, 97]), vec![256, 97]);
    assert_eq!(encode_word(&store, vec![97, 97, 97, 97, 97]), vec![256, 256, 97]);
}

#[test]
fn merged_ids_are_merged_on() {
    let store = store_with(&[(97, 98), (256, 99), (257, 257)]);
    assert_eq!(encode_word(&store, vec![97, 98, 99, 97, 98, 99]), vec![258]);
    assert_eq!(encode_word(&store, vec![97, 98, 99, 97, 98]), vec![257, 256]);
    assert_eq!(decode_bytes(&store, &[258]), b"abcabc".to_vec());
}

#[test]
fn without_a_rule_nothing_is_merged() {
    let store = store_with(&[(97, 98)]);
    assert_eq!(find_next_merge(&store, &vec![98, 97]), None);
    assert_eq!(find_next_merge(&store, &vec![97]), None);
    assert_eq!(find_next_merge(&store, &vec![]), None);
    assert_eq!(encode_word(&store, vec![98, 97, 99]), vec![98, 97, 99]);
    assert_eq!(encode_word(&store, vec![]), Vec::<u32>::new());
}

#[test]
fn decoding_joins_the_entries() {
    let store = store_with(&[(104, 105)]);
    assert_eq!(decode_bytes(&store, &[256, 33, 256]), b"hi!hi".to_vec());
    assert_eq!(decode_bytes(&store, &[257, 33, 4000000000]), b"!".to_vec());
    assert_eq!(decode_text(&store, &[256, 33]), "hi!");
    assert_eq!(decode_text(&store, &[0xC3, 0xA9]), "é");
    assert_eq!(decode_text(&store, &[0xC3]), "\u{FFFD}");
}
