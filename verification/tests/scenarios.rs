use power_token::tokenizer::unobserved;
use power_token::{MergeStep, ModelError, PowerTokenizer};
use std::cell::RefCell;

#[test]
fn fresh_model_encodes_raw_bytes() {
    let tokenizer = PowerTokenizer::new();
    assert!(tokenizer.is_ready());
    assert_eq!(tokenizer.vocab_size(), 256);
    assert_eq!(tokenizer.encode("Hi"), vec![72, 105]);
    assert_eq!(tokenizer.decode(&[72, 105]), "Hi");
}

#[test]
fn empty_text_and_empty_ids() {
    let tokenizer = PowerTokenizer::new();
    assert_eq!(tokenizer.encode(""), Vec::<u32>::new());
    assert_eq!(tokenizer.decode(&[]), "");
}

#[test]
fn one_merge_on_a_run_of_four() {
    let mut tokenizer = PowerTokenizer::new();
    assert_eq!(tokenizer.train("aaaa", 257), Ok(()));
    assert_eq!(tokenizer.vocab_size(), 257);
    assert_eq!(tokenizer.vocab().merge_count(), 1);
    assert_eq!(tokenizer.vocab().merge_at(0), (97, 97));
    assert_eq!(tokenizer.vocab().rule_for(97, 97), Some(256));
    assert_eq!(tokenizer.vocab().bytes_of(256), Some(&vec![97u8, 97u8]));
    assert_eq!(tokenizer.encode("aaaa"), vec![256, 256]);
    assert_eq!(tokenizer.decode(&[256, 256]), "aaaa");
}

#[test]
fn decode_undoes_encode() {
    let mut tokenizer = PowerTokenizer::new();
    let corpus = "the cat sat on the mat, the cat ate the rat. It's 2024!\n\n  naïve café 日本語";
    assert_eq!(tokenizer.train(corpus, 300), Ok(()));
    for text in [
        corpus,
        "the mat",
        "unseen words & symbols #@!",
        "tabs\tand\r\nnewlines\n",
        "   ",
        "日本語 naïve",
        "x",
    ] {
        let ids = tokenizer.encode(text);
        assert_eq!(tokenizer.decode(&ids), text);
    }
}

#[test]
fn encode_gives_the_same_ids_again() {
    let mut tokenizer = PowerTokenizer::new();
    assert_eq!(tokenizer.train("abab abab abab", 260), Ok(()));
    let first = tokenizer.encode("abab ab");
    let second = tokenizer.encode("abab ab");
    assert_eq!(first, second);
}

#[test]
fn training_keeps_to_the_target() {
    let mut tokenizer = PowerTokenizer::new();
    let corpus = "low lower lowest new newer newest wide wider widest";
    assert_eq!(tokenizer.train(corpus, 270), Ok(()));
    assert_eq!(tokenizer.vocab_size(), 270);
    assert_eq!(tokenizer.vocab().merge_count(), 14);
    assert_eq!(tokenizer.vocab().size(), 256 + tokenizer.vocab().merge_count());
}

#[test]
fn training_stops_when_no_pair_is_left() {
    let mut tokenizer = PowerTokenizer::new();
    assert_eq!(tokenizer.train("ab", 1000), Ok(()));
    assert_eq!(tokenizer.vocab_size(), 257);
    assert_eq!(tokenizer.encode("ab"), vec![256]);
}

#[test]
fn small_target_trains_nothing() {
    let mut tokenizer = PowerTokenizer::new();
    assert_eq!(tokenizer.train("aaaa", 256), Ok(()));
    assert_eq!(tokenizer.vocab_size(), 256);
    assert_eq!(tokenizer.train("aaaa", 0), Ok(()));
    assert_eq!(tokenizer.vocab_size(), 256);
    assert_eq!(tokenizer.vocab().merge_count(), 0);
    assert_eq!(tokenizer.encode("aaaa"), vec![97, 97, 97, 97]);
}

#[test]
fn empty_text_trains_nothing() {
    let mut tokenizer = PowerTokenizer::new();
    assert_eq!(tokenizer.train("", 1000), Ok(()));
    assert_eq!(tokenizer.vocab_size(), 256);
    assert_eq!(tokenizer.vocab().merge_count(), 0);
}

#[test]
fn merges_stay_inside_pretokens() {
    let mut tokenizer = PowerTokenizer::new();
    assert_eq!(tokenizer.train("a b a b a b", 258), Ok(()));
    assert_eq!(tokenizer.vocab().merge_at(0), (32, 98));
    assert_eq!(tokenizer.vocab().merge_at(1), (32, 97));
    assert_eq!(tokenizer.vocab().rule_for(97, 32), None);
    assert_eq!(tokenizer.encode("a b"), vec![97, 256]);
    assert_eq!(tokenizer.encode("a b a"), vec![97, 256, 257]);
}

#[test]
fn equal_counts_go_to_the_first_pair() {
    let mut tokenizer = PowerTokenizer::new();
    assert_eq!(tokenizer.train("cdab", 257), Ok(()));
    assert_eq!(tokenizer.vocab().merge_at(0), (97, 98));
    let mut other = PowerTokenizer::new();
    assert_eq!(other.train("ba", 257), Ok(()));
    assert_eq!(other.vocab().merge_at(0), (98, 97));
}

#[test]
fn the_most_frequent_pair_is_merged_first() {
    let mut tokenizer = PowerTokenizer::new();
    assert_eq!(tokenizer.train("abzzzzzzzz", 258), Ok(()));
    assert_eq!(tokenizer.vocab().merge_at(0), (122, 122));
    assert_eq!(tokenizer.vocab().merge_at(1), (256, 256));
    assert_eq!(tokenizer.vocab().bytes_of(257), Some(&vec![122u8, 122, 122, 122]));
}

#[test]
fn training_again_meets_a_pair_that_has_a_rule() {
    let mut tokenizer = PowerTokenizer::new();
    assert_eq!(tokenizer.train("aaaa", 257), Ok(()));
    assert_eq!(tokenizer.train("aaaa", 258), Err(ModelError::DuplicatePair));
    assert_eq!(tokenizer.vocab_size(), 257);
    assert_eq!(tokenizer.train("aaaa", 257), Ok(()));
}

#[test]
fn training_on_words_counts_overlapping_places() {
    let mut tokenizer = PowerTokenizer::new();
    let words = vec![vec![1u32, 1, 1], vec![2, 3], vec![2, 3]];
    assert_eq!(tokenizer.train_words(words, 258, &unobserved), Ok(()));
    assert_eq!(tokenizer.vocab().merge_at(0), (1, 1));
    assert_eq!(tokenizer.vocab().merge_at(1), (2, 3));
}

#[test]
fn ids_without_an_entry_are_passed_over() {
    let tokenizer = PowerTokenizer::new();
    assert_eq!(tokenizer.decode(&[72, 9999, 105, 256]), "Hi");
}

#[test]
fn bytes_that_are_no_text_become_the_replacement_character() {
    let tokenizer = PowerTokenizer::new();
    assert_eq!(tokenizer.decode(&[72, 255, 105]), "H\u{FFFD}i");
    assert_eq!(tokenizer.decode(&[0xE6, 0x97]), "\u{FFFD}");
    assert_eq!(tokenizer.decode(&[0xE6, 0x97, 0xA5]), "日");
}

#[test]
fn the_observer_sees_every_step() {
    let seen: RefCell<Vec<MergeStep>> = RefCell::new(vec![]);
    let mut tokenizer = PowerTokenizer::new();
    let result = tokenizer.train_observed("abab abab", 259, &|step: MergeStep| {
        seen.borrow_mut().push(step);
    });
    assert_eq!(result, Ok(()));
    assert_eq!(
        seen.into_inner(),
        vec![
            MergeStep { id: 256, pair: (97, 98), count: 4 },
            MergeStep { id: 257, pair: (256, 256), count: 2 },
            MergeStep { id: 258, pair: (32, 257), count: 1 },
        ]
    );
    let mut plain = PowerTokenizer::new();
    assert_eq!(plain.train("abab abab", 259), Ok(()));
    assert_eq!(plain.save(), tokenizer.save());
}
