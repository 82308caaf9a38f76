use power_token::tokenizer::{unobserved, words_in, MergeStep};
use power_token::{ModelError, PersistedModel, PowerTokenizer};

fn tokenizer_with(pairs: &[(u32, u32)]) -> PowerTokenizer {
    let mut tokenizer = PowerTokenizer::new();
    let words: Vec<Vec<u32>> = vec![];
    assert_eq!(tokenizer.train_words(words, 256, &unobserved), Ok(()));
    let mut model: PersistedModel = tokenizer.save();
    for (i, (a, b)) in pairs.iter().enumerate() {
        let mut bytes = model.vocab[*a as usize].1.clone();
        bytes.extend_from_slice(&model.vocab[*b as usize].1);
        model.vocab.push(((256 + i).to_string(), bytes));
        model.merges.push((*a, *b, 256 + i as u32));
    }
    PowerTokenizer::load(&model).expect("the rules are valid")
}

#[test]
fn chunks_become_words_of_byte_ids() {
    assert_eq!(words_in(b"a bc", &vec![(0, 1), (1, 4)]), vec![vec![97], vec![32, 98, 99]]);
    assert_eq!(words_in(b"abc", &vec![(1, 1), (2, 3)]), vec![vec![], vec![99]]);
    assert_eq!(words_in(b"abc", &vec![]), Vec::<Vec<u32>>::new());
}

#[test]
fn a_step_merges_the_best_pair_everywhere() {
    let mut tokenizer = PowerTokenizer::new();
    let mut words = vec![vec![1u32, 2, 1, 2], vec![3, 1, 2]];
    assert_eq!(
        tokenizer.merge_next(&mut words),
        Ok(Some(MergeStep { id: 256, pair: (1, 2), count: 3 }))
    );
    assert_eq!(words, vec![vec![256, 256], vec![3, 256]]);
    assert_eq!(tokenizer.vocab_size(), 257);
    assert_eq!(
        tokenizer.merge_next(&mut words),
        Ok(Some(MergeStep { id: 257, pair: (3, 256), count: 1 }))
    );
    assert_eq!(words, vec![vec![256, 256], vec![257]]);
    assert_eq!(
        tokenizer.merge_next(&mut words),
        Ok(Some(MergeStep { id: 258, pair: (256, 256), count: 1 }))
    );
    assert_eq!(words, vec![vec![258], vec![257]]);
    assert_eq!(tokenizer.merge_next(&mut words), Ok(None));
    assert_eq!(words, vec![vec![258], vec![257]]);
    assert_eq!(tokenizer.vocab_size(), 259);
}

#[test]
fn a_step_refuses_a_pair_that_has_a_rule() {
    let mut tokenizer = tokenizer_with(&[(1, 2)]);
    let mut words = vec![vec![1u32, 2, 3]];
    assert_eq!(tokenizer.merge_next(&mut words), Err(ModelError::DuplicatePair));
    assert_eq!(words, vec![vec![1, 2, 3]]);
    assert_eq!(tokenizer.vocab_size(), 257);
}

#[test]
fn training_on_words_stops_at_the_target() {
    let mut tokenizer = PowerTokenizer::new();
    let words = vec![vec![1u32, 2, 3, 4, 5, 6, 7, 8]];
    assert_eq!(tokenizer.train_words(words, 259, &unobserved), Ok(()));
    assert_eq!(tokenizer.vocab_size(), 259);
    assert_eq!(tokenizer.vocab().merge_at(0), (1, 2));
    assert_eq!(tokenizer.vocab().merge_at(1), (3, 4));
    assert_eq!(tokenizer.vocab().merge_at(2), (5, 6));
}

#[test]
fn no_merge_goes_over_the_end_of_a_chunk() {
    let tokenizer = tokenizer_with(&[(97, 98), (256, 256), (98, 97)]);
    assert_eq!(tokenizer.encode_chunks(b"abab", &vec![(0, 4)]), vec![257]);
    assert_eq!(tokenizer.encode_chunks(b"abab", &vec![(0, 2), (2, 4)]), vec![256, 256]);
    assert_eq!(tokenizer.encode_chunks(b"abab", &vec![(0, 1), (1, 3), (3, 4)]), vec![97, 258, 98]);
    assert_eq!(tokenizer.encode_chunks(b"abab", &vec![(0, 3), (3, 4)]), vec![256, 97, 98]);
    assert_eq!(tokenizer.encode_chunks(b"abab", &vec![]), Vec::<u32>::new());
}
