use power_token::codec::{export_store, import_store, same_bytes};
use power_token::{ModelError, PersistedModel, PowerTokenizer, VocabStore};

fn model_of(merges: Vec<(u32, u32, u32)>) -> PersistedModel {
    let mut vocab: Vec<(String, Vec<u8>)> =
        (0..256u32).map(|id| (id.to_string(), vec![id as u8])).collect();
    for (a, b, c) in merges.iter() {
        let mut bytes = vocab[*a as usize].1.clone();
        bytes.extend_from_slice(&vocab[*b as usize].1);
        vocab.push((c.to_string(), bytes));
    }
    PersistedModel { vocab, merges }
}

#[test]
fn a_fresh_model_is_saved_as_the_bytes() {
    let model = PowerTokenizer::new().save();
    assert_eq!(model.merges, Vec::<(u32, u32, u32)>::new());
    assert_eq!(model.vocab.len(), 256);
    assert_eq!(model.vocab[0], ("0".to_string(), vec![0u8]));
    assert_eq!(model.vocab[10], ("10".to_string(), vec![10u8]));
    assert_eq!(model.vocab[255], ("255".to_string(), vec![255u8]));
    assert_eq!(model, model_of(vec![]));
}

#[test]
fn merges_are_saved_in_the_order_of_their_creation() {
    let mut tokenizer = PowerTokenizer::new();
    assert_eq!(tokenizer.train("abzzzz", 259), Ok(()));
    let model = tokenizer.save();
    assert_eq!(model.merges, vec![(122, 122, 256), (97, 98, 257), (256, 256, 258)]);
    assert_eq!(model.vocab.len(), 259);
    assert_eq!(model.vocab[256], ("256".to_string(), vec![122u8, 122]));
    assert_eq!(model.vocab[257], ("257".to_string(), vec![97u8, 98]));
    assert_eq!(model.vocab[258], ("258".to_string(), vec![122u8, 122, 122, 122]));
}

#[test]
fn a_loaded_model_encodes_as_the_saved_one() {
    let mut tokenizer = PowerTokenizer::new();
    let corpus = "Hello world! This is a test of the tokenizer: hello, hello world.";
    assert_eq!(tokenizer.train(corpus, 300), Ok(()));
    let model = tokenizer.save();
    let loaded = PowerTokenizer::load(&model).expect("what was saved loads");
    assert!(loaded.is_ready());
    assert_eq!(loaded.vocab_size(), tokenizer.vocab_size());
    assert_eq!(loaded.save(), model);
    for text in ["Hello world!", corpus, "", "something else entirely", "hello hello"] {
        assert_eq!(loaded.encode(text), tokenizer.encode(text));
        assert_eq!(loaded.decode(&tokenizer.encode(text)), text);
    }
}

#[test]
fn the_order_of_merges_decides_the_encoding() {
    let first = PowerTokenizer::load(&model_of(vec![(98, 99, 256), (97, 98, 257)])).unwrap();
    assert_eq!(first.encode("abc"), vec![97, 256]);
    let second = PowerTokenizer::load(&model_of(vec![(97, 98, 256), (98, 99, 257)])).unwrap();
    assert_eq!(second.encode("abc"), vec![256, 99]);
}

#[test]
fn entries_may_come_in_any_order() {
    let mut model = model_of(vec![(104, 105, 256)]);
    model.vocab.reverse();
    let store = import_store(&model).expect("the order of entries is free");
    assert_eq!(store.size(), 257);
    assert_eq!(store.rule_for(104, 105), Some(256));
    assert_eq!(export_store(&store), model_of(vec![(104, 105, 256)]));
}

#[test]
fn merges_out_of_order_are_corrupt() {
    let model = model_of(vec![(1, 2, 257), (3, 4, 256)]);
    assert_eq!(import_store(&model).err(), Some(ModelError::CorruptModel));
    let mut model = model_of(vec![(1, 2, 256)]);
    model.merges[0].2 = 300;
    assert_eq!(PowerTokenizer::load(&model).err(), Some(ModelError::CorruptModel));
}

#[test]
fn a_pair_of_ids_that_do_not_exist_is_corrupt() {
    let mut model = model_of(vec![(1, 2, 256)]);
    model.merges[0] = (1, 256, 256);
    assert_eq!(import_store(&model).err(), Some(ModelError::CorruptModel));
    model.merges[0] = (900, 2, 256);
    assert_eq!(import_store(&model).err(), Some(ModelError::CorruptModel));
}

#[test]
fn a_pair_with_two_rules_is_corrupt() {
    let mut model = model_of(vec![(1, 2, 256), (3, 4, 257)]);
    model.merges[1] = (1, 2, 257);
    model.vocab[257] = ("257".to_string(), vec![1, 2]);
    assert_eq!(import_store(&model).err(), Some(ModelError::CorruptModel));
}

#[test]
fn entries_that_do_not_fit_the_merges_are_corrupt() {
    let good = model_of(vec![(104, 105, 256)]);
    assert!(import_store(&good).is_ok());

    let mut missing = good.clone();
    missing.vocab.remove(7);
    assert_eq!(import_store(&missing).err(), Some(ModelError::CorruptModel));

    let mut twice = good.clone();
    twice.vocab.push(("7".to_string(), vec![7]));
    assert_eq!(import_store(&twice).err(), Some(ModelError::CorruptModel));

    let mut unknown = good.clone();
    unknown.vocab.push(("257".to_string(), vec![1]));
    assert_eq!(import_store(&unknown).err(), Some(ModelError::CorruptModel));

    let mut wrong = good.clone();
    wrong.vocab[256] = ("256".to_string(), vec![105, 104]);
    assert_eq!(import_store(&wrong).err(), Some(ModelError::CorruptModel));

    let mut byte = good.clone();
    byte.vocab[65] = ("65".to_string(), vec![66]);
    assert_eq!(import_store(&byte).err(), Some(ModelError::CorruptModel));

    let empty = PersistedModel { vocab: vec![], merges: vec![] };
    assert_eq!(import_store(&empty).err(), Some(ModelError::CorruptModel));
}

#[test]
fn a_store_is_written_and_read_back() {
    let mut store = VocabStore::init();
    assert_eq!(store.add_merge((10, 20), 256), Ok(()));
    assert_eq!(store.add_merge((256, 30), 257), Ok(()));
    let model = export_store(&store);
    assert_eq!(model, model_of(vec![(10, 20, 256), (256, 30, 257)]));
    let back = import_store(&model).expect("what was written reads");
    assert_eq!(back.merge_count(), 2);
    assert_eq!(back.merge_at(0), (10, 20));
    assert_eq!(back.merge_at(1), (256, 30));
    assert_eq!(back.bytes_of(257), Some(&vec![10u8, 20, 30]));
}

#[test]
fn bytes_are_compared_one_by_one() {
    assert!(same_bytes(&[], &[]));
    assert!(same_bytes(&[1, 2, 3], &[1, 2, 3]));
    assert!(!same_bytes(&[1, 2, 3], &[1, 2]));
    assert!(!same_bytes(&[1, 2, 3], &[1, 9, 3]));
}

#[test]
fn keys_that_are_no_decimal_ids_are_corrupt() {
    let good = model_of(vec![]);
    for key in ["", "065", "+65", "65 ", "0x41", "sixty-five", "4294967361", "६५"] {
        let mut model = good.clone();
        model.vocab[65] = (key.to_string(), vec![65]);
        assert_eq!(import_store(&model).err(), Some(ModelError::CorruptModel));
    }
    assert!(import_store(&good).is_ok());
}
